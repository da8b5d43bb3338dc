//! The recursive processor: classifies a buffer and either reports it as a
//! leaf or unpacks it and processes what it holds, one level deeper.
//!
//! Containers are unpacked by the parser of this crate, archives by the
//! `zip` crate.  JSON, plain text, gzip, firmware and unrecognised buffers
//! are leaves.  Nothing is printed or written here: the result is the list of
//! [`Step`]s that the caller is to carry out.

use crate::archive::{
    archive_count, archive_error, archive_intact, archive_source, member_at, member_count,
    open_archive, read_member,
};
use crate::display::{
    bytes_beyond, first_lines, hexdump_preview, hexdump_rows, lines_beyond, preview_lines,
};
use crate::file_entry::{records_of, FileEntry, Record};
use crate::file_types::{classify, detect_file_type, FileType};
use crate::json::{json_pretty, pretty_json};
use crate::parser::{parse, parse_file_entries};
use crate::steps::{
    copy_name, copy_place, folder_in, lemma_steps_of_add, place_of, steps_of, Folder, FolderKind,
    FolderModel, Remark, Step, StepModel,
};
use crate::summary::{copy_field, summarize_metadata, summary_of};
use crate::text::{
    as_utf8, ends_with, find_last, has_suffix, last_index, lemma_boundary_behind_ascii_byte,
    lemma_last_index, slice_text, text_behind,
};
use crate::zip_utils::{archive_prefix, slice_to_eocd};
use vstd::prelude::*;
use vstd::slice::slice_to_vec;
use vstd::string::StringSliceAdditionalSpecFns;
use vstd::utf8::{
    decode_utf8, encode_utf8, encode_utf8_decode_utf8, encode_utf8_valid_utf8,
    is_char_boundary_start_end_of_seq, valid_utf8,
};

verus! {

/// How deep containers and archives may be nested and still be unpacked.
pub const MAX_DEPTH: usize = 64;

/// The number of lines shown of a JSON document.
pub const JSON_LINES: usize = 20;

/// The number of lines shown of a plain text.
pub const TEXT_LINES: usize = 5;

/// The number of rows in the hexadecimal preview of a binary buffer.
pub const PREVIEW_ROWS: usize = 3;

/// The characters of an optional name.
pub open spec fn str_view(name: Option<&str>) -> Option<Seq<char>> {
    match name {
        Some(s) => Some(s@),
        None => None,
    }
}

/// The folders of an optional place.
pub open spec fn output_view(output: Option<&Vec<Folder>>) -> Option<Seq<FolderModel>> {
    match output {
        Some(place) => Some(place_of(place@)),
        None => None,
    }
}

/// The UTF-8 bytes of an optional name, as the classifier takes them.
pub open spec fn hint_of(name: Option<Seq<char>>) -> Option<Seq<u8>> {
    match name {
        Some(n) => Some(encode_utf8(n)),
        None => None,
    }
}

/// Whether a format is unpacked rather than reported as a leaf.
pub open spec fn is_nested(kind: FileType) -> bool {
    kind == FileType::AutelContainer || kind == FileType::Zip
}

/// The step that saves a buffer: there is one where output is asked for and
/// the buffer has a name.
pub open spec fn save_plan(
    output: Option<Seq<FolderModel>>,
    name: Option<Seq<char>>,
    data: Seq<u8>,
) -> Seq<StepModel> {
    match (output, name) {
        (Some(place), Some(n)) => seq![StepModel::Save { place, name: n, data }],
        _ => Seq::empty(),
    }
}

/// The place for what is unpacked from a container or archive with this name.
pub open spec fn inner_output(
    output: Option<Seq<FolderModel>>,
    kind: FolderKind,
    name: Option<Seq<char>>,
) -> Option<Seq<FolderModel>> {
    match output {
        Some(place) => Some(place.push(FolderModel { kind, name })),
        None => None,
    }
}

/// The step that makes the folder for what is unpacked, where output is
/// asked for.
pub open spec fn folder_plan(inner: Option<Seq<FolderModel>>) -> Seq<StepModel> {
    match inner {
        Some(place) => seq![StepModel::MakeDir { place }],
        None => Seq::empty(),
    }
}

/// The preview of a binary buffer: its first rows, and how much follows.
pub open spec fn preview_plan(data: Seq<u8>, depth: nat) -> StepModel {
    StepModel::Hexdump {
        depth,
        rows: hexdump_rows(data, PREVIEW_ROWS as int),
        more: bytes_beyond(data.len() as int, PREVIEW_ROWS as int) as nat,
    }
}

/// The bounded preview of a text: its first lines, and how many follow.
pub open spec fn text_plan(text: Seq<u8>, max_lines: int, depth: nat) -> StepModel {
    StepModel::Text {
        depth,
        lines: first_lines(text, max_lines),
        more: lines_beyond(text, max_lines) as nat,
    }
}

/// What is shown of a buffer that is taken for JSON: the document written
/// out with indentation, the text as it is where that fails, a remark where
/// the text is no JSON, and nothing where the buffer is no text at all.
pub open spec fn json_plan(data: Seq<u8>, depth: nat) -> Seq<StepModel> {
    if !valid_utf8(data) {
        Seq::empty()
    } else {
        match json_pretty(decode_utf8(data)) {
            Some(Some(pretty)) => seq![text_plan(encode_utf8(pretty), JSON_LINES as int, depth)],
            Some(None) => seq![text_plan(data, JSON_LINES as int, depth)],
            None => seq![StepModel::Remark { depth, remark: Remark::InvalidJson }],
        }
    }
}

/// What is shown of a leaf, behind its header and the step that saves it.
pub open spec fn leaf_plan(kind: FileType, data: Seq<u8>, depth: nat) -> Seq<StepModel> {
    match kind {
        FileType::Gzip => seq![StepModel::Remark { depth, remark: Remark::GzipKept }],
        FileType::Json => json_plan(data, depth),
        FileType::Text => if valid_utf8(data) {
            seq![text_plan(data, TEXT_LINES as int, depth)]
        } else {
            Seq::empty()
        },
        FileType::Unknown => seq![
            StepModel::Remark { depth, remark: Remark::UnknownFormat },
            preview_plan(data, depth),
        ],
        _ => seq![
            StepModel::Remark { depth, remark: Remark::BinaryFirmware },
            preview_plan(data, depth),
        ],
    }
}

pub const SLASH: u8 = 0x2f;

/// A member name that stands for a directory: it ends with a slash.
pub open spec fn is_directory_name(name: Seq<char>) -> bool {
    has_suffix(encode_utf8(name), seq![SLASH])
}

/// The file name in a member name: what stands behind its last slash, the
/// whole name where it has no slash.
pub open spec fn file_part(name: Seq<char>) -> Seq<char> {
    let bytes = encode_utf8(name);
    decode_utf8(bytes.subrange(last_index(bytes, SLASH) + 1, bytes.len() as int))
}

/// The directory in a member name: what stands before its last slash, if it
/// has a slash.
pub open spec fn directory_part(name: Seq<char>) -> Option<Seq<char>> {
    let bytes = encode_utf8(name);
    if last_index(bytes, SLASH) < 0 {
        None
    } else {
        Some(decode_utf8(bytes.subrange(0, last_index(bytes, SLASH))))
    }
}

/// The place of a member that is unpacked further: the directory of the
/// member inside the folder of the archive.
pub open spec fn member_output(inner: Option<Seq<FolderModel>>, name: Seq<char>) -> Option<
    Seq<FolderModel>,
> {
    match directory_part(name) {
        Some(directory) => inner_output(inner, FolderKind::Directory, Some(directory)),
        None => inner,
    }
}

/// The name of a record as characters.
pub open spec fn record_name(rec: Record) -> Option<Seq<char>> {
    match rec.name {
        Some(bytes) => Some(decode_utf8(bytes)),
        None => None,
    }
}

/// The steps of processing a buffer: its header, and then what its format
/// asks for.
pub open spec fn process_plan(
    data: Seq<u8>,
    name: Option<Seq<char>>,
    output: Option<Seq<FolderModel>>,
    depth: nat,
) -> Seq<StepModel>
    decreases MAX_DEPTH - depth, 3int, 0int,
{
    let kind = classify(data, hint_of(name));
    seq![StepModel::Enter { depth, kind, name, size: data.len() }] + (match kind {
        FileType::AutelContainer => container_plan(data, name, output, depth),
        FileType::Zip => archive_plan(data, name, output, depth),
        _ => save_plan(output, name, data) + leaf_plan(kind, data, depth),
    })
}

/// The steps of unpacking a container: the number of its entries, the folder
/// for them, each entry with the steps of processing its payload one level
/// deeper, and the summary of the metadata.
pub open spec fn container_plan(
    data: Seq<u8>,
    name: Option<Seq<char>>,
    output: Option<Seq<FolderModel>>,
    depth: nat,
) -> Seq<StepModel>
    decreases MAX_DEPTH - depth, 2int, 0int,
{
    if depth >= MAX_DEPTH {
        save_plan(output, name, data) + seq![StepModel::Remark { depth, remark: Remark::TooDeep }]
    } else if parse(data).len() == 0 {
        seq![StepModel::Remark { depth, remark: Remark::NoEntries }]
    } else {
        let records = parse(data);
        let inner = inner_output(output, FolderKind::Container, name);
        seq![StepModel::Count { depth, kind: FolderKind::Container, count: records.len() }]
            + folder_plan(inner) + entries_plan(records, records.len(), inner, depth) + seq![
            StepModel::Summary { depth, groups: summary_of(records) },
        ]
    }
}

/// The steps for the first `upto` entries of a container.
pub open spec fn entries_plan(
    records: Seq<Record>,
    upto: nat,
    inner: Option<Seq<FolderModel>>,
    depth: nat,
) -> Seq<StepModel>
    decreases MAX_DEPTH - depth, 1int, upto,
{
    if upto == 0 || upto > records.len() || depth >= MAX_DEPTH {
        Seq::empty()
    } else {
        let rec = records[upto - 1];
        entries_plan(records, (upto - 1) as nat, inner, depth) + seq![
            StepModel::Entry {
                depth,
                index: upto,
                count: records.len(),
                name: record_name(rec),
                header: rec.header,
                meta: rec.meta,
                size: rec.content.len(),
                declared: rec.declared,
            },
        ] + process_plan(rec.content, record_name(rec), inner, depth + 1)
    }
}

/// The steps of unpacking an archive.
///
/// An archive without an end-of-central-directory record is saved as it is.
/// One that cannot be opened is reported.  Otherwise: the number of members,
/// the folder for them, the archive itself saved, and the steps for each
/// member.
pub open spec fn archive_plan(
    data: Seq<u8>,
    name: Option<Seq<char>>,
    output: Option<Seq<FolderModel>>,
    depth: nat,
) -> Seq<StepModel>
    decreases MAX_DEPTH - depth, 2int, 0int,
{
    if depth >= MAX_DEPTH {
        save_plan(output, name, data) + seq![StepModel::Remark { depth, remark: Remark::TooDeep }]
    } else {
        match archive_prefix(data) {
            None => seq![StepModel::Remark { depth, remark: Remark::NoDirectory }] + save_plan(
                output,
                name,
                data,
            ),
            Some(prefix) => match archive_error(prefix) {
                Some(message) => seq![StepModel::ArchiveFailed { depth, message }],
                None => {
                    let inner = inner_output(output, FolderKind::Archive, name);
                    seq![
                        StepModel::Count {
                            depth,
                            kind: FolderKind::Archive,
                            count: archive_count(prefix),
                        },
                    ] + folder_plan(inner) + save_plan(output, name, data) + members_plan(
                        prefix,
                        archive_count(prefix),
                        inner,
                        depth,
                    )
                },
            },
        }
    }
}

/// The steps for the first `upto` members of an archive.
pub open spec fn members_plan(
    prefix: Seq<u8>,
    upto: nat,
    inner: Option<Seq<FolderModel>>,
    depth: nat,
) -> Seq<StepModel>
    decreases MAX_DEPTH - depth, 1int, upto,
{
    if upto == 0 {
        Seq::empty()
    } else {
        members_plan(prefix, (upto - 1) as nat, inner, depth) + member_plan(
            prefix,
            (upto - 1) as nat,
            inner,
            depth,
        )
    }
}

/// The steps for the member at `index`: none where the member cannot be had
/// or is a directory, a report where it cannot be read, and otherwise what
/// [`unpacked_plan`] says of its bytes.
pub open spec fn member_plan(
    prefix: Seq<u8>,
    index: nat,
    inner: Option<Seq<FolderModel>>,
    depth: nat,
) -> Seq<StepModel>
    decreases MAX_DEPTH - depth, 0int, 1int,
{
    match member_at(prefix, index) {
        None => Seq::empty(),
        Some((name, size, contents)) => if is_directory_name(name) {
            Seq::empty()
        } else {
            match contents {
                None => seq![StepModel::MemberUnreadable { depth, name }],
                Some(bytes) => unpacked_plan(name, size, bytes, inner, depth),
            }
        },
    }
}

/// The steps for a member that was read: one that is itself a container or an
/// archive is processed one level deeper, under its file name and in its
/// directory; any other is reported and saved under its whole name.
pub open spec fn unpacked_plan(
    name: Seq<char>,
    size: u64,
    bytes: Seq<u8>,
    inner: Option<Seq<FolderModel>>,
    depth: nat,
) -> Seq<StepModel>
    decreases MAX_DEPTH - depth, 0int, 0int,
{
    let kind = classify(bytes, Some(encode_utf8(name)));
    if !is_nested(kind) {
        seq![StepModel::Member { depth, name, size, kind }] + save_plan(inner, Some(name), bytes)
    } else if depth < MAX_DEPTH {
        process_plan(bytes, Some(file_part(name)), member_output(inner, name), depth + 1)
    } else {
        seq![StepModel::Remark { depth, remark: Remark::TooDeep }]
    }
}

/// The depth that a step reports at.  Steps that save or make a folder
/// report nothing.
pub open spec fn step_depth(step: StepModel) -> Option<nat> {
    match step {
        StepModel::Enter { depth, .. } => Some(depth),
        StepModel::Save { .. } => None,
        StepModel::MakeDir { .. } => None,
        StepModel::Remark { depth, .. } => Some(depth),
        StepModel::Count { depth, .. } => Some(depth),
        StepModel::Entry { depth, .. } => Some(depth),
        StepModel::Summary { depth, .. } => Some(depth),
        StepModel::ArchiveFailed { depth, .. } => Some(depth),
        StepModel::Member { depth, .. } => Some(depth),
        StepModel::MemberUnreadable { depth, .. } => Some(depth),
        StepModel::Text { depth, .. } => Some(depth),
        StepModel::Hexdump { depth, .. } => Some(depth),
    }
}

/// Every step reports at a depth from `low` to `high`.
pub open spec fn depths_within(steps: Seq<StepModel>, low: nat, high: nat) -> bool {
    forall|i: int|
        0 <= i < steps.len() ==> (step_depth(#[trigger] steps[i]) matches Some(d) ==> low <= d
            <= high)
}

/// What holds of the depths of two lists of steps holds of both in a row.
proof fn lemma_depths_add(a: Seq<StepModel>, b: Seq<StepModel>, low: nat, high: nat)
    requires
        depths_within(a, low, high),
        depths_within(b, low, high),
    ensures
        depths_within(a + b, low, high),
{
    assert forall|i: int| 0 <= i < (a + b).len() implies (step_depth(#[trigger] (a + b)[i])
        matches Some(d) ==> low <= d <= high) by {
        if i < a.len() {
            assert((a + b)[i] == a[i]);
        } else {
            assert((a + b)[i] == b[i - a.len()]);
        }
    }
}

/// Steps one level deeper are steps at this level or deeper.
proof fn lemma_depths_widen(steps: Seq<StepModel>, low: nat, high: nat)
    requires
        depths_within(steps, low + 1, high),
    ensures
        depths_within(steps, low, high),
{
}

/// Processing a buffer at some depth reports at that depth and deeper, one
/// level deeper for each container or archive that is unpacked, and never
/// deeper than [`MAX_DEPTH`].
pub proof fn lemma_process_depths(
    data: Seq<u8>,
    name: Option<Seq<char>>,
    output: Option<Seq<FolderModel>>,
    depth: nat,
)
    requires
        depth <= MAX_DEPTH,
    ensures
        process_plan(data, name, output, depth).len() > 0,
        process_plan(data, name, output, depth)[0] == (StepModel::Enter {
            depth,
            kind: classify(data, hint_of(name)),
            name,
            size: data.len(),
        }),
        depths_within(process_plan(data, name, output, depth), depth, MAX_DEPTH as nat),
    decreases MAX_DEPTH - depth, 3int, 0int,
{
    let kind = classify(data, hint_of(name));
    let enter = seq![StepModel::Enter { depth, kind, name, size: data.len() }];
    let rest = match kind {
        FileType::AutelContainer => container_plan(data, name, output, depth),
        FileType::Zip => archive_plan(data, name, output, depth),
        _ => save_plan(output, name, data) + leaf_plan(kind, data, depth),
    };
    match kind {
        FileType::AutelContainer => {
            lemma_container_depths(data, name, output, depth);
        },
        FileType::Zip => {
            lemma_archive_depths(data, name, output, depth);
        },
        _ => {
            lemma_depths_add(
                save_plan(output, name, data),
                leaf_plan(kind, data, depth),
                depth,
                MAX_DEPTH as nat,
            );
        },
    }
    lemma_depths_add(enter, rest, depth, MAX_DEPTH as nat);
}

/// A buffer that is neither a container nor an archive is a leaf: all its
/// steps are at its own depth, and none looks into it.
pub proof fn lemma_leaf_is_terminal(
    data: Seq<u8>,
    name: Option<Seq<char>>,
    output: Option<Seq<FolderModel>>,
    depth: nat,
)
    requires
        !is_nested(classify(data, hint_of(name))),
    ensures
        depths_within(process_plan(data, name, output, depth), depth, depth),
        forall|i: int|
            0 < i < process_plan(data, name, output, depth).len() ==> !(#[trigger] process_plan(
                data,
                name,
                output,
                depth,
            )[i] is Enter),
{
    let kind = classify(data, hint_of(name));
    let enter = seq![StepModel::Enter { depth, kind, name, size: data.len() }];
    let saved = save_plan(output, name, data);
    let leaf = leaf_plan(kind, data, depth);
    let plan = process_plan(data, name, output, depth);
    assert(plan == enter + (saved + leaf));
    assert forall|i: int| 0 <= i < plan.len() implies (step_depth(#[trigger] plan[i]) matches Some(
        d,
    ) ==> d == depth) && (i > 0 ==> !(plan[i] is Enter)) by {
        if i >= 1 {
            let j = i - 1;
            assert(plan[i] == (saved + leaf)[j]);
            if j < saved.len() {
                assert((saved + leaf)[j] == saved[j]);
            } else {
                assert((saved + leaf)[j] == leaf[j - saved.len()]);
            }
        }
    }
}

/// Unpacking a container reports at its depth and deeper.
pub proof fn lemma_container_depths(
    data: Seq<u8>,
    name: Option<Seq<char>>,
    output: Option<Seq<FolderModel>>,
    depth: nat,
)
    requires
        depth <= MAX_DEPTH,
    ensures
        depths_within(container_plan(data, name, output, depth), depth, MAX_DEPTH as nat),
    decreases MAX_DEPTH - depth, 2int, 0int,
{
    let high = MAX_DEPTH as nat;
    if depth >= MAX_DEPTH {
        lemma_depths_add(
            save_plan(output, name, data),
            seq![StepModel::Remark { depth, remark: Remark::TooDeep }],
            depth,
            high,
        );
    } else if parse(data).len() > 0 {
        let records = parse(data);
        let inner = inner_output(output, FolderKind::Container, name);
        let count = seq![
            StepModel::Count { depth, kind: FolderKind::Container, count: records.len() },
        ];
        let summary = seq![StepModel::Summary { depth, groups: summary_of(records) }];
        lemma_entries_depths(records, records.len(), inner, depth);
        lemma_depths_add(count, folder_plan(inner), depth, high);
        lemma_depths_add(
            count + folder_plan(inner),
            entries_plan(records, records.len(), inner, depth),
            depth,
            high,
        );
        lemma_depths_add(
            count + folder_plan(inner) + entries_plan(records, records.len(), inner, depth),
            summary,
            depth,
            high,
        );
    }
}

/// The steps for the entries of a container report at its depth and deeper.
proof fn lemma_entries_depths(
    records: Seq<Record>,
    upto: nat,
    inner: Option<Seq<FolderModel>>,
    depth: nat,
)
    requires
        depth <= MAX_DEPTH,
    ensures
        depths_within(entries_plan(records, upto, inner, depth), depth, MAX_DEPTH as nat),
    decreases MAX_DEPTH - depth, 1int, upto,
{
    let high = MAX_DEPTH as nat;
    if !(upto == 0 || upto > records.len() || depth >= MAX_DEPTH) {
        let rec = records[upto - 1];
        let before = entries_plan(records, (upto - 1) as nat, inner, depth);
        let entry = seq![
            StepModel::Entry {
                depth,
                index: upto,
                count: records.len(),
                name: record_name(rec),
                header: rec.header,
                meta: rec.meta,
                size: rec.content.len(),
                declared: rec.declared,
            },
        ];
        let child = process_plan(rec.content, record_name(rec), inner, depth + 1);
        lemma_entries_depths(records, (upto - 1) as nat, inner, depth);
        lemma_process_depths(rec.content, record_name(rec), inner, depth + 1);
        lemma_depths_widen(child, depth, high);
        lemma_depths_add(before, entry, depth, high);
        lemma_depths_add(before + entry, child, depth, high);
    }
}

/// Unpacking an archive reports at its depth and deeper.
pub proof fn lemma_archive_depths(
    data: Seq<u8>,
    name: Option<Seq<char>>,
    output: Option<Seq<FolderModel>>,
    depth: nat,
)
    requires
        depth <= MAX_DEPTH,
    ensures
        depths_within(archive_plan(data, name, output, depth), depth, MAX_DEPTH as nat),
    decreases MAX_DEPTH - depth, 2int, 0int,
{
    let high = MAX_DEPTH as nat;
    if depth >= MAX_DEPTH {
        lemma_depths_add(
            save_plan(output, name, data),
            seq![StepModel::Remark { depth, remark: Remark::TooDeep }],
            depth,
            high,
        );
    } else {
        match archive_prefix(data) {
            None => {
                lemma_depths_add(
                    seq![StepModel::Remark { depth, remark: Remark::NoDirectory }],
                    save_plan(output, name, data),
                    depth,
                    high,
                );
            },
            Some(prefix) => {
                if archive_error(prefix).is_none() {
                    let inner = inner_output(output, FolderKind::Archive, name);
                    let count = seq![
                        StepModel::Count {
                            depth,
                            kind: FolderKind::Archive,
                            count: archive_count(prefix),
                        },
                    ];
                    let members = members_plan(prefix, archive_count(prefix), inner, depth);
                    lemma_members_depths(prefix, archive_count(prefix), inner, depth);
                    lemma_depths_add(count, folder_plan(inner), depth, high);
                    lemma_depths_add(
                        count + folder_plan(inner),
                        save_plan(output, name, data),
                        depth,
                        high,
                    );
                    lemma_depths_add(
                        count + folder_plan(inner) + save_plan(output, name, data),
                        members,
                        depth,
                        high,
                    );
                }
            },
        }
    }
}

/// The steps for the members of an archive report at its depth and deeper.
proof fn lemma_members_depths(
    prefix: Seq<u8>,
    upto: nat,
    inner: Option<Seq<FolderModel>>,
    depth: nat,
)
    requires
        depth <= MAX_DEPTH,
    ensures
        depths_within(members_plan(prefix, upto, inner, depth), depth, MAX_DEPTH as nat),
    decreases MAX_DEPTH - depth, 1int, upto,
{
    if upto > 0 {
        let index = (upto - 1) as nat;
        lemma_members_depths(prefix, index, inner, depth);
        match member_at(prefix, index) {
            None => {},
            Some((name, size, contents)) => {
                if !is_directory_name(name) {
                    if let Some(bytes) = contents {
                        lemma_unpacked_depths(name, size, bytes, inner, depth);
                    }
                }
            },
        }
        lemma_depths_add(
            members_plan(prefix, index, inner, depth),
            member_plan(prefix, index, inner, depth),
            depth,
            MAX_DEPTH as nat,
        );
    }
}

/// The steps for a member that was read report at the depth of the archive
/// and deeper.
pub proof fn lemma_unpacked_depths(
    name: Seq<char>,
    size: u64,
    bytes: Seq<u8>,
    inner: Option<Seq<FolderModel>>,
    depth: nat,
)
    requires
        depth <= MAX_DEPTH,
    ensures
        depths_within(unpacked_plan(name, size, bytes, inner, depth), depth, MAX_DEPTH as nat),
    decreases MAX_DEPTH - depth, 0int, 0int,
{
    let kind = classify(bytes, Some(encode_utf8(name)));
    if !is_nested(kind) {
        lemma_depths_add(
            seq![StepModel::Member { depth, name, size, kind }],
            save_plan(inner, Some(name), bytes),
            depth,
            MAX_DEPTH as nat,
        );
    } else if depth < MAX_DEPTH {
        let file = Some(file_part(name));
        let place = member_output(inner, name);
        lemma_process_depths(bytes, file, place, depth + 1);
        lemma_depths_widen(process_plan(bytes, file, place, depth + 1), depth, MAX_DEPTH as nat);
    }
}

/// Appends one step to `steps`.
fn push_step(steps: &mut Vec<Step>, step: Step)
    ensures
        steps_of(final(steps)@) == steps_of(old(steps)@) + seq![step@],
{
    let ghost before = steps@;
    steps.push(step);
    proof {
        assert(steps_of(steps@) =~= steps_of(before) + seq![step@]);
    }
}

/// Appends `more` to `steps`.
fn append_steps(steps: &mut Vec<Step>, more: Vec<Step>)
    ensures
        steps_of(final(steps)@) == steps_of(old(steps)@) + steps_of(more@),
{
    let mut more = more;
    proof {
        lemma_steps_of_add(steps@, more@);
    }
    steps.append(&mut more);
}

/// No steps yet.
fn no_steps() -> (steps: Vec<Step>)
    ensures
        steps_of(steps@) == Seq::<StepModel>::empty(),
{
    let steps: Vec<Step> = Vec::new();
    proof {
        assert(steps_of(steps@) =~= Seq::<StepModel>::empty());
    }
    steps
}

/// The step that saves a buffer, where output is asked for and the buffer
/// has a name.
fn save_steps(output_dir: Option<&Vec<Folder>>, filename: Option<&str>, data: &[u8]) -> (steps: Vec<
    Step,
>)
    ensures
        steps_of(steps@) == save_plan(output_view(output_dir), str_view(filename), data@),
{
    let mut steps = no_steps();
    if let (Some(place), Some(name)) = (output_dir, filename) {
        push_step(
            &mut steps,
            Step::Save { place: copy_place(place), name: name.to_owned(), data: slice_to_vec(data) },
        );
    }
    steps
}

/// The preview of a binary buffer.
fn preview_step(data: &[u8], depth: usize) -> (step: Step)
    ensures
        step@ == preview_plan(data@, depth as nat),
{
    let preview = hexdump_preview(data, PREVIEW_ROWS);
    Step::Hexdump { depth, rows: preview.rows, more: preview.more }
}

/// The bounded preview of a text.
fn text_step(text: &str, max_lines: usize, depth: usize) -> (step: Step)
    ensures
        step@ == text_plan(text.spec_bytes(), max_lines as int, depth as nat),
{
    let preview = preview_lines(text, max_lines);
    Step::Text { depth, lines: preview.lines, more: preview.more }
}

/// What is shown of a buffer that is taken for JSON.
fn json_steps(data: &[u8], depth: usize) -> (steps: Vec<Step>)
    ensures
        steps_of(steps@) == json_plan(data@, depth as nat),
{
    let mut steps = no_steps();
    if let Some(text) = as_utf8(data) {
        proof {
            encode_utf8_decode_utf8(text@);
        }
        let step = match pretty_json(text) {
            Some(Some(pretty)) => text_step(pretty.as_str(), JSON_LINES, depth),
            Some(None) => text_step(text, JSON_LINES, depth),
            None => Step::Remark { depth, remark: Remark::InvalidJson },
        };
        push_step(&mut steps, step);
    }
    steps
}

/// What is shown of a leaf, behind its header and the step that saves it.
fn leaf_steps(kind: FileType, data: &[u8], depth: usize) -> (steps: Vec<Step>)
    ensures
        steps_of(steps@) == leaf_plan(kind, data@, depth as nat),
{
    let mut steps = no_steps();
    match kind {
        FileType::Gzip => {
            push_step(&mut steps, Step::Remark { depth, remark: Remark::GzipKept });
        },
        FileType::Json => {
            return json_steps(data, depth);
        },
        FileType::Text => {
            if let Some(text) = as_utf8(data) {
                push_step(&mut steps, text_step(text, TEXT_LINES, depth));
            }
        },
        FileType::Unknown => {
            push_step(&mut steps, Step::Remark { depth, remark: Remark::UnknownFormat });
            push_step(&mut steps, preview_step(data, depth));
        },
        _ => {
            push_step(&mut steps, Step::Remark { depth, remark: Remark::BinaryFirmware });
            push_step(&mut steps, preview_step(data, depth));
        },
    }
    steps
}

/// The steps for a container or archive that is nested too deep to be
/// unpacked: it is saved as it is.
fn too_deep_steps(
    data: &[u8],
    filename: Option<&str>,
    output_dir: Option<&Vec<Folder>>,
    depth: usize,
) -> (steps: Vec<Step>)
    ensures
        steps_of(steps@) == save_plan(output_view(output_dir), str_view(filename), data@) + seq![
            StepModel::Remark { depth: depth as nat, remark: Remark::TooDeep },
        ],
{
    let mut steps = save_steps(output_dir, filename, data);
    push_step(&mut steps, Step::Remark { depth, remark: Remark::TooDeep });
    steps
}

/// The folder for what is unpacked, and the step that makes it, where output
/// is asked for.
fn open_folder(
    steps: &mut Vec<Step>,
    output_dir: Option<&Vec<Folder>>,
    kind: FolderKind,
    name: Option<&str>,
) -> (inner: Option<Vec<Folder>>)
    ensures
        inner_view(inner) == inner_output(output_view(output_dir), kind, str_view(name)),
        steps_of(final(steps)@) == steps_of(old(steps)@) + folder_plan(inner_view(inner)),
{
    let ghost before = steps@;
    match output_dir {
        Some(place) => {
            let inner = folder_in(place, kind, name);
            steps.push(Step::MakeDir { place: copy_place(&inner) });
            proof {
                assert(steps_of(steps@) =~= steps_of(before) + seq![
                    StepModel::MakeDir { place: place_of(inner@) },
                ]);
            }
            Some(inner)
        },
        None => {
            proof {
                assert(steps_of(steps@) =~= steps_of(before) + Seq::<StepModel>::empty());
            }
            None
        },
    }
}

/// The folders of a place that is held by value.
pub open spec fn inner_view(inner: Option<Vec<Folder>>) -> Option<Seq<FolderModel>> {
    match inner {
        Some(place) => Some(place_of(place@)),
        None => None,
    }
}

/// A place held by value, borrowed.
fn borrow_place(inner: &Option<Vec<Folder>>) -> (place: Option<&Vec<Folder>>)
    ensures
        output_view(place) == inner_view(*inner),
{
    match inner {
        Some(place) => Some(place),
        None => None,
    }
}

/// Processes a buffer: classifies it, and reports it as a leaf or unpacks it.
///
/// `filename` is a hint for the classification and the name under which the
/// buffer is saved.  Steps that save are made where `output_dir` is given;
/// it is the place of the buffer itself.  `depth` is the number of containers
/// and archives around the buffer.
pub fn process_file(
    data: &[u8],
    filename: Option<&str>,
    output_dir: Option<&Vec<Folder>>,
    depth: usize,
) -> (steps: Vec<Step>)
    ensures
        steps_of(steps@) == process_plan(
            data@,
            str_view(filename),
            output_view(output_dir),
            depth as nat,
        ),
    decreases MAX_DEPTH - depth, 3int, 0int,
{
    let kind = detect_file_type(data, filename);
    let mut steps = no_steps();
    push_step(&mut steps, Step::Enter { depth, kind, name: copy_name(filename), size: data.len() });
    match kind {
        FileType::AutelContainer => {
            append_steps(&mut steps, process_autel_container(data, filename, output_dir, depth));
        },
        FileType::Zip => {
            append_steps(&mut steps, process_zip(data, filename, output_dir, depth));
        },
        _ => {
            append_steps(&mut steps, save_steps(output_dir, filename, data));
            append_steps(&mut steps, leaf_steps(kind, data, depth));
        },
    }
    proof {
        assert(steps_of(steps@) =~= process_plan(
            data@,
            str_view(filename),
            output_view(output_dir),
            depth as nat,
        ));
    }
    steps
}

/// The name of an entry, borrowed.
fn entry_name<'a>(entry: &'a FileEntry) -> (name: Option<&'a str>)
    ensures
        str_view(name) == record_name(entry@),
{
    match &entry.filename {
        Some(s) => {
            proof {
                encode_utf8_decode_utf8(s@);
            }
            Some(s.as_str())
        },
        None => None,
    }
}

/// Unpacks a container: parses its entries and processes the payload of each
/// one level deeper.
pub fn process_autel_container(
    data: &[u8],
    container_name: Option<&str>,
    output_dir: Option<&Vec<Folder>>,
    depth: usize,
) -> (steps: Vec<Step>)
    ensures
        steps_of(steps@) == container_plan(
            data@,
            str_view(container_name),
            output_view(output_dir),
            depth as nat,
        ),
    decreases MAX_DEPTH - depth, 2int, 0int,
{
    if depth >= MAX_DEPTH {
        return too_deep_steps(data, container_name, output_dir, depth);
    }
    let entries = parse_file_entries(data);
    let ghost records = parse(data@);
    let count = entries.len();
    assert(count == records.len());
    let mut steps = no_steps();
    if count == 0 {
        push_step(&mut steps, Step::Remark { depth, remark: Remark::NoEntries });
        return steps;
    }
    push_step(&mut steps, Step::Count { depth, kind: FolderKind::Container, count });
    let inner = open_folder(&mut steps, output_dir, FolderKind::Container, container_name);
    let ghost head = steps_of(steps@);
    let mut i: usize = 0;
    while i < count
        invariant
            i <= count,
            count == entries@.len(),
            depth < MAX_DEPTH,
            records == records_of(entries@),
            steps_of(steps@) == head + entries_plan(records, i as nat, inner_view(inner), depth as nat),
        decreases count - i,
    {
        let entry = &entries[i];
        let name = entry_name(entry);
        assert(records[i as int] == entry@);
        push_step(
            &mut steps,
            Step::Entry {
                depth,
                index: i + 1,
                count,
                name: copy_name(name),
                header: copy_field(entry.header_data),
                meta: copy_field(entry.content_meta),
                size: entry.content.len(),
                declared: entry.content_length,
            },
        );
        append_steps(&mut steps, process_file(entry.content, name, borrow_place(&inner), depth + 1));
        i += 1;
        proof {
            assert(steps_of(steps@) =~= head + entries_plan(
                records,
                i as nat,
                inner_view(inner),
                depth as nat,
            ));
        }
    }
    push_step(&mut steps, Step::Summary { depth, groups: summarize_metadata(entries.as_slice()) });
    proof {
        assert(steps_of(steps@) =~= container_plan(
            data@,
            str_view(container_name),
            output_view(output_dir),
            depth as nat,
        ));
    }
    steps
}

/// Whether a member name stands for a directory.
fn is_directory(name: &str) -> (directory: bool)
    ensures
        directory == is_directory_name(name@),
{
    let slash: [u8; 1] = [SLASH];
    assert(slash@ =~= seq![SLASH]);
    ends_with(name.as_bytes(), slash.as_slice())
}

/// Splits a member name at its last slash, into directory and file name.
fn split_member_name<'a>(name: &'a str) -> (parts: (Option<&'a str>, &'a str))
    ensures
        str_view(parts.0) == directory_part(name@),
        parts.1@ == file_part(name@),
{
    let bytes = name.as_bytes();
    match find_last(bytes, SLASH) {
        Some(at) => {
            proof {
                lemma_last_index(bytes@, SLASH);
                encode_utf8_valid_utf8(name@);
                is_char_boundary_start_end_of_seq(bytes@);
                lemma_boundary_behind_ascii_byte(bytes@, at as int);
            }
            let directory = slice_text(name, 0, at);
            let file = text_behind(name, at);
            proof {
                encode_utf8_decode_utf8(directory@);
                encode_utf8_decode_utf8(file@);
            }
            (Some(directory), file)
        },
        None => {
            proof {
                assert(bytes@.subrange(0, bytes@.len() as int) =~= bytes@);
                encode_utf8_decode_utf8(name@);
            }
            (None, name)
        },
    }
}

/// The steps for a member of an archive that was read.
///
/// A member that is itself a container or an archive is processed one level
/// deeper, under its file name and in its directory inside the folder of the
/// archive.  Any other is reported with its declared size and its format, and
/// saved under its whole name where output is asked for.
pub fn process_member(
    name: String,
    size: u64,
    contents: Vec<u8>,
    output_dir: Option<&Vec<Folder>>,
    depth: usize,
) -> (steps: Vec<Step>)
    ensures
        steps_of(steps@) == unpacked_plan(
            name@,
            size,
            contents@,
            output_view(output_dir),
            depth as nat,
        ),
    decreases MAX_DEPTH - depth, 0int, 0int,
{
    let kind = detect_file_type(contents.as_slice(), Some(name.as_str()));
    if kind == FileType::AutelContainer || kind == FileType::Zip {
        if depth < MAX_DEPTH {
            let (directory, file) = split_member_name(name.as_str());
            match (output_dir, directory) {
                (Some(place), Some(directory)) => {
                    let nested = folder_in(place, FolderKind::Directory, Some(directory));
                    process_file(contents.as_slice(), Some(file), Some(&nested), depth + 1)
                },
                _ => process_file(contents.as_slice(), Some(file), output_dir, depth + 1),
            }
        } else {
            let mut steps = no_steps();
            push_step(&mut steps, Step::Remark { depth, remark: Remark::TooDeep });
            steps
        }
    } else {
        let mut steps = no_steps();
        let saved = save_steps(output_dir, Some(name.as_str()), contents.as_slice());
        push_step(&mut steps, Step::Member { depth, name, size, kind });
        append_steps(&mut steps, saved);
        steps
    }
}

/// Unpacks an archive: finds where it ends, opens it, and processes each
/// member that is no directory.
pub fn process_zip(
    data: &[u8],
    zip_name: Option<&str>,
    output_dir: Option<&Vec<Folder>>,
    depth: usize,
) -> (steps: Vec<Step>)
    ensures
        steps_of(steps@) == archive_plan(
            data@,
            str_view(zip_name),
            output_view(output_dir),
            depth as nat,
        ),
    decreases MAX_DEPTH - depth, 2int, 0int,
{
    if depth >= MAX_DEPTH {
        return too_deep_steps(data, zip_name, output_dir, depth);
    }
    let mut steps = no_steps();
    let prefix = match slice_to_eocd(data) {
        Some(prefix) => prefix,
        None => {
            push_step(&mut steps, Step::Remark { depth, remark: Remark::NoDirectory });
            append_steps(&mut steps, save_steps(output_dir, zip_name, data));
            return steps;
        },
    };
    let mut archive = match open_archive(prefix) {
        Ok(archive) => archive,
        Err(message) => {
            push_step(&mut steps, Step::ArchiveFailed { depth, message });
            return steps;
        },
    };
    let count = member_count(&archive);
    push_step(&mut steps, Step::Count { depth, kind: FolderKind::Archive, count });
    let inner = open_folder(&mut steps, output_dir, FolderKind::Archive, zip_name);
    append_steps(&mut steps, save_steps(output_dir, zip_name, data));
    let ghost head = steps_of(steps@);
    let mut i: usize = 0;
    while i < count
        invariant
            i <= count,
            depth < MAX_DEPTH,
            archive_source(archive) == prefix@,
            archive_intact(archive),
            steps_of(steps@) == head + members_plan(prefix@, i as nat, inner_view(inner), depth as nat),
        decreases count - i,
    {
        let ghost before = steps_of(steps@);
        match read_member(&mut archive, i) {
            None => {},
            Some((name, size, contents)) => {
                if !is_directory(name.as_str()) {
                    match contents {
                        None => {
                            push_step(&mut steps, Step::MemberUnreadable { depth, name });
                        },
                        Some(contents) => {
                            append_steps(
                                &mut steps,
                                process_member(name, size, contents, borrow_place(&inner), depth),
                            );
                        },
                    }
                }
            },
        }
        proof {
            assert(steps_of(steps@) =~= before + member_plan(
                prefix@,
                i as nat,
                inner_view(inner),
                depth as nat,
            ));
        }
        i += 1;
        proof {
            assert(steps_of(steps@) =~= head + members_plan(
                prefix@,
                i as nat,
                inner_view(inner),
                depth as nat,
            ));
        }
    }
    proof {
        assert(steps_of(steps@) =~= archive_plan(
            data@,
            str_view(zip_name),
            output_view(output_dir),
            depth as nat,
        ));
    }
    steps
}

} // verus!
