//! What processing a buffer amounts to: a list of steps, in the order in
//! which they are to be shown and carried out.
//!
//! Processing itself neither prints nor writes.  Whoever runs the steps
//! renders the reports and writes the files.

use crate::display::{rows_of, texts_of, HexRow, RowModel};
use crate::file_types::FileType;
use crate::summary::{field_view, groups_of, GroupModel, MetaGroup};
use vstd::prelude::*;

verus! {

/// What a folder stands for.
#[derive(Debug, Clone, Copy, PartialEq, Eq, Structural)]
pub enum FolderKind {
    /// What was unpacked from a container.
    Container,
    /// What was unpacked from an archive.
    Archive,
    /// A directory inside an archive: the part of a member name before its
    /// last slash.
    Directory,
}

/// A folder that holds what was unpacked from a container or an archive,
/// named after what it was unpacked from, or a directory inside an archive,
/// named by its path.
#[derive(Debug)]
pub struct Folder {
    pub kind: FolderKind,
    /// The name of the container or archive, where it has one, or the path of
    /// the directory.
    pub name: Option<String>,
}

/// A remark on a buffer.
#[derive(Debug, Clone, Copy, PartialEq, Eq, Structural)]
pub enum Remark {
    /// A gzip payload is kept as it is; nothing here decompresses it.
    GzipKept,
    /// Firmware of a known kind, which is not parsed any further.
    BinaryFirmware,
    /// No format was recognised.
    UnknownFormat,
    /// A container without entries.
    NoEntries,
    /// An archive without an end-of-central-directory record.
    NoDirectory,
    /// JSON by name, but not by content.
    InvalidJson,
    /// A container or archive that is nested deeper than
    /// [`MAX_DEPTH`](crate::processor::MAX_DEPTH) and is not unpacked.
    TooDeep,
}

/// One step of processing.
#[derive(Debug)]
#[allow(inconsistent_fields)]
pub enum Step {
    /// A buffer is looked at: its format, its name and its size.
    Enter { depth: usize, kind: FileType, name: Option<String>, size: usize },
    /// The bytes are to be written to the file `name` in `place`.
    Save { place: Vec<Folder>, name: String, data: Vec<u8> },
    /// The folder `place` is to be made.
    MakeDir { place: Vec<Folder> },
    Remark { depth: usize, remark: Remark },
    /// The number of entries of a container or of members of an archive.
    Count { depth: usize, kind: FolderKind, count: usize },
    /// An entry of a container, which is processed next: its number among
    /// the `count` entries, counted from one, its name and metadata, the
    /// size of its payload and the size that its framing declares.
    Entry {
        depth: usize,
        index: usize,
        count: usize,
        name: Option<String>,
        header: Option<[u8; 4]>,
        meta: Option<[u8; 4]>,
        size: usize,
        declared: usize,
    },
    /// The metadata of the entries of a container, grouped.
    Summary { depth: usize, groups: Vec<MetaGroup> },
    /// An archive that cannot be opened, and why.
    ArchiveFailed { depth: usize, message: String },
    /// A member of an archive that is not unpacked any further.
    Member { depth: usize, name: String, size: u64, kind: FileType },
    /// A member of an archive that cannot be read.
    MemberUnreadable { depth: usize, name: String },
    /// The first lines of a text, and the number of lines behind them.
    Text { depth: usize, lines: Vec<String>, more: usize },
    /// The first rows of a hexadecimal preview of a buffer, and the number of
    /// bytes behind them.
    Hexdump { depth: usize, rows: Vec<HexRow>, more: usize },
}

/// The mathematical value of a [`Folder`].
pub struct FolderModel {
    pub kind: FolderKind,
    pub name: Option<Seq<char>>,
}

/// The mathematical value of a [`Step`].
#[allow(inconsistent_fields)]
pub enum StepModel {
    Enter { depth: nat, kind: FileType, name: Option<Seq<char>>, size: nat },
    Save { place: Seq<FolderModel>, name: Seq<char>, data: Seq<u8> },
    MakeDir { place: Seq<FolderModel> },
    Remark { depth: nat, remark: Remark },
    Count { depth: nat, kind: FolderKind, count: nat },
    Entry {
        depth: nat,
        index: nat,
        count: nat,
        name: Option<Seq<char>>,
        header: Option<Seq<u8>>,
        meta: Option<Seq<u8>>,
        size: nat,
        declared: nat,
    },
    Summary { depth: nat, groups: Seq<GroupModel> },
    ArchiveFailed { depth: nat, message: Seq<char> },
    Member { depth: nat, name: Seq<char>, size: u64, kind: FileType },
    MemberUnreadable { depth: nat, name: Seq<char> },
    Text { depth: nat, lines: Seq<Seq<char>>, more: nat },
    Hexdump { depth: nat, rows: Seq<RowModel>, more: nat },
}

/// The characters of an optional name.
pub open spec fn text_view(name: Option<String>) -> Option<Seq<char>> {
    match name {
        Some(s) => Some(s@),
        None => None,
    }
}

impl View for Folder {
    type V = FolderModel;

    open spec fn view(&self) -> FolderModel {
        FolderModel { kind: self.kind, name: text_view(self.name) }
    }
}

/// The values of the folders of a place.
pub open spec fn place_of(place: Seq<Folder>) -> Seq<FolderModel> {
    Seq::new(place.len(), |i: int| place[i]@)
}

impl View for Step {
    type V = StepModel;

    open spec fn view(&self) -> StepModel {
        match *self {
            Step::Enter { depth, kind, name, size } => StepModel::Enter {
                depth: depth as nat,
                kind,
                name: text_view(name),
                size: size as nat,
            },
            Step::Save { place, name, data } => StepModel::Save {
                place: place_of(place@),
                name: name@,
                data: data@,
            },
            Step::MakeDir { place } => StepModel::MakeDir { place: place_of(place@) },
            Step::Remark { depth, remark } => StepModel::Remark { depth: depth as nat, remark },
            Step::Count { depth, kind, count } => StepModel::Count {
                depth: depth as nat,
                kind,
                count: count as nat,
            },
            Step::Entry {
                depth,
                index,
                count,
                name,
                header,
                meta,
                size,
                declared,
            } => StepModel::Entry {
                depth: depth as nat,
                index: index as nat,
                count: count as nat,
                name: text_view(name),
                header: field_view(header),
                meta: field_view(meta),
                size: size as nat,
                declared: declared as nat,
            },
            Step::Summary { depth, groups } => StepModel::Summary {
                depth: depth as nat,
                groups: groups_of(groups@),
            },
            Step::ArchiveFailed { depth, message } => StepModel::ArchiveFailed {
                depth: depth as nat,
                message: message@,
            },
            Step::Member { depth, name, size, kind } => StepModel::Member {
                depth: depth as nat,
                name: name@,
                size,
                kind,
            },
            Step::MemberUnreadable { depth, name } => StepModel::MemberUnreadable {
                depth: depth as nat,
                name: name@,
            },
            Step::Text { depth, lines, more } => StepModel::Text {
                depth: depth as nat,
                lines: texts_of(lines@),
                more: more as nat,
            },
            Step::Hexdump { depth, rows, more } => StepModel::Hexdump {
                depth: depth as nat,
                rows: rows_of(rows@),
                more: more as nat,
            },
        }
    }
}

/// The values of a sequence of steps.
pub open spec fn steps_of(steps: Seq<Step>) -> Seq<StepModel> {
    Seq::new(steps.len(), |i: int| steps[i]@)
}

/// Appending steps appends their values.
pub proof fn lemma_steps_of_add(a: Seq<Step>, b: Seq<Step>)
    ensures
        steps_of(a + b) == steps_of(a) + steps_of(b),
{
    assert(steps_of(a + b) =~= steps_of(a) + steps_of(b));
}

/// A copy of an optional name.
pub fn copy_name(name: Option<&str>) -> (copy: Option<String>)
    ensures
        text_view(copy) == match name {
            Some(s) => Some(s@),
            None => None,
        },
{
    match name {
        Some(s) => Some(s.to_owned()),
        None => None,
    }
}

/// A copy of a place.
pub fn copy_place(place: &Vec<Folder>) -> (copy: Vec<Folder>)
    ensures
        place_of(copy@) == place_of(place@),
{
    let mut copy: Vec<Folder> = Vec::new();
    let mut at: usize = 0;
    while at < place.len()
        invariant
            at <= place@.len(),
            copy@.len() == at,
            place_of(copy@) == place_of(place@.subrange(0, at as int)),
        decreases place@.len() - at,
    {
        let name = match &place[at].name {
            Some(s) => Some(s.clone()),
            None => None,
        };
        let ghost before = copy@;
        copy.push(Folder { kind: place[at].kind, name });
        proof {
            assert forall|i: int| 0 <= i <= at implies copy@[i]@ == place@[i]@ by {
                if i < at {
                    assert(place_of(before)[i] == place_of(place@.subrange(0, at as int))[i]);
                }
            }
            assert(place_of(copy@) =~= place_of(place@.subrange(0, at + 1)));
        }
        at += 1;
    }
    proof {
        assert(place@.subrange(0, place@.len() as int) =~= place@);
    }
    copy
}

/// The folder inside `place` for what is unpacked from `name`.
pub fn folder_in(place: &Vec<Folder>, kind: FolderKind, name: Option<&str>) -> (inner: Vec<Folder>)
    ensures
        place_of(inner@) == place_of(place@).push(
            FolderModel {
                kind,
                name: match name {
                    Some(s) => Some(s@),
                    None => None,
                },
            },
        ),
{
    let mut inner = copy_place(place);
    let ghost before = inner@;
    inner.push(Folder { kind, name: copy_name(name) });
    proof {
        assert(place_of(inner@) =~= place_of(before).push(inner@.last()@));
    }
    inner
}

} // verus!
