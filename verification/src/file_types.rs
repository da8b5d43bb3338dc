//! Format detection from magic bytes, container markers and file names.
//!
//! Evidence is weighed in a fixed order: what the bytes themselves show (an
//! embedded container tag, then magic numbers) outranks the file name,
//! and the file name outranks the generic text and JSON sniffing.

use crate::tags::QUOTE;
use crate::text::{as_utf8, ends_with, has_prefix, has_suffix, matches_at, occurs_at};
use vstd::prelude::*;
use vstd::string::StringSliceAdditionalSpecFns;
use vstd::utf8::valid_utf8;

verus! {

/// The formats a buffer can be recognised as.
#[derive(Debug, PartialEq, Eq, Clone, Copy, Structural)]
pub enum FileType {
    /// Tagged container that opens with `"<filetransfer>"`.
    AutelContainer,
    Zip,
    Gzip,
    Json,
    /// Gimbal firmware, `34 12 ef be`.
    UpgGimbal,
    /// Flight control firmware, `UPFS`.
    UpgFcs,
    /// Battery management firmware, `02 aa 55 aa`.
    UpgBms,
    /// Speed controller firmware, four zero bytes and a controller id.
    UpgEsc,
    /// Remote control firmware, `34 12 ef be 0e`.
    UpgRcMcu,
    /// GPS firmware, `@TD1050x`.
    GpsBin,
    Text,
    Unknown,
}

/// How far into a buffer a container marker may start.
pub const MARKER_WINDOW: usize = 100;

/// The container tag as it stands bare: `<filetransfer>`.
pub open spec fn marker_tag() -> Seq<u8> {
    seq![
        0x3cu8, 0x66u8, 0x69u8, 0x6cu8, 0x65u8, 0x74u8, 0x72u8, 0x61u8, 0x6eu8, 0x73u8, 0x66u8,
        0x65u8, 0x72u8, 0x3eu8,
    ]
}

/// The container tag in quotes: `"<filetransfer>"`.
pub open spec fn marker_quoted() -> Seq<u8> {
    seq![QUOTE] + marker_tag() + seq![QUOTE]
}

/// `PK\x03\x04`, the local file header of a ZIP archive.
pub open spec fn magic_zip() -> Seq<u8> {
    seq![0x50u8, 0x4bu8, 0x03u8, 0x04u8]
}

pub open spec fn magic_gzip() -> Seq<u8> {
    seq![0x1fu8, 0x8bu8]
}

pub open spec fn magic_gimbal() -> Seq<u8> {
    seq![0x34u8, 0x12u8, 0xefu8, 0xbeu8]
}

/// `UPFS`.
pub open spec fn magic_fcs() -> Seq<u8> {
    seq![0x55u8, 0x50u8, 0x46u8, 0x53u8]
}

pub open spec fn magic_bms() -> Seq<u8> {
    seq![0x02u8, 0xaau8, 0x55u8, 0xaau8]
}

pub open spec fn magic_esc() -> Seq<u8> {
    seq![0x00u8, 0x00u8, 0x00u8, 0x00u8]
}

/// `@TD1050x`.
pub open spec fn magic_gps() -> Seq<u8> {
    seq![0x40u8, 0x54u8, 0x44u8, 0x31u8, 0x30u8, 0x35u8, 0x30u8, 0x78u8]
}

/// `.json`.
pub open spec fn ext_json() -> Seq<u8> {
    seq![0x2eu8, 0x6au8, 0x73u8, 0x6fu8, 0x6eu8]
}

/// `.zip`.
pub open spec fn ext_zip() -> Seq<u8> {
    seq![0x2eu8, 0x7au8, 0x69u8, 0x70u8]
}

/// A container marker starts at offset `at`: the tag in quotes, the bare
/// tag, or the bare tag behind a quote.
pub open spec fn marker_at(data: Seq<u8>, at: int) -> bool {
    ||| occurs_at(data, marker_quoted(), at)
    ||| occurs_at(data, marker_tag(), at)
    ||| (0 <= at < data.len() && data[at] == QUOTE && occurs_at(data, marker_tag(), at + 1))
}

/// The buffer holds a container marker that starts within the first
/// [`MARKER_WINDOW`] bytes.
pub open spec fn has_container_marker(data: Seq<u8>) -> bool {
    exists|at: int| 0 <= at < MARKER_WINDOW && #[trigger] marker_at(data, at)
}

/// The tag in quotes is a quote and the bare tag behind it.
pub proof fn lemma_quoted_marker(data: Seq<u8>, at: int)
    requires
        occurs_at(data, marker_quoted(), at),
    ensures
        data[at] == QUOTE,
        occurs_at(data, marker_tag(), at + 1),
{
    let quoted = marker_quoted();
    let found = data.subrange(at, at + 16);
    assert(quoted.len() == 16);
    assert(found[0] == quoted[0]);
    assert forall|j: int| 0 <= j < 14 implies data.subrange(at + 1, at + 15)[j] == marker_tag()[j] by {
        assert(found[j + 1] == quoted[j + 1]);
    }
    assert(data.subrange(at + 1, at + 15) =~= marker_tag());
}

/// ASCII white space: space, tab, line feed, form feed, carriage return.
pub open spec fn is_blank(b: u8) -> bool {
    b == 0x20 || b == 0x09 || b == 0x0a || b == 0x0c || b == 0x0d
}

/// The first byte that is not white space opens a JSON object or array.
pub open spec fn opens_json(data: Seq<u8>) -> bool {
    exists|at: int|
        0 <= at < data.len() && (#[trigger] data[at] == 0x7b || data[at] == 0x5b) && forall|j: int|
            0 <= j < at ==> is_blank(#[trigger] data[j])
}

/// What the leading bytes say, if anything.
pub open spec fn classify_magic(data: Seq<u8>) -> Option<FileType>
    recommends
        data.len() >= 4,
{
    if has_prefix(data, magic_zip()) {
        Some(FileType::Zip)
    } else if has_prefix(data, magic_gzip()) {
        Some(FileType::Gzip)
    } else if has_prefix(data, magic_gimbal()) {
        if data.len() >= 5 && data[4] == 0x0e {
            Some(FileType::UpgRcMcu)
        } else {
            Some(FileType::UpgGimbal)
        }
    } else if has_prefix(data, magic_fcs()) {
        Some(FileType::UpgFcs)
    } else if has_prefix(data, magic_bms()) {
        Some(FileType::UpgBms)
    } else if has_prefix(data, magic_esc()) && data.len() >= 5 && 0x14 <= data[4] <= 0x17 {
        Some(FileType::UpgEsc)
    } else if has_prefix(data, magic_gps()) {
        Some(FileType::GpsBin)
    } else {
        None
    }
}

/// What the file name says, if anything.
pub open spec fn classify_name(name: Option<Seq<u8>>) -> Option<FileType> {
    match name {
        Some(n) => if has_suffix(n, ext_json()) {
            Some(FileType::Json)
        } else if has_suffix(n, ext_zip()) {
            Some(FileType::Zip)
        } else {
            None
        },
        None => None,
    }
}

/// What the buffer looks like when read as text.
pub open spec fn classify_text(data: Seq<u8>) -> FileType {
    if !valid_utf8(data) {
        FileType::Unknown
    } else if opens_json(data) {
        FileType::Json
    } else {
        FileType::Text
    }
}

/// The format of a buffer, given the UTF-8 bytes of its file name if it has one.
pub open spec fn classify(data: Seq<u8>, name: Option<Seq<u8>>) -> FileType {
    if data.len() < 4 {
        FileType::Unknown
    } else if has_container_marker(data) {
        FileType::AutelContainer
    } else if classify_magic(data).is_some() {
        classify_magic(data).unwrap()
    } else if classify_name(name).is_some() {
        classify_name(name).unwrap()
    } else {
        classify_text(data)
    }
}

/// A buffer of fewer than four bytes is of unknown format, whatever it
/// holds and whatever it is called.
pub proof fn lemma_short_buffer_is_unknown(data: Seq<u8>, name: Option<Seq<u8>>)
    requires
        data.len() < 4,
    ensures
        classify(data, name) == FileType::Unknown,
{
}

/// A buffer of four bytes or more that shows no container marker and no
/// magic number, under a name that tells nothing, is what it looks like as
/// text: unknown where it is no UTF-8, JSON where its first byte that is not
/// white space opens an object or an array, plain text otherwise.
pub proof fn lemma_without_evidence_text_decides(data: Seq<u8>, name: Option<Seq<u8>>)
    requires
        data.len() >= 4,
        !has_container_marker(data),
        classify_magic(data).is_none(),
        classify_name(name).is_none(),
    ensures
        classify(data, name) == if !valid_utf8(data) {
            FileType::Unknown
        } else if opens_json(data) {
            FileType::Json
        } else {
            FileType::Text
        },
{
}

/// The format depends on the bytes and the name alone: buffers that hold the
/// same bytes under the same name are of the same format.
pub proof fn lemma_same_input_same_format(
    data: Seq<u8>,
    name: Option<Seq<u8>>,
    other_data: Seq<u8>,
    other_name: Option<Seq<u8>>,
)
    requires
        data.len() == other_data.len(),
        forall|i: int| 0 <= i < data.len() ==> data[i] == other_data[i],
        name.is_some() == other_name.is_some(),
        name.is_some() ==> name.unwrap().len() == other_name.unwrap().len() && forall|i: int|
            0 <= i < name.unwrap().len() ==> name.unwrap()[i] == other_name.unwrap()[i],
    ensures
        classify(data, name) == classify(other_data, other_name),
{
    assert(data =~= other_data);
    if name.is_some() {
        assert(name.unwrap() =~= other_name.unwrap());
    }
}

/// The UTF-8 bytes of an optional file name.
pub open spec fn name_bytes(filename: Option<&str>) -> Option<Seq<u8>> {
    match filename {
        Some(s) => Some(s.spec_bytes()),
        None => None,
    }
}

/// Looks for a container marker near the start of the buffer.
fn find_container_marker(data: &[u8]) -> (found: bool)
    ensures
        found == has_container_marker(data@),
{
    let tag: [u8; 14] = [
        0x3c, 0x66, 0x69, 0x6c, 0x65, 0x74, 0x72, 0x61, 0x6e, 0x73, 0x66, 0x65, 0x72, 0x3e,
    ];
    assert(tag@ =~= marker_tag());
    let mut at: usize = 0;
    while at < MARKER_WINDOW
        invariant
            at <= MARKER_WINDOW,
            tag@ == marker_tag(),
            forall|k: int| 0 <= k < at ==> !marker_at(data@, k),
        decreases MARKER_WINDOW - at,
    {
        if matches_at(data, tag.as_slice(), at) {
            assert(marker_at(data@, at as int));
            return true;
        }
        if at < data.len() && data[at] == QUOTE && matches_at(data, tag.as_slice(), at + 1) {
            assert(marker_at(data@, at as int));
            return true;
        }
        proof {
            if occurs_at(data@, marker_quoted(), at as int) {
                lemma_quoted_marker(data@, at as int);
            }
        }
        at += 1;
    }
    false
}

/// Whether the first byte that is not white space is `{` or `[`.
fn looks_like_json(data: &[u8]) -> (found: bool)
    ensures
        found == opens_json(data@),
{
    let mut at: usize = 0;
    while at < data.len()
        invariant
            at <= data.len(),
            forall|j: int| 0 <= j < at ==> is_blank(#[trigger] data@[j]),
        decreases data.len() - at,
    {
        let b = data[at];
        if b == 0x7b || b == 0x5b {
            return true;
        }
        if !(b == 0x20 || b == 0x09 || b == 0x0a || b == 0x0c || b == 0x0d) {
            assert forall|k: int| 0 <= k < data@.len() && (#[trigger] data@[k] == 0x7b || data@[k]
                == 0x5b) implies !(forall|j: int| 0 <= j < k ==> is_blank(#[trigger] data@[j])) by {
                if k < at {
                    assert(is_blank(data@[k]));
                } else {
                    assert(!is_blank(data@[at as int]));
                }
            }
            return false;
        }
        at += 1;
    }
    assert forall|k: int| 0 <= k < data@.len() implies !(#[trigger] data@[k] == 0x7b || data@[k]
        == 0x5b) by {
        assert(is_blank(data@[k]));
    }
    false
}

/// Recognises a buffer by its leading magic bytes.
fn detect_magic(data: &[u8]) -> (kind: Option<FileType>)
    requires
        data@.len() >= 4,
    ensures
        kind == classify_magic(data@),
{
    let zip: [u8; 4] = [0x50, 0x4b, 0x03, 0x04];
    let gzip: [u8; 2] = [0x1f, 0x8b];
    let gimbal: [u8; 4] = [0x34, 0x12, 0xef, 0xbe];
    let fcs: [u8; 4] = [0x55, 0x50, 0x46, 0x53];
    let bms: [u8; 4] = [0x02, 0xaa, 0x55, 0xaa];
    let esc: [u8; 4] = [0x00, 0x00, 0x00, 0x00];
    let gps: [u8; 8] = [0x40, 0x54, 0x44, 0x31, 0x30, 0x35, 0x30, 0x78];
    assert(zip@ =~= magic_zip());
    assert(gzip@ =~= magic_gzip());
    assert(gimbal@ =~= magic_gimbal());
    assert(fcs@ =~= magic_fcs());
    assert(bms@ =~= magic_bms());
    assert(esc@ =~= magic_esc());
    assert(gps@ =~= magic_gps());
    if matches_at(data, zip.as_slice(), 0) {
        Some(FileType::Zip)
    } else if matches_at(data, gzip.as_slice(), 0) {
        Some(FileType::Gzip)
    } else if matches_at(data, gimbal.as_slice(), 0) {
        if data.len() >= 5 && data[4] == 0x0e {
            Some(FileType::UpgRcMcu)
        } else {
            Some(FileType::UpgGimbal)
        }
    } else if matches_at(data, fcs.as_slice(), 0) {
        Some(FileType::UpgFcs)
    } else if matches_at(data, bms.as_slice(), 0) {
        Some(FileType::UpgBms)
    } else if matches_at(data, esc.as_slice(), 0) && data.len() >= 5 && data[4] >= 0x14 && data[4]
        <= 0x17 {
        Some(FileType::UpgEsc)
    } else if matches_at(data, gps.as_slice(), 0) {
        Some(FileType::GpsBin)
    } else {
        None
    }
}

/// Recognises a format by the extension of the file name.
fn detect_by_name(filename: Option<&str>) -> (kind: Option<FileType>)
    ensures
        kind == classify_name(name_bytes(filename)),
{
    match filename {
        Some(name) => {
            let json: [u8; 5] = [0x2e, 0x6a, 0x73, 0x6f, 0x6e];
            let zip: [u8; 4] = [0x2e, 0x7a, 0x69, 0x70];
            assert(json@ =~= ext_json());
            assert(zip@ =~= ext_zip());
            let bytes = name.as_bytes();
            if ends_with(bytes, json.as_slice()) {
                Some(FileType::Json)
            } else if ends_with(bytes, zip.as_slice()) {
                Some(FileType::Zip)
            } else {
                None
            }
        },
        None => None,
    }
}

/// Detects the format of `data`, with the file name as a hint.
///
/// Never fails: a buffer that shows no evidence of any format, and every
/// buffer shorter than four bytes, is [`FileType::Unknown`].
pub fn detect_file_type(data: &[u8], filename: Option<&str>) -> (kind: FileType)
    ensures
        kind == classify(data@, name_bytes(filename)),
        data@.len() < 4 ==> kind == FileType::Unknown,
{
    if data.len() < 4 {
        return FileType::Unknown;
    }
    if find_container_marker(data) {
        return FileType::AutelContainer;
    }
    if let Some(kind) = detect_magic(data) {
        return kind;
    }
    if let Some(kind) = detect_by_name(filename) {
        return kind;
    }
    if as_utf8(data).is_some() {
        if looks_like_json(data) {
            FileType::Json
        } else {
            FileType::Text
        }
    } else {
        FileType::Unknown
    }
}

/// The display name of a format.
pub open spec fn display_name(ft: FileType) -> Seq<char> {
    match ft {
        FileType::AutelContainer => "Autel Container"@,
        FileType::Zip => "ZIP Archive"@,
        FileType::Gzip => "Gzip Compressed"@,
        FileType::Json => "JSON"@,
        FileType::UpgGimbal => "UPG (Gimbal)"@,
        FileType::UpgFcs => "UPG (Flight Control System)"@,
        FileType::UpgBms => "UPG (Battery Management)"@,
        FileType::UpgEsc => "UPG (ESC)"@,
        FileType::UpgRcMcu => "UPG (RC MCU)"@,
        FileType::GpsBin => "GPS Binary"@,
        FileType::Text => "Text"@,
        FileType::Unknown => "Unknown"@,
    }
}

/// A human-readable name for a format.
pub fn file_type_name(ft: &FileType) -> (name: &'static str)
    ensures
        name@ == display_name(*ft),
{
    match ft {
        FileType::AutelContainer => "Autel Container",
        FileType::Zip => "ZIP Archive",
        FileType::Gzip => "Gzip Compressed",
        FileType::Json => "JSON",
        FileType::UpgGimbal => "UPG (Gimbal)",
        FileType::UpgFcs => "UPG (Flight Control System)",
        FileType::UpgBms => "UPG (Battery Management)",
        FileType::UpgEsc => "UPG (ESC)",
        FileType::UpgRcMcu => "UPG (RC MCU)",
        FileType::GpsBin => "GPS Binary",
        FileType::Text => "Text",
        FileType::Unknown => "Unknown",
    }
}

} // verus!
