//! The container parser: a single scan from left to right that yields the
//! entries of a buffer.
//!
//! An entry is announced by three tags in a row: `"<filetransfer>"`,
//! `"<fileinfo>"` and `"<filecontent>"`.  The bytes between the last two are
//! the info block (name length, header, name); the bytes behind the last are
//! the content block (content length, metadata, payload).

use crate::file_entry::{block_end, name_view, quad_view, records_of, FileEntry, Record};
use crate::tags::{
    first_close, first_open, lemma_next_tag_bounds, next_tag, ANGLE_CLOSE, ANGLE_OPEN, QUOTE,
};
use crate::text::{as_quad, as_utf8, be32, matches_at, read_be32, strip_quotes, strip_quotes_of};
use vstd::prelude::*;
use vstd::slice::slice_subrange;
use vstd::string::StringSliceAdditionalSpecFns;
use vstd::utf8::valid_utf8;

verus! {

/// `"<filetransfer>"`, the tag that announces an entry.
#[verifier::opaque]
pub open spec fn transfer_tag() -> Seq<u8> {
    seq![
        0x22u8, 0x3cu8, 0x66u8, 0x69u8, 0x6cu8, 0x65u8, 0x74u8, 0x72u8, 0x61u8, 0x6eu8, 0x73u8,
        0x66u8, 0x65u8, 0x72u8, 0x3eu8, 0x22u8,
    ]
}

/// `"<fileinfo>"`, the tag in front of the info block.
#[verifier::opaque]
pub open spec fn info_tag() -> Seq<u8> {
    seq![
        0x22u8, 0x3cu8, 0x66u8, 0x69u8, 0x6cu8, 0x65u8, 0x69u8, 0x6eu8, 0x66u8, 0x6fu8, 0x3eu8,
        0x22u8,
    ]
}

/// `"<filecontent>"`, the tag in front of the content block.
#[verifier::opaque]
pub open spec fn content_tag() -> Seq<u8> {
    seq![
        0x22u8, 0x3cu8, 0x66u8, 0x69u8, 0x6cu8, 0x65u8, 0x63u8, 0x6fu8, 0x6eu8, 0x74u8, 0x65u8,
        0x6eu8, 0x74u8, 0x3eu8, 0x22u8,
    ]
}

/// The header field of an info block: absent where the block is shorter than
/// its eight bytes of framing.
pub open spec fn info_header(info: Seq<u8>) -> Option<Seq<u8>> {
    if info.len() < 8 {
        None
    } else {
        Some(info.subrange(4, 8))
    }
}

/// The name field of an info block as it stands in the block: absent where the
/// declared length is more than the block holds.
pub open spec fn info_name_field(info: Seq<u8>) -> Option<Seq<u8>> {
    if info.len() < 8 || info.len() - 8 < be32(info, 0) {
        None
    } else {
        Some(info.subrange(8, 8 + be32(info, 0)))
    }
}

/// The name of an info block: the name field without the quotes around it,
/// where the field is there and is well-formed UTF-8.
pub open spec fn info_name(info: Seq<u8>) -> Option<Seq<u8>> {
    match info_name_field(info) {
        Some(field) => if valid_utf8(field) {
            Some(strip_quotes(field))
        } else {
            None
        },
        None => None,
    }
}

/// The record made of the info block `info` and the content block at `offset`.
pub open spec fn record_at(buf: Seq<u8>, info: Seq<u8>, offset: int) -> Record {
    let end = block_end(buf, offset);
    Record {
        name: info_name(info),
        header: info_header(info),
        meta: if offset + 8 <= buf.len() {
            Some(buf.subrange(offset + 4, offset + 8))
        } else {
            None
        },
        content: if offset + 8 <= buf.len() {
            buf.subrange(offset + 8, end)
        } else {
            Seq::empty()
        },
        declared: if offset + 8 <= buf.len() {
            be32(buf, offset) as nat
        } else {
            0
        },
        raw: buf.subrange(offset, end),
        offset: offset as nat,
    }
}

/// What one round of the scan finds.
pub enum Scan {
    /// No further tag: the scan is over.
    Done,
    /// No entry here: the scan goes on at the given offset.
    Skip(int),
    /// An entry, and the offset behind its content block.
    Entry(Record, int),
}

/// One round of the scan, from offset `pos`.
pub open spec fn scan_step(buf: Seq<u8>, pos: int) -> Scan {
    match next_tag(buf, pos) {
        None => Scan::Done,
        Some((start, end)) => if buf.subrange(start, end) != transfer_tag() {
            if valid_utf8(buf.subrange(start, end)) {
                Scan::Skip(end)
            } else {
                Scan::Skip(start + 1)
            }
        } else {
            match next_tag(buf, end) {
                None => Scan::Done,
                Some((info_at, info_from)) => if buf.subrange(info_at, info_from) != info_tag() {
                    Scan::Skip(info_from)
                } else {
                    match next_tag(buf, info_from) {
                        None => Scan::Done,
                        Some((content_at, offset)) => if buf.subrange(content_at, offset)
                            != content_tag() {
                            Scan::Skip(offset)
                        } else {
                            Scan::Entry(
                                record_at(buf, buf.subrange(info_from, content_at), offset),
                                block_end(buf, offset),
                            )
                        },
                    }
                },
            }
        },
    }
}

/// Every round of the scan moves on, and stays inside the buffer.
pub proof fn lemma_scan_advances(buf: Seq<u8>, pos: int)
    requires
        0 <= pos,
    ensures
        match scan_step(buf, pos) {
            Scan::Done => true,
            Scan::Skip(next) => pos < next <= buf.len(),
            Scan::Entry(rec, next) => pos < next <= buf.len() && rec.framed_in(buf),
        },
{
    lemma_next_tag_bounds(buf, pos);
    if let Some((start, end)) = next_tag(buf, pos) {
        lemma_next_tag_bounds(buf, end);
        if let Some((info_at, info_from)) = next_tag(buf, end) {
            lemma_next_tag_bounds(buf, info_from);
        }
    }
}

/// The entries that the scan yields from offset `pos` on.
pub open spec fn parse_from(buf: Seq<u8>, pos: int) -> Seq<Record>
    decreases buf.len() - pos,
{
    if pos < 0 || pos >= buf.len() {
        Seq::empty()
    } else {
        proof {
            lemma_scan_advances(buf, pos);
        }
        match scan_step(buf, pos) {
            Scan::Done => Seq::empty(),
            Scan::Skip(next) => parse_from(buf, next),
            Scan::Entry(rec, next) => seq![rec] + parse_from(buf, next),
        }
    }
}

/// Every record that the scan yields is framed in the buffer, and its content
/// block stands behind the offset that the scan started from.
pub proof fn lemma_parse_framed(buf: Seq<u8>, pos: int)
    requires
        0 <= pos,
    ensures
        forall|i: int|
            0 <= i < parse_from(buf, pos).len() ==> {
                let rec = #[trigger] parse_from(buf, pos)[i];
                rec.framed_in(buf) && pos < rec.offset
            },
    decreases buf.len() - pos,
{
    if pos < buf.len() {
        lemma_scan_advances(buf, pos);
        lemma_next_tag_bounds(buf, pos);
        match scan_step(buf, pos) {
            Scan::Done => {},
            Scan::Skip(next) => {
                lemma_parse_framed(buf, next);
            },
            Scan::Entry(rec, next) => {
                lemma_parse_framed(buf, next);
                let (start, end) = next_tag(buf, pos).unwrap();
                lemma_next_tag_bounds(buf, end);
                let (info_at, info_from) = next_tag(buf, end).unwrap();
                lemma_next_tag_bounds(buf, info_from);
                assert(pos < rec.offset);
                assert(rec.offset <= next);
                assert forall|i: int| 0 <= i < parse_from(buf, pos).len() implies {
                    let found = #[trigger] parse_from(buf, pos)[i];
                    found.framed_in(buf) && pos < found.offset
                } by {
                    if i > 0 {
                        assert(parse_from(buf, pos)[i] == parse_from(buf, next)[i - 1]);
                    }
                }
            },
        }
    }
}

/// The entries of a buffer, in the order in which they stand in it.
pub open spec fn parse(buf: Seq<u8>) -> Seq<Record> {
    parse_from(buf, 0)
}

/// Finds the first quoted tag at or behind `start`.
///
/// Returns the offset of the tag and the tag itself, both quotes included,
/// or `None` where no opening behind `start` is ever closed.
pub fn find_tag<'a>(buffer: &'a [u8], start: usize) -> (found: Option<(usize, &'a [u8])>)
    ensures
        match found {
            Some((pos, tag)) => {
                &&& next_tag(buffer@, start as int) == Some((pos as int, pos + tag@.len()))
                &&& tag@ == buffer@.subrange(pos as int, pos + tag@.len())
            },
            None => next_tag(buffer@, start as int).is_none(),
        },
{
    let len = buffer.len();
    if len < 4 {
        return None;
    }
    let mut i = start;
    while i < len - 3
        invariant
            len == buffer@.len(),
            len >= 4,
            start <= i,
            first_open(buffer@, start as int) == first_open(buffer@, i as int),
        decreases len - i,
    {
        if buffer[i] == QUOTE && buffer[i + 1] == ANGLE_OPEN {
            let mut j = i + 2;
            while j < len - 1
                invariant
                    len == buffer@.len(),
                    i + 2 <= j,
                    i + 3 < len,
                    first_open(buffer@, start as int) == Some(i as int),
                    first_close(buffer@, i + 2) == first_close(buffer@, j as int),
                decreases len - j,
            {
                if buffer[j] == ANGLE_CLOSE && buffer[j + 1] == QUOTE {
                    return Some((i, slice_subrange(buffer, i, j + 2)));
                }
                j += 1;
            }
            return None;
        }
        i += 1;
    }
    None
}

/// Reads the name and the header out of an info block.
///
/// The block holds a big-endian name length, four header bytes and the name.
/// A block shorter than eight bytes has neither name nor header.  Where the
/// declared length is more than the block holds, or the name is not UTF-8,
/// the header is returned without a name.
pub fn extract_filename<'a>(info_data: &'a [u8]) -> (parsed: (Option<String>, Option<&'a [u8; 4]>))
    ensures
        name_view(parsed.0) == info_name(info_data@),
        quad_view(parsed.1) == info_header(info_data@),
{
    if info_data.len() < 8 {
        return (None, None);
    }
    let name_len = read_be32(info_data, 0) as usize;
    let header = as_quad(slice_subrange(info_data, 4, 8));
    if info_data.len() - 8 < name_len {
        return (None, header);
    }
    let field = slice_subrange(info_data, 8, 8 + name_len);
    let filename = match as_utf8(field) {
        Some(text) => Some(strip_quotes_of(text).to_owned()),
        None => None,
    };
    (filename, header)
}

/// Reads the content block at `offset` and joins it with what the info block
/// gave.
fn read_entry<'a>(
    buffer: &'a [u8],
    filename: Option<String>,
    header_data: Option<&'a [u8; 4]>,
    offset: usize,
) -> (entry: FileEntry<'a>)
    requires
        offset <= buffer@.len(),
    ensures
        entry.filename == filename,
        entry.header_data == header_data,
        entry@.offset == offset,
        entry@.framed_in(buffer@),
        offset + entry@.raw.len() == block_end(buffer@, offset as int),
{
    let len = buffer.len();
    if len - offset >= 8 {
        let declared = read_be32(buffer, offset) as usize;
        let content_meta = as_quad(slice_subrange(buffer, offset + 4, offset + 8));
        let available = len - offset - 8;
        let end = if declared <= available {
            offset + 8 + declared
        } else {
            len
        };
        FileEntry {
            filename,
            header_data,
            content_meta,
            content: slice_subrange(buffer, offset + 8, end),
            content_length: declared,
            raw_content_data: slice_subrange(buffer, offset, end),
            content_data_offset: offset,
        }
    } else {
        proof {
            assert(buffer@.subrange(offset as int, offset as int) =~= Seq::<u8>::empty());
        }
        FileEntry {
            filename,
            header_data,
            content_meta: None,
            content: slice_subrange(buffer, offset, offset),
            content_length: 0,
            raw_content_data: slice_subrange(buffer, offset, offset),
            content_data_offset: offset,
        }
    }
}

/// Whether `tag` is exactly the bytes of `expected`.
fn tag_is(tag: &[u8], expected: &[u8]) -> (same: bool)
    ensures
        same == (tag@ == expected@),
{
    if tag.len() != expected.len() {
        return false;
    }
    let same = matches_at(tag, expected, 0);
    proof {
        assert(tag@.subrange(0, tag@.len() as int) =~= tag@);
    }
    same
}

/// Parses all entries of a container buffer.
///
/// Never fails: bytes that are no entry are passed over, and a truncated
/// entry yields what is there.  Each payload is read by the length that its
/// framing declares, cut at the end of the buffer, and the scan goes on
/// behind it.
pub fn parse_file_entries<'a>(buffer: &'a [u8]) -> (entries: Vec<FileEntry<'a>>)
    ensures
        records_of(entries@) == parse(buffer@),
        forall|i: int| 0 <= i < entries@.len() ==> (#[trigger] entries@[i])@.framed_in(buffer@),
{
    let transfer: [u8; 16] = [
        0x22, 0x3c, 0x66, 0x69, 0x6c, 0x65, 0x74, 0x72, 0x61, 0x6e, 0x73, 0x66, 0x65, 0x72, 0x3e,
        0x22,
    ];
    let info: [u8; 12] = [
        0x22, 0x3c, 0x66, 0x69, 0x6c, 0x65, 0x69, 0x6e, 0x66, 0x6f, 0x3e, 0x22,
    ];
    let content: [u8; 15] = [
        0x22, 0x3c, 0x66, 0x69, 0x6c, 0x65, 0x63, 0x6f, 0x6e, 0x74, 0x65, 0x6e, 0x74, 0x3e, 0x22,
    ];
    proof {
        reveal(transfer_tag);
        reveal(info_tag);
        reveal(content_tag);
        assert(transfer@ =~= transfer_tag());
        assert(info@ =~= info_tag());
        assert(content@ =~= content_tag());
    }
    let mut entries: Vec<FileEntry<'a>> = Vec::new();
    let mut pos: usize = 0;
    assert(records_of(entries@) =~= Seq::<Record>::empty());
    while pos < buffer.len()
        invariant
            pos <= buffer@.len(),
            transfer@ == transfer_tag(),
            info@ == info_tag(),
            content@ == content_tag(),
            records_of(entries@) + parse_from(buffer@, pos as int) == parse(buffer@),
            forall|i: int| 0 <= i < entries@.len() ==> (#[trigger] entries@[i])@.framed_in(buffer@),
        decreases buffer@.len() - pos,
    {
        proof {
            lemma_scan_advances(buffer@, pos as int);
            lemma_next_tag_bounds(buffer@, pos as int);
        }
        let (start, tag) = match find_tag(buffer, pos) {
            Some(found) => found,
            None => {
                return entries;
            },
        };
        let end = start + tag.len();
        if !tag_is(tag, transfer.as_slice()) {
            pos = if as_utf8(tag).is_some() {
                end
            } else {
                start + 1
            };
            continue;
        }
        proof {
            lemma_next_tag_bounds(buffer@, end as int);
        }
        let (info_at, info_tag_bytes) = match find_tag(buffer, end) {
            Some(found) => found,
            None => {
                return entries;
            },
        };
        let info_from = info_at + info_tag_bytes.len();
        if !tag_is(info_tag_bytes, info.as_slice()) {
            pos = info_from;
            continue;
        }
        proof {
            lemma_next_tag_bounds(buffer@, info_from as int);
        }
        let (content_at, content_tag_bytes) = match find_tag(buffer, info_from) {
            Some(found) => found,
            None => {
                return entries;
            },
        };
        let offset = content_at + content_tag_bytes.len();
        if !tag_is(content_tag_bytes, content.as_slice()) {
            pos = offset;
            continue;
        }
        let (filename, header_data) = extract_filename(slice_subrange(buffer, info_from, content_at));
        let entry = read_entry(buffer, filename, header_data, offset);
        let ghost before = entries@;
        let next = offset + entry.raw_content_data.len();
        proof {
            assert(entry@ == record_at(
                buffer@,
                buffer@.subrange(info_from as int, content_at as int),
                offset as int,
            ));
        }
        entries.push(entry);
        proof {
            assert(records_of(entries@) =~= records_of(before) + seq![entry@]);
            assert(records_of(before) + (seq![entry@] + parse_from(buffer@, next as int))
                =~= records_of(before) + seq![entry@] + parse_from(buffer@, next as int));
        }
        pos = next;
    }
    proof {
        assert(records_of(entries@) + Seq::<Record>::empty() =~= records_of(entries@));
    }
    entries
}

} // verus!
