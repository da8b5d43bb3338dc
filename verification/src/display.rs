//! What is shown of a payload: a hexadecimal preview, or its first lines.
//!
//! Nothing here prints.  The functions lay out what is to be shown and leave
//! the rendering to the caller.

use crate::file_entry::FileEntry;
use crate::text::{as_utf8, lemma_boundary_behind_ascii_byte, slice_text};
use vstd::prelude::*;
use vstd::slice::{slice_subrange, slice_to_vec};
use vstd::string::StringSliceAdditionalSpecFns;
use vstd::utf8::{
    decode_utf8, encode_utf8, encode_utf8_decode_utf8, encode_utf8_valid_utf8,
    is_char_boundary_start_end_of_seq, is_leading_byte_width_1, partial_valid_utf8,
    partial_valid_utf8_extend_ascii_block, valid_utf8,
};

verus! {

/// The number of bytes in one row of a hexadecimal preview.
pub const ROW_BYTES: usize = 16;

/// The byte as it is shown in the text column of a preview: itself where it
/// is a graphic ASCII character or a space, a dot otherwise.
pub open spec fn printable(b: u8) -> u8 {
    if 0x20 <= b <= 0x7e {
        b
    } else {
        0x2e
    }
}

/// The text column for a run of bytes.
pub open spec fn ascii_column(data: Seq<u8>) -> Seq<u8> {
    Seq::new(data.len(), |i: int| printable(data[i]))
}

/// Renders bytes as text, with a dot for each byte that is neither a graphic
/// ASCII character nor a space.
pub fn to_ascii(data: &[u8]) -> (text: String)
    ensures
        encode_utf8(text@) == ascii_column(data@),
{
    let mut column: Vec<u8> = Vec::new();
    let mut at: usize = 0;
    while at < data.len()
        invariant
            at <= data.len(),
            column@ == ascii_column(data@.subrange(0, at as int)),
        decreases data.len() - at,
    {
        let b = data[at];
        let shown: u8 = if 0x20 <= b && b <= 0x7e {
            b
        } else {
            0x2e
        };
        column.push(shown);
        proof {
            assert(column@ =~= ascii_column(data@.subrange(0, at + 1)));
        }
        at += 1;
    }
    proof {
        assert(data@.subrange(0, at as int) =~= data@);
        assert forall|i: int| 0 <= i < column@.len() implies #[trigger] is_leading_byte_width_1(
            column@[i],
        ) by {}
        assert(column@.subrange(0, 0) =~= Seq::<u8>::empty());
        assert(partial_valid_utf8(column@, 0));
        partial_valid_utf8_extend_ascii_block(column@, 0, column@.len() as int);
        assert(column@.subrange(0, column@.len() as int) =~= column@);
    }
    match as_utf8(column.as_slice()) {
        Some(text) => text.to_owned(),
        None => String::new(),
    }
}

/// One row of a hexadecimal preview.
#[derive(Debug)]
pub struct HexRow {
    /// The offset of the first byte of the row.
    pub offset: usize,
    /// The bytes of the row, sixteen but for the last row.
    pub bytes: Vec<u8>,
    /// The bytes as text, see [`to_ascii`].
    pub text: String,
}

/// A hexadecimal preview of a buffer.
#[derive(Debug)]
pub struct HexPreview {
    pub rows: Vec<HexRow>,
    /// The number of bytes that the rows do not show.
    pub more: usize,
}

/// The number of rows in a preview of `len` bytes with at most `max_lines`
/// rows.
pub open spec fn row_count(len: int, max_lines: int) -> int {
    let full = (len + ROW_BYTES - 1) / (ROW_BYTES as int);
    if full <= max_lines {
        full
    } else {
        max_lines
    }
}

/// The bytes that row `index` of a preview of `data` shows.
pub open spec fn row_bytes(data: Seq<u8>, index: int) -> Seq<u8> {
    let from = index * ROW_BYTES;
    let to = if from + ROW_BYTES <= data.len() {
        from + ROW_BYTES
    } else {
        data.len() as int
    };
    data.subrange(from, to)
}

/// The number of bytes of a buffer of `len` bytes that `max_lines` rows do
/// not show.
pub open spec fn bytes_beyond(len: int, max_lines: int) -> int {
    if len > max_lines * ROW_BYTES {
        len - max_lines * ROW_BYTES
    } else {
        0
    }
}

/// The mathematical value of a [`HexRow`].
pub struct RowModel {
    pub offset: nat,
    pub bytes: Seq<u8>,
    pub text: Seq<char>,
}

impl View for HexRow {
    type V = RowModel;

    open spec fn view(&self) -> RowModel {
        RowModel { offset: self.offset as nat, bytes: self.bytes@, text: self.text@ }
    }
}

/// The values of a sequence of rows.
pub open spec fn rows_of(rows: Seq<HexRow>) -> Seq<RowModel> {
    Seq::new(rows.len(), |i: int| rows[i]@)
}

/// Row `index` of a preview of `data`.
pub open spec fn row_at(data: Seq<u8>, index: int) -> RowModel {
    RowModel {
        offset: (index * ROW_BYTES) as nat,
        bytes: row_bytes(data, index),
        text: decode_utf8(ascii_column(row_bytes(data, index))),
    }
}

/// The rows of a preview of `data` with at most `max_lines` rows.
pub open spec fn hexdump_rows(data: Seq<u8>, max_lines: int) -> Seq<RowModel> {
    Seq::new(row_count(data.len() as int, max_lines) as nat, |i: int| row_at(data, i))
}

/// Lays out a hexadecimal preview of at most `max_lines` rows of sixteen
/// bytes each.
pub fn hexdump_preview(data: &[u8], max_lines: usize) -> (preview: HexPreview)
    ensures
        rows_of(preview.rows@) == hexdump_rows(data@, max_lines as int),
        preview.more == bytes_beyond(data@.len() as int, max_lines as int),
{
    let len = data.len();
    let mut rows: Vec<HexRow> = Vec::new();
    let mut from: usize = 0;
    while from < len && rows.len() < max_lines
        invariant
            len == data@.len(),
            from <= len,
            from == rows@.len() * ROW_BYTES,
            rows@.len() <= max_lines,
            forall|i: int| 0 <= i < rows@.len() ==> (#[trigger] rows@[i])@ == row_at(data@, i),
        decreases len - from,
    {
        let to = if len - from >= ROW_BYTES {
            from + ROW_BYTES
        } else {
            len
        };
        let chunk = slice_subrange(data, from, to);
        let text = to_ascii(chunk);
        proof {
            encode_utf8_decode_utf8(text@);
        }
        rows.push(HexRow { offset: from, bytes: slice_to_vec(chunk), text });
        if to == len {
            proof {
                assert(rows_of(rows@) =~= hexdump_rows(data@, max_lines as int));
            }
            return HexPreview { rows, more: 0 };
        }
        from = to;
    }
    proof {
        assert(rows_of(rows@) =~= hexdump_rows(data@, max_lines as int));
    }
    let more = if max_lines <= len / ROW_BYTES {
        len - max_lines * ROW_BYTES
    } else {
        0
    };
    HexPreview { rows, more }
}

/// The first and the last bytes of the payload of an entry, with the offsets
/// in the parsed buffer where the payload starts and where the content block
/// ends.  They show where an archive that failed to open begins and ends.
#[derive(Debug)]
pub struct PayloadEnds<'a> {
    /// Up to four bytes from the start of the payload.
    pub start: &'a [u8],
    /// Up to four bytes from the end of the content block.
    pub end: &'a [u8],
    pub start_offset: usize,
    pub end_offset: usize,
}

/// The first bytes of the payload in a content block: up to four bytes
/// behind the eight bytes of framing.
pub open spec fn payload_start(raw: Seq<u8>) -> Seq<u8> {
    if raw.len() < 8 {
        Seq::empty()
    } else if raw.len() < 12 {
        raw.subrange(8, raw.len() as int)
    } else {
        raw.subrange(8, 12)
    }
}

/// The last bytes of a content block: up to four.
pub open spec fn block_tail(raw: Seq<u8>) -> Seq<u8> {
    if raw.len() < 4 {
        raw
    } else {
        raw.subrange(raw.len() - 4, raw.len() as int)
    }
}

/// Cuts the first and the last bytes out of the content block of an entry.
pub fn payload_ends<'a>(entry: &FileEntry<'a>) -> (ends: PayloadEnds<'a>)
    requires
        entry.content_data_offset + 8 <= usize::MAX,
        entry.content_data_offset + entry.raw_content_data@.len() <= usize::MAX,
    ensures
        ends.start@ == payload_start(entry.raw_content_data@),
        ends.end@ == block_tail(entry.raw_content_data@),
        ends.start_offset == entry.content_data_offset + 8,
        ends.end_offset == entry.content_data_offset + entry.raw_content_data@.len(),
{
    let raw = entry.raw_content_data;
    let len = raw.len();
    let start = if len < 8 {
        slice_subrange(raw, 0, 0)
    } else if len < 12 {
        slice_subrange(raw, 8, len)
    } else {
        slice_subrange(raw, 8, 12)
    };
    let end = if len < 4 {
        raw
    } else {
        slice_subrange(raw, len - 4, len)
    };
    proof {
        assert(raw@.subrange(0, 0) =~= Seq::<u8>::empty());
    }
    PayloadEnds {
        start,
        end,
        start_offset: entry.content_data_offset + 8,
        end_offset: entry.content_data_offset + len,
    }
}

pub const NEWLINE: u8 = 0x0a;

pub const RETURN: u8 = 0x0d;

/// The offset of the first line feed at or behind `from`, or the length of
/// the text where there is none.
pub open spec fn line_end(text: Seq<u8>, from: int) -> int
    decreases text.len() - from,
{
    if from >= text.len() {
        text.len() as int
    } else if text[from] == NEWLINE {
        from
    } else {
        line_end(text, from + 1)
    }
}

/// The line that starts at `from`, without its line ending: a line feed, or
/// a carriage return and a line feed.
pub open spec fn line_at(text: Seq<u8>, from: int) -> Seq<u8> {
    let end = line_end(text, from);
    if from < end < text.len() && text[end - 1] == RETURN {
        text.subrange(from, end - 1)
    } else {
        text.subrange(from, end)
    }
}

/// Where a line ends lies behind where it starts, and inside the text.
pub proof fn lemma_line_end(text: Seq<u8>, from: int)
    requires
        0 <= from <= text.len(),
    ensures
        from <= line_end(text, from) <= text.len(),
        line_end(text, from) < text.len() ==> text[line_end(text, from)] == NEWLINE,
        forall|k: int| from <= k < line_end(text, from) ==> text[k] != NEWLINE,
    decreases text.len() - from,
{
    if from < text.len() && text[from] != NEWLINE {
        lemma_line_end(text, from + 1);
    }
}

/// The lines of a text from offset `from` on.  A line feed at the very end
/// of the text ends the last line and starts no further one.
pub open spec fn lines_from(text: Seq<u8>, from: int) -> Seq<Seq<u8>>
    decreases text.len() - from,
{
    if from < 0 || from >= text.len() {
        Seq::empty()
    } else {
        proof {
            lemma_line_end(text, from);
        }
        if line_end(text, from) < text.len() {
            seq![line_at(text, from)] + lines_from(text, line_end(text, from) + 1)
        } else {
            seq![line_at(text, from)]
        }
    }
}

/// The lines of a text.
pub open spec fn lines_of(text: Seq<u8>) -> Seq<Seq<u8>> {
    lines_from(text, 0)
}

/// The first lines of a text.
#[derive(Debug)]
pub struct LinePreview {
    pub lines: Vec<String>,
    /// The number of lines of the text that are not among `lines`.
    pub more: usize,
}

/// The characters of each of a sequence of texts.
pub open spec fn texts_of(lines: Seq<String>) -> Seq<Seq<char>> {
    Seq::new(lines.len(), |i: int| lines[i]@)
}

/// The first `max_lines` lines of a text, as characters.
pub open spec fn first_lines(text: Seq<u8>, max_lines: int) -> Seq<Seq<char>> {
    let all = lines_of(text);
    Seq::new(
        if all.len() <= max_lines {
            all.len()
        } else {
            max_lines as nat
        },
        |i: int| decode_utf8(all[i]),
    )
}

/// The number of lines of a text behind the first `max_lines`.
pub open spec fn lines_beyond(text: Seq<u8>, max_lines: int) -> int {
    let all = lines_of(text);
    if all.len() <= max_lines {
        0
    } else {
        all.len() - max_lines
    }
}

/// A text has no more lines than bytes behind `from`.
pub proof fn lemma_lines_within(text: Seq<u8>, from: int)
    requires
        0 <= from <= text.len(),
    ensures
        lines_from(text, from).len() <= text.len() - from,
    decreases text.len() - from,
{
    if from < text.len() {
        lemma_line_end(text, from);
        if line_end(text, from) < text.len() {
            lemma_lines_within(text, line_end(text, from) + 1);
        }
    }
}

/// Splits a text into lines and keeps the first `max_lines` of them.
pub fn preview_lines(text: &str, max_lines: usize) -> (preview: LinePreview)
    ensures
        texts_of(preview.lines@) == first_lines(text.spec_bytes(), max_lines as int),
        preview.more == lines_beyond(text.spec_bytes(), max_lines as int),
{
    let bytes = text.as_bytes();
    let len = bytes.len();
    let ghost all = lines_of(bytes@);
    let mut lines: Vec<String> = Vec::new();
    let mut total: usize = 0;
    let mut from: usize = 0;
    proof {
        encode_utf8_valid_utf8(text@);
        lemma_lines_within(bytes@, 0);
    }
    while from < len
        invariant
            bytes@ == text.spec_bytes(),
            valid_utf8(bytes@),
            len == bytes@.len(),
            from <= len,
            all == lines_of(bytes@),
            all.len() <= len,
            total <= all.len(),
            total <= from,
            0 < from < len ==> bytes@[from - 1] == NEWLINE,
            all == all.subrange(0, total as int) + lines_from(bytes@, from as int),
            lines@.len() == if total <= max_lines {
                total
            } else {
                max_lines
            },
            forall|i: int| 0 <= i < lines@.len() ==> (#[trigger] lines@[i])@ == decode_utf8(all[i]),
        decreases len - from,
    {
        let mut end: usize = from;
        while end < len && bytes[end] != NEWLINE
            invariant
                len == bytes@.len(),
                from <= end <= len,
                line_end(bytes@, from as int) == line_end(bytes@, end as int),
            decreases len - end,
        {
            end += 1;
        }
        proof {
            lemma_line_end(bytes@, from as int);
            assert(all[total as int] == line_at(bytes@, from as int)) by {
                assert(lines_from(bytes@, from as int)[0] == line_at(bytes@, from as int));
            }
        }
        if total < max_lines {
            let stop = if from < end && end < len && bytes[end - 1] == RETURN {
                end - 1
            } else {
                end
            };
            proof {
                if from > 0 {
                    lemma_boundary_behind_ascii_byte(bytes@, from - 1);
                } else {
                    is_char_boundary_start_end_of_seq(bytes@);
                }
                if stop < len {
                    lemma_boundary_behind_ascii_byte(bytes@, stop as int);
                } else {
                    is_char_boundary_start_end_of_seq(bytes@);
                }
            }
            let line = slice_text(text, from, stop);
            proof {
                encode_utf8_decode_utf8(line@);
            }
            lines.push(line.to_owned());
        }
        let next = if end < len {
            end + 1
        } else {
            len
        };
        proof {
            assert(lines_from(bytes@, len as int) =~= Seq::<Seq<u8>>::empty());
            assert(lines_from(bytes@, from as int) =~= seq![line_at(bytes@, from as int)]
                + lines_from(bytes@, next as int));
            assert(all.subrange(0, total as int) + lines_from(bytes@, from as int) =~= all.subrange(
                0,
                total + 1,
            ) + lines_from(bytes@, next as int));
        }
        total += 1;
        from = next;
    }
    proof {
        assert(all =~= all.subrange(0, total as int));
        assert(texts_of(lines@) =~= first_lines(bytes@, max_lines as int));
    }
    let more = if total > max_lines {
        total - max_lines
    } else {
        0
    };
    LinePreview { lines, more }
}

} // verus!
