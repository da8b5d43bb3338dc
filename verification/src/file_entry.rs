//! One entry of a container, as windows into the buffer it was parsed from.

use crate::text::be32;
use vstd::prelude::*;
use vstd::utf8::encode_utf8;

verus! {

/// An entry parsed out of a container.
///
/// The byte fields borrow from the parsed buffer; nothing is copied.
#[derive(Debug)]
pub struct FileEntry<'a> {
    /// The name of the entry, without the quotes around it.
    pub filename: Option<String>,
    /// The four bytes that follow the name length in the info block.
    pub header_data: Option<&'a [u8; 4]>,
    /// The four bytes that follow the content length in the content block.
    pub content_meta: Option<&'a [u8; 4]>,
    /// The payload: as many bytes as were declared, or as many as were left.
    pub content: &'a [u8],
    /// The content length that the framing declares.
    pub content_length: usize,
    /// The content block as it was consumed: framing and payload.
    pub raw_content_data: &'a [u8],
    /// The offset of the content block in the buffer.
    pub content_data_offset: usize,
}

/// The mathematical value of a [`FileEntry`].
pub struct Record {
    /// The UTF-8 bytes of the name.
    pub name: Option<Seq<u8>>,
    pub header: Option<Seq<u8>>,
    pub meta: Option<Seq<u8>>,
    pub content: Seq<u8>,
    pub declared: nat,
    pub raw: Seq<u8>,
    pub offset: nat,
}

/// The UTF-8 bytes of an optional name.
pub open spec fn name_view(name: Option<String>) -> Option<Seq<u8>> {
    match name {
        Some(s) => Some(encode_utf8(s@)),
        None => None,
    }
}

/// The bytes of an optional metadata field.
pub open spec fn quad_view(quad: Option<&[u8; 4]>) -> Option<Seq<u8>> {
    match quad {
        Some(q) => Some(q@),
        None => None,
    }
}

impl<'a> View for FileEntry<'a> {
    type V = Record;

    open spec fn view(&self) -> Record {
        Record {
            name: name_view(self.filename),
            header: quad_view(self.header_data),
            meta: quad_view(self.content_meta),
            content: self.content@,
            declared: self.content_length as nat,
            raw: self.raw_content_data@,
            offset: self.content_data_offset as nat,
        }
    }
}

/// The values of a sequence of entries.
pub open spec fn records_of(entries: Seq<FileEntry>) -> Seq<Record> {
    Seq::new(entries.len(), |i: int| entries[i]@)
}

/// Where the content block that starts at `offset` ends: behind the declared
/// payload, or at the end of the buffer if less is left.  A block too short
/// for its framing is empty.
pub open spec fn block_end(buf: Seq<u8>, offset: int) -> int {
    if offset + 8 <= buf.len() {
        if offset + 8 + be32(buf, offset) <= buf.len() {
            offset + 8 + be32(buf, offset)
        } else {
            buf.len() as int
        }
    } else {
        offset
    }
}

impl Record {
    /// The content fields are those of the content block at `self.offset` in
    /// `buf`: the length is read from the framing, and the payload is the
    /// declared number of bytes behind the framing, cut at the end of the
    /// buffer.  The payload is never searched for markers.
    pub open spec fn framed_in(self, buf: Seq<u8>) -> bool {
        let offset = self.offset as int;
        let end = block_end(buf, offset);
        &&& offset <= buf.len()
        &&& self.raw == buf.subrange(offset, end)
        &&& if offset + 8 <= buf.len() {
            &&& self.declared == be32(buf, offset)
            &&& self.meta == Some(buf.subrange(offset + 4, offset + 8))
            &&& self.content == buf.subrange(offset + 8, end)
        } else {
            &&& self.declared == 0
            &&& self.meta.is_none()
            &&& self.content == Seq::<u8>::empty()
        }
    }
}

/// The payload of a framed record is as long as declared, or as long as what
/// the buffer had left behind the framing.
pub proof fn lemma_content_is_clamped(rec: Record, buf: Seq<u8>)
    requires
        rec.framed_in(buf),
        rec.offset + 8 <= buf.len(),
    ensures
        rec.content.len() == if rec.declared <= buf.len() - rec.offset - 8 {
            rec.declared as int
        } else {
            buf.len() - rec.offset - 8
        },
{
}

} // verus!
