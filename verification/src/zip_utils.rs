//! Finding where a ZIP archive ends inside a larger buffer.
//!
//! An archive ends with its end-of-central-directory record: the signature
//! `PK\x05\x06`, eighteen bytes of fields of which the last two are the
//! length of a comment, and the comment.  Embedded archives may hold further
//! signatures, so the record that counts is the last one in the buffer.

use crate::text::{le16, matches_at, occurs_at, read_le16};
use vstd::prelude::*;
use vstd::slice::slice_subrange;

verus! {

/// The size of an end-of-central-directory record without its comment.
pub const EOCD_SIZE: usize = 22;

/// `PK\x05\x06`.
pub open spec fn eocd_signature() -> Seq<u8> {
    seq![0x50u8, 0x4bu8, 0x05u8, 0x06u8]
}

/// An end-of-central-directory record starts at `at` and fits the buffer.
pub open spec fn eocd_at(data: Seq<u8>, at: int) -> bool {
    &&& at + EOCD_SIZE <= data.len()
    &&& occurs_at(data, eocd_signature(), at)
}

/// Where the archive ends whose record starts at `at`: behind the comment,
/// or at the end of the buffer where the comment would overrun it.
pub open spec fn archive_end(data: Seq<u8>, at: int) -> int {
    let end = at + EOCD_SIZE + le16(data, at + 20);
    if end <= data.len() {
        end
    } else {
        data.len() as int
    }
}

/// The start of the last record at or before `bound`.
pub open spec fn last_eocd(data: Seq<u8>, bound: int) -> Option<int>
    decreases bound + 1,
{
    if bound < 0 {
        None
    } else if eocd_at(data, bound) {
        Some(bound)
    } else {
        last_eocd(data, bound - 1)
    }
}

/// The leading part of `data` that ends with its last end-of-central-directory
/// record, if it has one.
pub open spec fn archive_prefix(data: Seq<u8>) -> Option<Seq<u8>> {
    match last_eocd(data, data.len() - EOCD_SIZE) {
        Some(at) => Some(data.subrange(0, archive_end(data, at))),
        None => None,
    }
}

/// What `last_eocd` finds is a record, and no record starts behind it up to
/// the bound.
pub proof fn lemma_last_eocd(data: Seq<u8>, bound: int)
    ensures
        match last_eocd(data, bound) {
            Some(at) => 0 <= at <= bound && eocd_at(data, at) && forall|k: int|
                at < k <= bound ==> !eocd_at(data, k),
            None => forall|k: int| k <= bound ==> !eocd_at(data, k),
        },
    decreases bound + 1,
{
    if bound >= 0 && !eocd_at(data, bound) {
        lemma_last_eocd(data, bound - 1);
    }
}

/// The archive ends with the last record in the buffer: whatever signatures
/// stand before the record at `at`, the prefix is cut behind that record.
pub proof fn lemma_last_record_decides(data: Seq<u8>, at: int)
    requires
        eocd_at(data, at),
        forall|k: int| at < k ==> !eocd_at(data, k),
    ensures
        archive_prefix(data) == Some(data.subrange(0, archive_end(data, at))),
{
    lemma_last_eocd(data, data.len() - EOCD_SIZE);
}

/// A buffer without any record has no archive prefix, and one shorter than a
/// record has no record.
pub proof fn lemma_no_record_no_prefix(data: Seq<u8>)
    ensures
        archive_prefix(data).is_none() <==> forall|k: int| !eocd_at(data, k),
        data.len() < EOCD_SIZE ==> archive_prefix(data).is_none(),
{
    lemma_last_eocd(data, data.len() - EOCD_SIZE);
}

/// The bytes of an optional slice.
pub open spec fn slice_view(slice: Option<&[u8]>) -> Option<Seq<u8>> {
    match slice {
        Some(s) => Some(s@),
        None => None,
    }
}

/// Cuts `data` behind its last end-of-central-directory record.
///
/// Returns `None` where the buffer holds no such record.  Where the comment
/// length of the record points behind the end of the buffer, the whole buffer
/// is returned.
pub fn slice_to_eocd<'a>(data: &'a [u8]) -> (found: Option<&'a [u8]>)
    ensures
        slice_view(found) == archive_prefix(data@),
{
    let len = data.len();
    if len < EOCD_SIZE {
        return None;
    }
    let signature: [u8; 4] = [0x50, 0x4b, 0x05, 0x06];
    assert(signature@ =~= eocd_signature());
    let mut at: usize = len - EOCD_SIZE;
    loop
        invariant
            len == data@.len(),
            at + EOCD_SIZE <= len,
            signature@ == eocd_signature(),
            last_eocd(data@, len - EOCD_SIZE) == last_eocd(data@, at as int),
        decreases at,
    {
        if matches_at(data, signature.as_slice(), at) {
            let comment = read_le16(data, at + 20) as usize;
            let end = if comment <= len - at - EOCD_SIZE {
                at + EOCD_SIZE + comment
            } else {
                len
            };
            return Some(slice_subrange(data, 0, end));
        }
        if at == 0 {
            assert(last_eocd(data@, -1).is_none());
            return None;
        }
        at -= 1;
    }
}

} // verus!
