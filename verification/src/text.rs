//! Byte-level helpers shared by the format sniffers and parsers.

use crate::tags::QUOTE;
use vstd::prelude::*;
use vstd::string::StringSliceAdditionalSpecFns;
use vstd::utf8::{
    encode_utf8_valid_utf8, is_char_boundary, is_char_boundary_iff_not_is_continuation_byte,
    is_char_boundary_start_end_of_seq, length_of_first_scalar, pop_first_scalar, valid_utf8,
    valid_utf8_split,
};

verus! {

/// `pat` occurs in `data` at offset `at`.
pub open spec fn occurs_at(data: Seq<u8>, pat: Seq<u8>, at: int) -> bool {
    &&& 0 <= at
    &&& at + pat.len() <= data.len()
    &&& data.subrange(at, at + pat.len()) == pat
}

/// `data` begins with `pat`.
pub open spec fn has_prefix(data: Seq<u8>, pat: Seq<u8>) -> bool {
    occurs_at(data, pat, 0)
}

/// `data` ends with `pat`.
pub open spec fn has_suffix(data: Seq<u8>, pat: Seq<u8>) -> bool {
    pat.len() <= data.len() && occurs_at(data, pat, data.len() - pat.len())
}

/// Compares the bytes of `data` from offset `at` on with `pat`.
pub fn matches_at(data: &[u8], pat: &[u8], at: usize) -> (found: bool)
    ensures
        found == occurs_at(data@, pat@, at as int),
{
    if at > data.len() || pat.len() > data.len() - at {
        return false;
    }
    let mut k: usize = 0;
    while k < pat.len()
        invariant
            k <= pat.len(),
            at + pat.len() <= data.len(),
            forall|j: int| 0 <= j < k ==> data@[at + j] == pat@[j],
        decreases pat.len() - k,
    {
        if data[at + k] != pat[k] {
            assert(data@.subrange(at as int, at + pat.len())[k as int] != pat@[k as int]);
            return false;
        }
        k += 1;
    }
    assert(data@.subrange(at as int, at + pat.len()) =~= pat@);
    true
}

/// Whether `data` ends with `pat`.
pub fn ends_with(data: &[u8], pat: &[u8]) -> (found: bool)
    ensures
        found == has_suffix(data@, pat@),
{
    if pat.len() > data.len() {
        return false;
    }
    matches_at(data, pat, data.len() - pat.len())
}

/// The bytes as text, where they are well-formed UTF-8.
///
/// Trusted: wraps `core::str::from_utf8`, which succeeds exactly on
/// well-formed UTF-8 and then returns the same bytes viewed as a string.
#[verifier::external_body]
pub(crate) fn as_utf8(data: &[u8]) -> (text: Option<&str>)
    ensures
        text.is_some() == valid_utf8(data@),
        text matches Some(s) ==> s.spec_bytes() == data@,
{
    core::str::from_utf8(data).ok()
}

/// The offset of the last `byte` in `data`, or -1 where it holds none.
pub open spec fn last_index(data: Seq<u8>, byte: u8) -> int
    decreases data.len(),
{
    if data.len() == 0 {
        -1
    } else if data.last() == byte {
        data.len() - 1
    } else {
        last_index(data.drop_last(), byte)
    }
}

/// What `last_index` finds is such a byte, and the last one.
pub proof fn lemma_last_index(data: Seq<u8>, byte: u8)
    ensures
        -1 <= last_index(data, byte) < data.len(),
        last_index(data, byte) >= 0 ==> data[last_index(data, byte)] == byte,
        forall|k: int| last_index(data, byte) < k < data.len() ==> data[k] != byte,
    decreases data.len(),
{
    if data.len() > 0 && data.last() != byte {
        lemma_last_index(data.drop_last(), byte);
        assert forall|k: int| last_index(data, byte) < k < data.len() implies data[k] != byte by {
            if k < data.len() - 1 {
                assert(data.drop_last()[k] == data[k]);
            }
        }
    }
}

/// Finds the last `byte` in `data`.
pub fn find_last(data: &[u8], byte: u8) -> (found: Option<usize>)
    ensures
        match found {
            Some(at) => at == last_index(data@, byte),
            None => last_index(data@, byte) == -1,
        },
{
    let mut end: usize = data.len();
    assert(data@.subrange(0, end as int) =~= data@);
    while end > 0
        invariant
            end <= data@.len(),
            last_index(data@, byte) == last_index(data@.subrange(0, end as int), byte),
        decreases end,
    {
        if data[end - 1] == byte {
            assert(data@.subrange(0, end as int).last() == byte);
            return Some(end - 1);
        }
        proof {
            assert(data@.subrange(0, end as int).drop_last() =~= data@.subrange(0, end - 1));
        }
        end -= 1;
    }
    None
}

/// The big-endian number held by the four bytes at offset `at`.
pub open spec fn be32(data: Seq<u8>, at: int) -> int
    recommends
        0 <= at,
        at + 4 <= data.len(),
{
    data[at] * 0x100_0000 + data[at + 1] * 0x1_0000 + data[at + 2] * 0x100 + data[at + 3]
}

/// Reads the big-endian number held by the four bytes at offset `at`.
pub fn read_be32(data: &[u8], at: usize) -> (value: u32)
    requires
        at + 4 <= data@.len(),
    ensures
        value == be32(data@, at as int),
{
    let b0 = data[at] as u32;
    let b1 = data[at + 1] as u32;
    let b2 = data[at + 2] as u32;
    let b3 = data[at + 3] as u32;
    b0 * 0x100_0000 + b1 * 0x1_0000 + b2 * 0x100 + b3
}

/// The little-endian number held by the two bytes at offset `at`.
pub open spec fn le16(data: Seq<u8>, at: int) -> int
    recommends
        0 <= at,
        at + 2 <= data.len(),
{
    data[at] + data[at + 1] * 0x100
}

/// Reads the little-endian number held by the two bytes at offset `at`.
pub fn read_le16(data: &[u8], at: usize) -> (value: u16)
    requires
        at + 2 <= data@.len(),
    ensures
        value == le16(data@, at as int),
{
    let b0 = data[at] as u16;
    let b1 = data[at + 1] as u16;
    b0 + b1 * 0x100
}

/// `s` without the quotes it begins with.
pub open spec fn strip_leading(s: Seq<u8>) -> Seq<u8>
    decreases s.len(),
{
    if s.len() > 0 && s[0] == QUOTE {
        strip_leading(s.drop_first())
    } else {
        s
    }
}

/// `s` without the quotes it ends with.
pub open spec fn strip_trailing(s: Seq<u8>) -> Seq<u8>
    decreases s.len(),
{
    if s.len() > 0 && s.last() == QUOTE {
        strip_trailing(s.drop_last())
    } else {
        s
    }
}

/// `s` without the quotes around it, however many there are.
pub open spec fn strip_quotes(s: Seq<u8>) -> Seq<u8> {
    strip_trailing(strip_leading(s))
}

/// In well-formed UTF-8 a character starts behind every ASCII byte.
pub proof fn lemma_boundary_behind_ascii_byte(bytes: Seq<u8>, at: int)
    requires
        valid_utf8(bytes),
        0 <= at < bytes.len(),
        bytes[at] <= 0x7f,
    ensures
        is_char_boundary(bytes, at),
        is_char_boundary(bytes, at + 1),
    decreases bytes.len(),
{
    is_char_boundary_iff_not_is_continuation_byte(bytes, at);
    let rest = pop_first_scalar(bytes);
    let first = length_of_first_scalar(bytes);
    assert(valid_utf8(rest));
    assert(1 <= first <= bytes.len());
    assert(rest.len() == bytes.len() - first);
    if at == 0 {
        assert(first == 1);
        assert(is_char_boundary(rest, 0));
        assert(is_char_boundary(bytes, 1) == is_char_boundary(rest, 1 - first));
    } else {
        assert(is_char_boundary(bytes, at) == is_char_boundary(rest, at - first));
        if at - first != 0 {
            assert(0 < at - first <= rest.len());
        }
        assert(rest[at - first] == bytes[at]);
        lemma_boundary_behind_ascii_byte(rest, at - first);
        assert(is_char_boundary(bytes, at + 1) == is_char_boundary(rest, at + 1 - first));
    }
}

/// The part of a text between two offsets at which characters start.
pub fn slice_text<'a>(text: &'a str, from: usize, to: usize) -> (part: &'a str)
    requires
        from <= to <= text.spec_bytes().len(),
        is_char_boundary(text.spec_bytes(), from as int),
        is_char_boundary(text.spec_bytes(), to as int),
    ensures
        part.spec_bytes() == text.spec_bytes().subrange(from as int, to as int),
{
    let ghost bytes = text.spec_bytes();
    proof {
        encode_utf8_valid_utf8(text@);
        valid_utf8_split(bytes, from as int);
    }
    let (_, rest) = text.split_at(from);
    proof {
        let rest_bytes = bytes.subrange(from as int, bytes.len() as int);
        assert(rest.spec_bytes() == rest_bytes);
        if to < bytes.len() {
            is_char_boundary_iff_not_is_continuation_byte(bytes, to as int);
            assert(rest_bytes[to - from] == bytes[to as int]);
            is_char_boundary_iff_not_is_continuation_byte(rest_bytes, to - from);
        } else {
            is_char_boundary_start_end_of_seq(rest_bytes);
        }
    }
    let (part, _) = rest.split_at(to - from);
    proof {
        assert(bytes.subrange(from as int, bytes.len() as int).subrange(0, to - from)
            =~= bytes.subrange(from as int, to as int));
    }
    part
}

/// The text behind the byte at `at`, which must be an ASCII byte.
pub fn text_behind<'a>(text: &'a str, at: usize) -> (rest: &'a str)
    requires
        at < text.spec_bytes().len(),
        text.spec_bytes()[at as int] <= 0x7f,
    ensures
        rest.spec_bytes() == text.spec_bytes().subrange(at + 1, text.spec_bytes().len() as int),
{
    let len = text.as_bytes().len();
    proof {
        encode_utf8_valid_utf8(text@);
        lemma_boundary_behind_ascii_byte(text.spec_bytes(), at as int);
        is_char_boundary_start_end_of_seq(text.spec_bytes());
    }
    slice_text(text, at + 1, len)
}

/// The text without the quotes around it.
pub fn strip_quotes_of<'a>(text: &'a str) -> (inner: &'a str)
    ensures
        inner.spec_bytes() == strip_quotes(text.spec_bytes()),
{
    let bytes = text.as_bytes();
    let len = bytes.len();
    let mut from: usize = 0;
    assert(bytes@.subrange(0, len as int) =~= bytes@);
    while from < len && bytes[from] == QUOTE
        invariant
            from <= len,
            len == bytes@.len(),
            strip_leading(bytes@) == strip_leading(bytes@.subrange(from as int, len as int)),
            from > 0 ==> bytes@[from - 1] == QUOTE,
        decreases len - from,
    {
        proof {
            assert(bytes@.subrange(from as int, len as int).drop_first() =~= bytes@.subrange(
                from + 1,
                len as int,
            ));
        }
        from += 1;
    }
    let ghost rest = bytes@.subrange(from as int, len as int);
    let mut to: usize = len;
    while to > from && bytes[to - 1] == QUOTE
        invariant
            from <= to <= len,
            len == bytes@.len(),
            rest == bytes@.subrange(from as int, len as int),
            strip_trailing(rest) == strip_trailing(bytes@.subrange(from as int, to as int)),
            to < len ==> bytes@[to as int] == QUOTE,
        decreases to,
    {
        proof {
            assert(bytes@.subrange(from as int, to as int).drop_last() =~= bytes@.subrange(
                from as int,
                to - 1,
            ));
        }
        to -= 1;
    }
    proof {
        encode_utf8_valid_utf8(text@);
        is_char_boundary_start_end_of_seq(bytes@);
        if from > 0 {
            lemma_boundary_behind_ascii_byte(bytes@, from - 1);
        }
        if to < len {
            lemma_boundary_behind_ascii_byte(bytes@, to as int);
        }
    }
    slice_text(text, from, to)
}

/// What `str::to_lowercase` makes of a text.
pub uninterp spec fn lowercase_of(text: Seq<char>) -> Seq<char>;

/// The text in lower case.
///
/// Trusted: wraps `str::to_lowercase`, whose result depends on the text
/// alone.
#[verifier::external_body]
pub(crate) fn lowercase(text: &str) -> (lowered: String)
    ensures
        lowered@ == lowercase_of(text@),
{
    text.to_lowercase()
}

/// The four bytes of a slice as an array.
///
/// Trusted: wraps the conversion of `core` from `&[u8]` to `&[u8; 4]`, which
/// succeeds exactly on slices of four bytes and then refers to the same bytes.
#[verifier::external_body]
pub(crate) fn as_quad<'a>(bytes: &'a [u8]) -> (quad: Option<&'a [u8; 4]>)
    ensures
        quad.is_some() == (bytes@.len() == 4),
        quad matches Some(q) ==> q@ == bytes@,
{
    bytes.try_into().ok()
}

} // verus!
