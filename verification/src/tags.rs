//! Quoted tags, the structural markers of the container format.
//!
//! A tag is a run of bytes that opens with `"<` and ends with the first `>"`
//! behind the opening.  Scanning for tags is the only way structure is found
//! in a container; payload bytes are never scanned.

use vstd::prelude::*;

verus! {

pub const QUOTE: u8 = 0x22;

pub const ANGLE_OPEN: u8 = 0x3c;

pub const ANGLE_CLOSE: u8 = 0x3e;

/// A tag may open at `at`: `"<` with at least two more bytes behind it.
pub open spec fn opens_tag(buf: Seq<u8>, at: int) -> bool {
    &&& 0 <= at
    &&& at + 3 < buf.len()
    &&& buf[at] == QUOTE
    &&& buf[at + 1] == ANGLE_OPEN
}

/// A tag may end with the two bytes at `at`: `>"`.
pub open spec fn closes_tag(buf: Seq<u8>, at: int) -> bool {
    &&& 0 <= at
    &&& at + 1 < buf.len()
    &&& buf[at] == ANGLE_CLOSE
    &&& buf[at + 1] == QUOTE
}

/// The first offset at or behind `from` where a tag may open.
pub open spec fn first_open(buf: Seq<u8>, from: int) -> Option<int>
    decreases buf.len() - from,
{
    if from + 3 >= buf.len() {
        None
    } else if opens_tag(buf, from) {
        Some(from)
    } else {
        first_open(buf, from + 1)
    }
}

/// The first offset at or behind `from` where a tag may end.
pub open spec fn first_close(buf: Seq<u8>, from: int) -> Option<int>
    decreases buf.len() - from,
{
    if from + 1 >= buf.len() {
        None
    } else if closes_tag(buf, from) {
        Some(from)
    } else {
        first_close(buf, from + 1)
    }
}

/// The first tag at or behind `start`, as the offsets of its first byte and
/// of the byte behind its last.
///
/// The tag opens at the first `"<` and ends with the first `>"` behind that
/// opening.  Where the first opening is never closed there is no tag at all,
/// because a later opening could only be closed further right.
pub open spec fn next_tag(buf: Seq<u8>, start: int) -> Option<(int, int)> {
    match first_open(buf, start) {
        Some(pos) => match first_close(buf, pos + 2) {
            Some(close) => Some((pos, close + 2)),
            None => None,
        },
        None => None,
    }
}

/// What `first_open` finds is an opening, and the first one.
pub proof fn lemma_first_open(buf: Seq<u8>, from: int)
    requires
        0 <= from,
    ensures
        match first_open(buf, from) {
            Some(pos) => from <= pos && opens_tag(buf, pos) && forall|k: int|
                from <= k < pos ==> !opens_tag(buf, k),
            None => forall|k: int| from <= k ==> !opens_tag(buf, k),
        },
    decreases buf.len() - from,
{
    if from + 3 < buf.len() && !opens_tag(buf, from) {
        lemma_first_open(buf, from + 1);
    }
}

/// What `first_close` finds is an ending, and the first one.
pub proof fn lemma_first_close(buf: Seq<u8>, from: int)
    requires
        0 <= from,
    ensures
        match first_close(buf, from) {
            Some(pos) => from <= pos && closes_tag(buf, pos) && forall|k: int|
                from <= k < pos ==> !closes_tag(buf, k),
            None => forall|k: int| from <= k ==> !closes_tag(buf, k),
        },
    decreases buf.len() - from,
{
    if from + 1 < buf.len() && !closes_tag(buf, from) {
        lemma_first_close(buf, from + 1);
    }
}

/// A tag that is found lies behind `start`, inside the buffer, and is at
/// least four bytes long.
pub proof fn lemma_next_tag_bounds(buf: Seq<u8>, start: int)
    requires
        0 <= start,
    ensures
        next_tag(buf, start) matches Some((pos, end)) ==> start <= pos && pos + 4 <= end
            <= buf.len(),
{
    lemma_first_open(buf, start);
    if let Some(pos) = first_open(buf, start) {
        lemma_first_close(buf, pos + 2);
    }
}

/// There is a tag at or behind `start` exactly where some opening there is
/// closed: the first opening is closed if any is.
pub proof fn lemma_next_tag_exists(buf: Seq<u8>, start: int)
    requires
        0 <= start,
    ensures
        next_tag(buf, start).is_some() <==> exists|open: int, close: int|
            start <= open && open + 2 <= close && opens_tag(buf, open) && closes_tag(buf, close),
{
    lemma_first_open(buf, start);
    match first_open(buf, start) {
        Some(pos) => {
            lemma_first_close(buf, pos + 2);
            if let Some(close) = first_close(buf, pos + 2) {
                assert(start <= pos && pos + 2 <= close && opens_tag(buf, pos) && closes_tag(
                    buf,
                    close,
                ));
            }
        },
        None => {},
    }
}

/// The opening at `pos` is the first one at or behind `from`.
pub proof fn lemma_first_open_is(buf: Seq<u8>, from: int, pos: int)
    requires
        0 <= from <= pos,
        opens_tag(buf, pos),
        forall|k: int| from <= k < pos ==> !opens_tag(buf, k),
    ensures
        first_open(buf, from) == Some(pos),
    decreases pos - from,
{
    if from < pos {
        lemma_first_open_is(buf, from + 1, pos);
    }
}

/// The ending at `pos` is the first one at or behind `from`.
pub proof fn lemma_first_close_is(buf: Seq<u8>, from: int, pos: int)
    requires
        0 <= from <= pos,
        closes_tag(buf, pos),
        forall|k: int| from <= k < pos ==> !closes_tag(buf, k),
    ensures
        first_close(buf, from) == Some(pos),
    decreases pos - from,
{
    if from < pos {
        lemma_first_close_is(buf, from + 1, pos);
    }
}

} // verus!
