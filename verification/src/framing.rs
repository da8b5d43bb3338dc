//! The container framing written out, and what the parser makes of a buffer
//! that was built by it.

use crate::file_entry::{block_end, Record};
use crate::parser::{
    content_tag, info_header, info_name, info_name_field, info_tag, lemma_scan_advances, parse,
    parse_from, record_at, scan_step, transfer_tag, Scan,
};
use crate::tags::{
    closes_tag, first_close, first_open, lemma_first_close_is, lemma_first_open,
    lemma_first_open_is, lemma_next_tag_bounds, next_tag, opens_tag, ANGLE_CLOSE, ANGLE_OPEN, QUOTE,
};
use crate::text::{be32, occurs_at, strip_leading, strip_trailing};
use vstd::prelude::*;
use vstd::utf8::valid_utf8;

verus! {

/// The largest length that the four bytes of a length field can hold.
pub const MAX_FIELD: u32 = 0xffff_ffff;

/// The four bytes that hold `n` as a big-endian number.
pub open spec fn be32_bytes(n: int) -> Seq<u8>
    recommends
        0 <= n <= MAX_FIELD,
{
    seq![
        (n / 0x100_0000) as u8,
        ((n / 0x1_0000) % 0x100) as u8,
        ((n / 0x100) % 0x100) as u8,
        (n % 0x100) as u8,
    ]
}

/// An info block: name length, header, name.
pub open spec fn info_block(name: Seq<u8>, header: Seq<u8>) -> Seq<u8> {
    be32_bytes(name.len() as int) + header + name
}

/// A content block that declares `declared` bytes of payload and holds
/// `payload`.
pub open spec fn content_block(meta: Seq<u8>, declared: int, payload: Seq<u8>) -> Seq<u8> {
    be32_bytes(declared) + meta + payload
}

/// A buffer that holds one entry, whose content block declares `declared`
/// bytes of payload and holds `payload`.
pub open spec fn container_declaring(
    name: Seq<u8>,
    header: Seq<u8>,
    meta: Seq<u8>,
    declared: int,
    payload: Seq<u8>,
) -> Seq<u8> {
    transfer_tag() + info_tag() + info_block(name, header) + content_tag() + content_block(
        meta,
        declared,
        payload,
    )
}

/// A container that holds one entry.
pub open spec fn container(name: Seq<u8>, header: Seq<u8>, meta: Seq<u8>, content: Seq<u8>) -> Seq<
    u8,
> {
    container_declaring(name, header, meta, content.len() as int, content)
}

/// The two bytes at `at` are `"<`.
pub open spec fn opening_in(block: Seq<u8>, at: int) -> bool {
    block[at] == QUOTE && block[at + 1] == ANGLE_OPEN
}

/// The two bytes at `at` are `>"`.
pub open spec fn closing_in(block: Seq<u8>, at: int) -> bool {
    block[at] == ANGLE_CLOSE && block[at + 1] == QUOTE
}

/// No tag opens inside `block`.
pub open spec fn free_of_openings(block: Seq<u8>) -> bool {
    forall|i: int| 0 <= i && i + 1 < block.len() ==> !#[trigger] opening_in(block, i)
}

/// `name` can stand in an info block and be read back as it is: it is UTF-8,
/// it has no quote at either end, which the parser would strip, and together
/// with its length and `header` it opens no tag, which the parser would take
/// for the end of the info block.
pub open spec fn plain_name(name: Seq<u8>, header: Seq<u8>) -> bool {
    &&& name.len() <= MAX_FIELD
    &&& valid_utf8(name)
    &&& name.len() > 0 ==> name[0] != QUOTE && name.last() != QUOTE
    &&& free_of_openings(info_block(name, header))
}

/// Reading the four bytes of a length field gives the length back.
pub proof fn lemma_be32_of_bytes(n: int, rest: Seq<u8>)
    requires
        0 <= n <= MAX_FIELD,
    ensures
        be32(be32_bytes(n) + rest, 0) == n,
{
    let b = be32_bytes(n) + rest;
    assert(b[0] == (n / 0x100_0000) as u8);
    assert(b[1] == ((n / 0x1_0000) % 0x100) as u8);
    assert(b[2] == ((n / 0x100) % 0x100) as u8);
    assert(b[3] == (n % 0x100) as u8);
}

/// A tag as the scan finds it: it opens with `"<`, ends with `>"`, and holds
/// no `>"` before its end.
pub open spec fn well_formed_tag(tag: Seq<u8>) -> bool {
    &&& tag.len() >= 4
    &&& tag[0] == QUOTE
    &&& tag[1] == ANGLE_OPEN
    &&& tag[tag.len() - 2] == ANGLE_CLOSE
    &&& tag[tag.len() - 1] == QUOTE
    &&& forall|j: int| 2 <= j < tag.len() - 2 ==> !#[trigger] closing_in(tag, j)
}

/// The three tags of the format are well formed, and this long.
pub proof fn lemma_format_tags_well_formed()
    ensures
        well_formed_tag(transfer_tag()),
        well_formed_tag(info_tag()),
        well_formed_tag(content_tag()),
        transfer_tag().len() == 16,
        info_tag().len() == 12,
        content_tag().len() == 15,
{
    reveal(transfer_tag);
    reveal(info_tag);
    reveal(content_tag);
}

/// A well-formed tag that stands at `at`, with no opening between `start` and
/// `at`, is the tag that the scan finds from `start`.
pub proof fn lemma_tag_found(buf: Seq<u8>, start: int, at: int, tag: Seq<u8>)
    requires
        0 <= start <= at,
        well_formed_tag(tag),
        occurs_at(buf, tag, at),
        forall|k: int| start <= k < at ==> !opens_tag(buf, k),
    ensures
        next_tag(buf, start) == Some((at, at + tag.len())),
{
    let end = at + tag.len();
    assert forall|j: int| 0 <= j < tag.len() implies buf[at + j] == tag[j] by {
        assert(buf.subrange(at, end)[j] == tag[j]);
    }
    assert(buf[at] == tag[0]);
    assert(buf[at + 1] == tag[1]);
    assert(opens_tag(buf, at));
    lemma_first_open_is(buf, start, at);
    assert forall|k: int| at + 2 <= k < end - 2 implies !closes_tag(buf, k) by {
        assert(buf[k] == tag[k - at]);
        assert(buf[k + 1] == tag[k - at + 1]);
        assert(!closing_in(tag, k - at));
    }
    assert(buf[end - 2] == tag[tag.len() - 2]);
    assert(buf[end - 1] == tag[tag.len() - 1]);
    assert(closes_tag(buf, end - 2));
    lemma_first_close_is(buf, at + 2, end - 2);
}

/// Where the parts of a built container stand in it.
pub proof fn lemma_layout(
    name: Seq<u8>,
    header: Seq<u8>,
    meta: Seq<u8>,
    declared: int,
    payload: Seq<u8>,
)
    requires
        header.len() == 4,
        meta.len() == 4,
    ensures
        ({
            let buf = container_declaring(name, header, meta, declared, payload);
            let n = name.len() as int;
            &&& buf.len() == 59 + n + payload.len()
            &&& occurs_at(buf, transfer_tag(), 0)
            &&& occurs_at(buf, info_tag(), 16)
            &&& buf.subrange(28, 36 + n) == info_block(name, header)
            &&& occurs_at(buf, content_tag(), 36 + n)
            &&& buf.subrange(51 + n, buf.len() as int) == content_block(meta, declared, payload)
        }),
{
    let buf = container_declaring(name, header, meta, declared, payload);
    let n = name.len() as int;
    lemma_format_tags_well_formed();
    assert(info_block(name, header).len() == 8 + n);
    assert(content_block(meta, declared, payload).len() == 8 + payload.len());
    assert(buf.subrange(0, 16) =~= transfer_tag());
    assert(buf.subrange(16, 28) =~= info_tag());
    assert(buf.subrange(28, 36 + n) =~= info_block(name, header));
    assert(buf.subrange(36 + n, 51 + n) =~= content_tag());
    assert(buf.subrange(51 + n, buf.len() as int) =~= content_block(meta, declared, payload));
}

/// An info block that was built from a plain name reads back as the header
/// and the name.
pub proof fn lemma_info_read(name: Seq<u8>, header: Seq<u8>)
    requires
        header.len() == 4,
        plain_name(name, header),
    ensures
        info_header(info_block(name, header)) == Some(header),
        info_name(info_block(name, header)) == Some(name),
{
    let info = info_block(name, header);
    let n = name.len() as int;
    assert(info.subrange(4, 8) =~= header);
    lemma_be32_of_bytes(n, header + name);
    assert(info =~= be32_bytes(n) + (header + name));
    assert(info.subrange(8, 8 + n) =~= name);
    assert(info_name_field(info) == Some(name));
    assert(strip_leading(name) == name);
    assert(strip_trailing(name) == name);
}

/// How much of `payload` a content block shows that declares `declared`
/// bytes.
pub open spec fn shown_len(declared: int, payload: Seq<u8>) -> int {
    if declared <= payload.len() {
        declared
    } else {
        payload.len() as int
    }
}

/// The content block of a buffer that ends with a built block reads back as
/// the declared length, the metadata and as much of the payload as was
/// declared, whatever the payload holds.
pub proof fn lemma_content_read(
    buf: Seq<u8>,
    offset: int,
    meta: Seq<u8>,
    declared: int,
    payload: Seq<u8>,
)
    requires
        0 <= offset <= buf.len(),
        meta.len() == 4,
        0 <= declared <= MAX_FIELD,
        buf.subrange(offset, buf.len() as int) == content_block(meta, declared, payload),
    ensures
        be32(buf, offset) == declared,
        block_end(buf, offset) == offset + 8 + shown_len(declared, payload),
        buf.subrange(offset + 4, offset + 8) == meta,
        buf.subrange(offset + 8, block_end(buf, offset)) == payload.subrange(
            0,
            shown_len(declared, payload),
        ),
        buf.subrange(offset, block_end(buf, offset)) == content_block(
            meta,
            declared,
            payload.subrange(0, shown_len(declared, payload)),
        ),
{
    let block = content_block(meta, declared, payload);
    let shown = shown_len(declared, payload);
    assert(block.len() == 8 + payload.len());
    assert(buf.len() == offset + 8 + payload.len());
    lemma_be32_of_bytes(declared, meta + payload);
    assert(block =~= be32_bytes(declared) + (meta + payload));
    assert forall|j: int| 0 <= j < block.len() implies buf[offset + j] == block[j] by {
        assert(buf.subrange(offset, buf.len() as int)[j] == block[j]);
    }
    assert(buf[offset] == block[0]);
    assert(buf[offset + 1] == block[1]);
    assert(buf[offset + 2] == block[2]);
    assert(buf[offset + 3] == block[3]);
    assert forall|j: int| 0 <= j < 4 implies buf.subrange(offset + 4, offset + 8)[j] == meta[j] by {
        assert(buf[offset + 4 + j] == block[4 + j]);
    }
    assert(buf.subrange(offset + 4, offset + 8) =~= meta);
    let end = offset + 8 + shown;
    assert forall|j: int| 0 <= j < shown implies buf.subrange(offset + 8, end)[j]
        == payload[j] by {
        assert(buf[offset + 8 + j] == block[8 + j]);
    }
    assert(buf.subrange(offset + 8, end) =~= payload.subrange(0, shown));
    let cut = content_block(meta, declared, payload.subrange(0, shown));
    assert forall|j: int| 0 <= j < 8 + shown implies buf.subrange(offset, end)[j] == cut[j] by {
        assert(buf[offset + j] == block[j]);
    }
    assert(buf.subrange(offset, end) =~= cut);
}

/// No tag opens in the info block of a built container, nor between it and
/// the content tag.
proof fn lemma_info_holds_no_opening(
    name: Seq<u8>,
    header: Seq<u8>,
    meta: Seq<u8>,
    declared: int,
    payload: Seq<u8>,
)
    requires
        header.len() == 4,
        meta.len() == 4,
        plain_name(name, header),
    ensures
        forall|k: int|
            28 <= k < 36 + name.len() ==> !opens_tag(
                container_declaring(name, header, meta, declared, payload),
                k,
            ),
{
    let buf = container_declaring(name, header, meta, declared, payload);
    let tag_at = 36 + name.len() as int;
    let info = info_block(name, header);
    lemma_layout(name, header, meta, declared, payload);
    lemma_format_tags_well_formed();
    assert forall|k: int| 28 <= k < tag_at implies !opens_tag(buf, k) by {
        assert(buf[k] == buf.subrange(28, tag_at)[k - 28]);
        if k + 1 < tag_at {
            assert(buf[k + 1] == buf.subrange(28, tag_at)[k - 28 + 1]);
            assert(!opening_in(info, k - 28));
        } else {
            assert(buf[k + 1] == buf.subrange(tag_at, tag_at + 15)[0]);
            assert(content_tag()[0] == QUOTE);
        }
    }
}

/// Three tags of the format in a row, as the scan finds them, make an entry.
proof fn lemma_scan_of_entry(buf: Seq<u8>, info_at: int, info_from: int, content_at: int, offset: int)
    requires
        next_tag(buf, 0) == Some((0int, info_at)),
        buf.subrange(0, info_at) == transfer_tag(),
        next_tag(buf, info_at) == Some((info_at, info_from)),
        buf.subrange(info_at, info_from) == info_tag(),
        next_tag(buf, info_from) == Some((content_at, offset)),
        buf.subrange(content_at, offset) == content_tag(),
    ensures
        scan_step(buf, 0) == Scan::Entry(
            record_at(buf, buf.subrange(info_from, content_at), offset),
            block_end(buf, offset),
        ),
{
}

/// The record that the first entry of [`container_declaring`] parses to:
/// it holds as much of the payload as was declared.
pub open spec fn built_record(
    name: Seq<u8>,
    header: Seq<u8>,
    meta: Seq<u8>,
    declared: int,
    payload: Seq<u8>,
) -> Record {
    let content = payload.subrange(0, shown_len(declared, payload));
    Record {
        name: Some(name),
        header: Some(header),
        meta: Some(meta),
        content,
        declared: declared as nat,
        raw: content_block(meta, declared, content),
        offset: 51 + name.len(),
    }
}

/// The record of a built container, read at the offsets where its blocks
/// stand.
proof fn lemma_record_read(
    name: Seq<u8>,
    header: Seq<u8>,
    meta: Seq<u8>,
    declared: int,
    payload: Seq<u8>,
)
    requires
        header.len() == 4,
        meta.len() == 4,
        0 <= declared <= MAX_FIELD,
        plain_name(name, header),
    ensures
        ({
            let buf = container_declaring(name, header, meta, declared, payload);
            let n = name.len() as int;
            &&& record_at(buf, buf.subrange(28, 36 + n), 51 + n) == built_record(
                name,
                header,
                meta,
                declared,
                payload,
            )
            &&& block_end(buf, 51 + n) == 59 + n + shown_len(declared, payload)
        }),
{
    let buf = container_declaring(name, header, meta, declared, payload);
    lemma_layout(name, header, meta, declared, payload);
    lemma_info_read(name, header);
    lemma_content_read(buf, 51 + name.len() as int, meta, declared, payload);
}

/// A built container parses to the record of what it was built from, and to
/// what the scan finds behind the declared payload.
pub proof fn lemma_parse_built(
    name: Seq<u8>,
    header: Seq<u8>,
    meta: Seq<u8>,
    declared: int,
    payload: Seq<u8>,
)
    requires
        header.len() == 4,
        meta.len() == 4,
        0 <= declared <= MAX_FIELD,
        plain_name(name, header),
    ensures
        parse(container_declaring(name, header, meta, declared, payload)) == seq![
            built_record(name, header, meta, declared, payload),
        ] + parse_from(
            container_declaring(name, header, meta, declared, payload),
            59 + name.len() + shown_len(declared, payload),
        ),
{
    let buf = container_declaring(name, header, meta, declared, payload);
    let n = name.len() as int;
    lemma_layout(name, header, meta, declared, payload);
    lemma_format_tags_well_formed();
    lemma_tag_found(buf, 0, 0, transfer_tag());
    lemma_tag_found(buf, 16, 16, info_tag());
    lemma_info_holds_no_opening(name, header, meta, declared, payload);
    lemma_tag_found(buf, 28, 36 + n, content_tag());
    lemma_scan_of_entry(buf, 16, 28, 36 + n, 51 + n);
    lemma_record_read(name, header, meta, declared, payload);
    lemma_scan_advances(buf, 0);
}

/// Round trip: a container built from a name, a header, metadata and a
/// payload parses to exactly one record, which holds these four as they
/// were given.
///
/// The name must be one that the framing can carry unchanged, see
/// [`plain_name`].  The payload may be any bytes.
pub proof fn lemma_round_trip(name: Seq<u8>, header: Seq<u8>, meta: Seq<u8>, content: Seq<u8>)
    requires
        header.len() == 4,
        meta.len() == 4,
        content.len() <= MAX_FIELD,
        plain_name(name, header),
    ensures
        parse(container(name, header, meta, content)) == seq![
            Record {
                name: Some(name),
                header: Some(header),
                meta: Some(meta),
                content,
                declared: content.len(),
                raw: content_block(meta, content.len() as int, content),
                offset: 51 + name.len(),
            },
        ],
{
    let buf = container(name, header, meta, content);
    lemma_parse_built(name, header, meta, content.len() as int, content);
    lemma_layout(name, header, meta, content.len() as int, content);
    assert(content.subrange(0, content.len() as int) =~= content);
    assert(parse_from(buf, buf.len() as int) =~= Seq::<Record>::empty());
    assert(parse(buf) =~= seq![
        built_record(name, header, meta, content.len() as int, content),
    ]);
}

/// A payload is read by its declared length and never scanned: one that
/// holds a tag of the format, or any other bytes between `before` and
/// `behind`, comes back whole as the content of the one record.
pub proof fn lemma_payload_is_not_scanned(
    name: Seq<u8>,
    header: Seq<u8>,
    meta: Seq<u8>,
    before: Seq<u8>,
    tag: Seq<u8>,
    behind: Seq<u8>,
)
    requires
        header.len() == 4,
        meta.len() == 4,
        before.len() + tag.len() + behind.len() <= MAX_FIELD,
        plain_name(name, header),
    ensures
        ({
            let content = before + tag + behind;
            let records = parse(container(name, header, meta, content));
            records.len() == 1 && records[0].content == content
        }),
{
    lemma_round_trip(name, header, meta, before + tag + behind);
}

/// A content block that declares more payload than the buffer holds yields
/// one record all the same: its content is what is left of the buffer, and
/// the declared length is kept beside it.
pub proof fn lemma_overrun_is_truncated(
    name: Seq<u8>,
    header: Seq<u8>,
    meta: Seq<u8>,
    declared: int,
    available: Seq<u8>,
)
    requires
        header.len() == 4,
        meta.len() == 4,
        available.len() < declared <= MAX_FIELD,
        plain_name(name, header),
    ensures
        ({
            let records = parse(container_declaring(name, header, meta, declared, available));
            &&& records.len() == 1
            &&& records[0].content == available
            &&& records[0].declared == declared
        }),
{
    let buf = container_declaring(name, header, meta, declared, available);
    lemma_parse_built(name, header, meta, declared, available);
    lemma_layout(name, header, meta, declared, available);
    assert(available.subrange(0, available.len() as int) =~= available);
    assert(parse_from(buf, buf.len() as int) =~= Seq::<Record>::empty());
    assert(parse(buf) =~= seq![built_record(name, header, meta, declared, available)]);
}

/// A record as it is found where `shift` bytes stand before the buffer.
pub open spec fn shift_record(rec: Record, shift: nat) -> Record {
    Record {
        name: rec.name,
        header: rec.header,
        meta: rec.meta,
        content: rec.content,
        declared: rec.declared,
        raw: rec.raw,
        offset: rec.offset + shift,
    }
}

/// Records as they are found where `shift` bytes stand before the buffer.
pub open spec fn shifted(records: Seq<Record>, shift: nat) -> Seq<Record> {
    Seq::new(records.len(), |i: int| shift_record(records[i], shift))
}

/// An offset as it is where `shift` bytes stand before the buffer.
pub open spec fn shift_offset(at: Option<int>, shift: int) -> Option<int> {
    match at {
        Some(pos) => Some(pos + shift),
        None => None,
    }
}

/// Where a tag may open behind a prefix is where it may open without it.
proof fn lemma_first_open_behind(a: Seq<u8>, b: Seq<u8>, from: int)
    requires
        0 <= from,
    ensures
        first_open(a + b, a.len() + from) == shift_offset(first_open(b, from), a.len() as int),
    decreases b.len() - from,
{
    let buf = a + b;
    if from + 3 < b.len() {
        assert(buf[a.len() + from] == b[from]);
        assert(buf[a.len() + from + 1] == b[from + 1]);
        if !opens_tag(b, from) {
            lemma_first_open_behind(a, b, from + 1);
        }
    }
}

/// Where a tag may end behind a prefix is where it may end without it.
proof fn lemma_first_close_behind(a: Seq<u8>, b: Seq<u8>, from: int)
    requires
        0 <= from,
    ensures
        first_close(a + b, a.len() + from) == shift_offset(first_close(b, from), a.len() as int),
    decreases b.len() - from,
{
    let buf = a + b;
    if from + 1 < b.len() {
        assert(buf[a.len() + from] == b[from]);
        assert(buf[a.len() + from + 1] == b[from + 1]);
        if !closes_tag(b, from) {
            lemma_first_close_behind(a, b, from + 1);
        }
    }
}

/// The tags behind a prefix are the tags of the rest.
proof fn lemma_next_tag_behind(a: Seq<u8>, b: Seq<u8>, from: int)
    requires
        0 <= from,
    ensures
        next_tag(a + b, a.len() + from) == match next_tag(b, from) {
            Some((pos, end)) => Some((pos + a.len(), end + a.len())),
            None => None,
        },
{
    lemma_first_open_behind(a, b, from);
    lemma_first_open(b, from);
    if let Some(pos) = first_open(b, from) {
        lemma_first_close_behind(a, b, pos + 2);
    }
}

/// A round of the scan behind a prefix finds what it finds in the rest.
proof fn lemma_scan_behind(a: Seq<u8>, b: Seq<u8>, from: int)
    requires
        0 <= from,
    ensures
        scan_step(a + b, a.len() + from) == match scan_step(b, from) {
            Scan::Done => Scan::Done,
            Scan::Skip(next) => Scan::Skip(next + a.len()),
            Scan::Entry(rec, next) => Scan::Entry(shift_record(rec, a.len()), next + a.len()),
        },
{
    let buf = a + b;
    let n = a.len() as int;
    assert forall|s: int, e: int| 0 <= s <= e <= b.len() implies #[trigger] buf.subrange(
        n + s,
        n + e,
    ) == b.subrange(s, e) by {
        assert(buf.subrange(n + s, n + e) =~= b.subrange(s, e));
    }
    lemma_next_tag_behind(a, b, from);
    lemma_next_tag_bounds(b, from);
    if let Some((start, end)) = next_tag(b, from) {
        assert(buf.subrange(n + start, n + end) == b.subrange(start, end));
        lemma_next_tag_behind(a, b, end);
        lemma_next_tag_bounds(b, end);
        if let Some((info_at, info_from)) = next_tag(b, end) {
            assert(buf.subrange(n + info_at, n + info_from) == b.subrange(info_at, info_from));
            lemma_next_tag_behind(a, b, info_from);
            lemma_next_tag_bounds(b, info_from);
            if let Some((content_at, offset)) = next_tag(b, info_from) {
                assert(buf.subrange(n + content_at, n + offset) == b.subrange(content_at, offset));
                assert(buf.subrange(n + info_from, n + content_at) == b.subrange(
                    info_from,
                    content_at,
                ));
                if offset + 8 <= b.len() {
                    assert(buf[n + offset] == b[offset]);
                    assert(buf[n + offset + 1] == b[offset + 1]);
                    assert(buf[n + offset + 2] == b[offset + 2]);
                    assert(buf[n + offset + 3] == b[offset + 3]);
                    assert(be32(buf, n + offset) == be32(b, offset));
                    assert(buf.subrange(n + offset + 4, n + offset + 8) == b.subrange(
                        offset + 4,
                        offset + 8,
                    ));
                }
                let end_b = block_end(b, offset);
                assert(block_end(buf, n + offset) == n + end_b);
                assert(buf.subrange(n + offset, n + end_b) == b.subrange(offset, end_b));
                if offset + 8 <= b.len() {
                    assert(buf.subrange(n + offset + 8, n + end_b) == b.subrange(offset + 8, end_b));
                }
            }
        }
    }
}

/// What the scan finds behind a prefix is what it finds in the rest alone,
/// at offsets that count the prefix in.
pub proof fn lemma_parse_behind(a: Seq<u8>, b: Seq<u8>, from: int)
    requires
        0 <= from,
    ensures
        parse_from(a + b, a.len() + from) == shifted(parse_from(b, from), a.len()),
    decreases b.len() - from,
{
    let buf = a + b;
    let n = a.len();
    if from < b.len() {
        lemma_scan_behind(a, b, from);
        lemma_scan_advances(b, from);
        match scan_step(b, from) {
            Scan::Done => {},
            Scan::Skip(next) => {
                lemma_parse_behind(a, b, next);
            },
            Scan::Entry(rec, next) => {
                lemma_parse_behind(a, b, next);
                assert(shifted(seq![rec] + parse_from(b, next), n) =~= seq![shift_record(rec, n)]
                    + shifted(parse_from(b, next), n));
            },
        }
    }
    assert(parse_from(buf, n + from) =~= shifted(parse_from(b, from), n));
}

/// Containers in a row: a buffer that starts with a built container parses
/// to the record of that container and then to the records of what follows,
/// in the order in which they stand.
pub proof fn lemma_entry_then_rest(
    name: Seq<u8>,
    header: Seq<u8>,
    meta: Seq<u8>,
    content: Seq<u8>,
    rest: Seq<u8>,
)
    requires
        header.len() == 4,
        meta.len() == 4,
        content.len() <= MAX_FIELD,
        plain_name(name, header),
    ensures
        parse(container(name, header, meta, content) + rest) == seq![
            Record {
                name: Some(name),
                header: Some(header),
                meta: Some(meta),
                content,
                declared: content.len(),
                raw: content_block(meta, content.len() as int, content),
                offset: 51 + name.len(),
            },
        ] + shifted(parse(rest), container(name, header, meta, content).len()),
{
    let first = container(name, header, meta, content);
    let declared = content.len() as int;
    let buf = container_declaring(name, header, meta, declared, content + rest);
    assert(buf =~= first + rest);
    lemma_parse_built(name, header, meta, declared, content + rest);
    lemma_layout(name, header, meta, declared, content);
    assert((content + rest).subrange(0, declared) =~= content);
    lemma_parse_behind(first, rest, 0);
}

} // verus!
