//! The summary of a container: its entries grouped by header and content
//! metadata, and in each group the number of entries by file extension.

use crate::file_entry::{name_view, quad_view, records_of, FileEntry, Record};
use crate::text::{
    find_last, last_index, lemma_last_index, lowercase, lowercase_of, text_behind,
};
use vstd::prelude::*;
use vstd::string::StringSliceAdditionalSpecFns;
use vstd::utf8::{decode_utf8, encode_utf8_decode_utf8};

verus! {

/// How often an extension occurs in a group.
#[derive(Debug)]
pub struct ExtCount {
    /// The extension, in lower case.
    pub ext: String,
    pub count: usize,
}

/// The entries that share a header and content metadata.
#[derive(Debug)]
pub struct MetaGroup {
    pub header: Option<[u8; 4]>,
    pub meta: Option<[u8; 4]>,
    /// The extensions of the entries, in the order of their first occurrence.
    pub extensions: Vec<ExtCount>,
}

/// The mathematical value of an [`ExtCount`].
pub struct Tally {
    pub ext: Seq<char>,
    pub count: nat,
}

/// The mathematical value of a [`MetaGroup`].
pub struct GroupModel {
    pub header: Option<Seq<u8>>,
    pub meta: Option<Seq<u8>>,
    pub tallies: Seq<Tally>,
}

impl View for ExtCount {
    type V = Tally;

    open spec fn view(&self) -> Tally {
        Tally { ext: self.ext@, count: self.count as nat }
    }
}

/// The bytes of an optional metadata field that is held by value.
pub open spec fn field_view(field: Option<[u8; 4]>) -> Option<Seq<u8>> {
    match field {
        Some(q) => Some(q@),
        None => None,
    }
}

/// The values of a sequence of extension counts.
pub open spec fn tallies_of(counts: Seq<ExtCount>) -> Seq<Tally> {
    Seq::new(counts.len(), |i: int| counts[i]@)
}

impl View for MetaGroup {
    type V = GroupModel;

    open spec fn view(&self) -> GroupModel {
        GroupModel {
            header: field_view(self.header),
            meta: field_view(self.meta),
            tallies: tallies_of(self.extensions@),
        }
    }
}

/// The values of a sequence of groups.
pub open spec fn groups_of(groups: Seq<MetaGroup>) -> Seq<GroupModel> {
    Seq::new(groups.len(), |i: int| groups[i]@)
}

pub const DOT: u8 = 0x2e;

/// What stands behind the last dot of a name: the whole name where it has no
/// dot.
pub open spec fn extension_bytes(name: Seq<u8>) -> Seq<u8> {
    name.subrange(last_index(name, DOT) + 1, name.len() as int)
}

/// The label under which an entry is counted: the extension of its name in
/// lower case, or `<none>` where it has no name.
pub open spec fn extension_label(name: Option<Seq<u8>>) -> Seq<char> {
    match name {
        Some(n) => lowercase_of(decode_utf8(extension_bytes(n))),
        None => lowercase_of("<none>"@),
    }
}

/// The first offset at or behind `from` where `ext` is counted, or the length
/// of `tallies` where it is not.
pub open spec fn tally_index(tallies: Seq<Tally>, ext: Seq<char>, from: int) -> int
    decreases tallies.len() - from,
{
    if from >= tallies.len() {
        tallies.len() as int
    } else if tallies[from].ext == ext {
        from
    } else {
        tally_index(tallies, ext, from + 1)
    }
}

/// The tallies with one more occurrence of `ext`.
pub open spec fn count_ext(tallies: Seq<Tally>, ext: Seq<char>) -> Seq<Tally> {
    let at = tally_index(tallies, ext, 0);
    if at < tallies.len() {
        tallies.update(at, Tally { ext, count: tallies[at].count + 1 })
    } else {
        tallies.push(Tally { ext, count: 1 })
    }
}

/// The first offset at or behind `from` of the group with this header and
/// metadata, or the length of `groups` where there is none.
pub open spec fn group_index(
    groups: Seq<GroupModel>,
    header: Option<Seq<u8>>,
    meta: Option<Seq<u8>>,
    from: int,
) -> int
    decreases groups.len() - from,
{
    if from >= groups.len() {
        groups.len() as int
    } else if groups[from].header == header && groups[from].meta == meta {
        from
    } else {
        group_index(groups, header, meta, from + 1)
    }
}

/// The groups with one more entry.
pub open spec fn add_entry(
    groups: Seq<GroupModel>,
    header: Option<Seq<u8>>,
    meta: Option<Seq<u8>>,
    ext: Seq<char>,
) -> Seq<GroupModel> {
    let at = group_index(groups, header, meta, 0);
    if at < groups.len() {
        groups.update(
            at,
            GroupModel { header, meta, tallies: count_ext(groups[at].tallies, ext) },
        )
    } else {
        groups.push(GroupModel { header, meta, tallies: seq![Tally { ext, count: 1 }] })
    }
}

/// The summary of the first `upto` records: one group for each pair of header
/// and metadata, in the order of their first occurrence, and in each group
/// the number of entries by extension.
pub open spec fn summary_upto(records: Seq<Record>, upto: int) -> Seq<GroupModel>
    recommends
        upto <= records.len(),
    decreases upto,
{
    if upto <= 0 {
        Seq::empty()
    } else {
        add_entry(
            summary_upto(records, upto - 1),
            records[upto - 1].header,
            records[upto - 1].meta,
            extension_label(records[upto - 1].name),
        )
    }
}

/// The summary of all records.
pub open spec fn summary_of(records: Seq<Record>) -> Seq<GroupModel> {
    summary_upto(records, records.len() as int)
}

/// What `tally_index` finds is the first tally of `ext` at or behind `from`.
pub proof fn lemma_tally_index(tallies: Seq<Tally>, ext: Seq<char>, from: int)
    requires
        0 <= from <= tallies.len(),
    ensures
        from <= tally_index(tallies, ext, from) <= tallies.len(),
        tally_index(tallies, ext, from) < tallies.len() ==> tallies[tally_index(
            tallies,
            ext,
            from,
        )].ext == ext,
        forall|k: int| from <= k < tally_index(tallies, ext, from) ==> tallies[k].ext != ext,
    decreases tallies.len() - from,
{
    if from < tallies.len() && tallies[from].ext != ext {
        lemma_tally_index(tallies, ext, from + 1);
    }
}

/// What `group_index` finds is the first group with this header and metadata
/// at or behind `from`.
pub proof fn lemma_group_index(
    groups: Seq<GroupModel>,
    header: Option<Seq<u8>>,
    meta: Option<Seq<u8>>,
    from: int,
)
    requires
        0 <= from <= groups.len(),
    ensures
        from <= group_index(groups, header, meta, from) <= groups.len(),
        group_index(groups, header, meta, from) < groups.len() ==> {
            let at = group_index(groups, header, meta, from);
            groups[at].header == header && groups[at].meta == meta
        },
        forall|k: int|
            from <= k < group_index(groups, header, meta, from) ==> !(groups[k].header == header
                && groups[k].meta == meta),
    decreases groups.len() - from,
{
    if from < groups.len() && !(groups[from].header == header && groups[from].meta == meta) {
        lemma_group_index(groups, header, meta, from + 1);
    }
}

/// No extension of any group is counted more than `bound` times.
pub open spec fn counts_within(groups: Seq<GroupModel>, bound: int) -> bool {
    forall|g: int, t: int|
        0 <= g < groups.len() && 0 <= t < groups[g].tallies.len() ==> (
        #[trigger] groups[g].tallies[t]).count <= bound
}

/// A summary counts no extension more often than there are records.
pub proof fn lemma_counts_within(records: Seq<Record>, upto: int)
    requires
        0 <= upto <= records.len(),
    ensures
        counts_within(summary_upto(records, upto), upto),
    decreases upto,
{
    if upto > 0 {
        lemma_counts_within(records, upto - 1);
        let before = summary_upto(records, upto - 1);
        let after = summary_upto(records, upto);
        let header = records[upto - 1].header;
        let meta = records[upto - 1].meta;
        let ext = extension_label(records[upto - 1].name);
        lemma_group_index(before, header, meta, 0);
        let at = group_index(before, header, meta, 0);
        if at < before.len() {
            lemma_tally_index(before[at].tallies, ext, 0);
        }
        assert forall|g: int, t: int|
            0 <= g < after.len() && 0 <= t < after[g].tallies.len() implies (
        #[trigger] after[g].tallies[t]).count <= upto by {
            if g < before.len() && g != at {
                assert(after[g] == before[g]);
                assert(before[g].tallies[t].count <= upto - 1);
            } else if g < before.len() {
                let old_tallies = before[g].tallies;
                let slot = tally_index(old_tallies, ext, 0);
                if t < old_tallies.len() {
                    assert(old_tallies[t].count <= upto - 1);
                }
            }
        }
    }
}

/// The number of entries that a sequence of tallies counts.
pub open spec fn tally_total(tallies: Seq<Tally>) -> nat
    decreases tallies.len(),
{
    if tallies.len() == 0 {
        0
    } else {
        tally_total(tallies.drop_last()) + tallies.last().count
    }
}

/// The number of entries that a summary counts.
pub open spec fn summary_total(groups: Seq<GroupModel>) -> nat
    decreases groups.len(),
{
    if groups.len() == 0 {
        0
    } else {
        summary_total(groups.drop_last()) + tally_total(groups.last().tallies)
    }
}

/// No two groups have the same header and metadata, and no group counts an
/// extension twice.
pub open spec fn well_grouped(groups: Seq<GroupModel>) -> bool {
    &&& forall|i: int, j: int|
        0 <= i < j < groups.len() ==> !((#[trigger] groups[i]).header == (#[trigger] groups[j]).header
            && groups[i].meta == groups[j].meta)
    &&& forall|g: int, i: int, j: int|
        0 <= g < groups.len() && 0 <= i < j < groups[g].tallies.len() ==> (
        #[trigger] groups[g].tallies[i]).ext != (#[trigger] groups[g].tallies[j]).ext
}

/// Replacing a tally changes the total by the difference of the counts.
proof fn lemma_tally_total_update(tallies: Seq<Tally>, at: int, tally: Tally)
    requires
        0 <= at < tallies.len(),
    ensures
        tally_total(tallies.update(at, tally)) + tallies[at].count == tally_total(tallies)
            + tally.count,
    decreases tallies.len(),
{
    let after = tallies.update(at, tally);
    if at == tallies.len() - 1 {
        assert(after.drop_last() =~= tallies.drop_last());
    } else {
        assert(after.drop_last() =~= tallies.drop_last().update(at, tally));
        lemma_tally_total_update(tallies.drop_last(), at, tally);
    }
}

/// Replacing the tallies of a group changes the total by the difference of
/// what the tallies count.
proof fn lemma_summary_total_update(groups: Seq<GroupModel>, at: int, group: GroupModel)
    requires
        0 <= at < groups.len(),
    ensures
        summary_total(groups.update(at, group)) + tally_total(groups[at].tallies) == summary_total(
            groups,
        ) + tally_total(group.tallies),
    decreases groups.len(),
{
    let after = groups.update(at, group);
    if at == groups.len() - 1 {
        assert(after.drop_last() =~= groups.drop_last());
    } else {
        assert(after.drop_last() =~= groups.drop_last().update(at, group));
        lemma_summary_total_update(groups.drop_last(), at, group);
    }
}

/// Counting an extension adds one to the total and keeps the extensions
/// apart.
proof fn lemma_count_ext(tallies: Seq<Tally>, ext: Seq<char>)
    requires
        forall|i: int, j: int|
            0 <= i < j < tallies.len() ==> (#[trigger] tallies[i]).ext != (#[trigger] tallies[j]).ext,
    ensures
        tally_total(count_ext(tallies, ext)) == tally_total(tallies) + 1,
        forall|i: int, j: int|
            0 <= i < j < count_ext(tallies, ext).len() ==> (#[trigger] count_ext(
                tallies,
                ext,
            )[i]).ext != (#[trigger] count_ext(tallies, ext)[j]).ext,
{
    lemma_tally_index(tallies, ext, 0);
    let at = tally_index(tallies, ext, 0);
    if at < tallies.len() {
        lemma_tally_total_update(tallies, at, Tally { ext, count: tallies[at].count + 1 });
    } else {
        let tally = Tally { ext, count: 1 };
        assert(tallies.push(tally).drop_last() =~= tallies);
    }
}

/// A summary counts every record once, in one group for each header and
/// metadata, and once for each extension in a group.
pub proof fn lemma_summary_counts_all(records: Seq<Record>, upto: int)
    requires
        0 <= upto <= records.len(),
    ensures
        summary_total(summary_upto(records, upto)) == upto,
        well_grouped(summary_upto(records, upto)),
    decreases upto,
{
    if upto > 0 {
        lemma_summary_counts_all(records, upto - 1);
        let before = summary_upto(records, upto - 1);
        let after = summary_upto(records, upto);
        let header = records[upto - 1].header;
        let meta = records[upto - 1].meta;
        let ext = extension_label(records[upto - 1].name);
        lemma_group_index(before, header, meta, 0);
        let at = group_index(before, header, meta, 0);
        if at < before.len() {
            let tallies = before[at].tallies;
            assert forall|i: int, j: int| 0 <= i < j < tallies.len() implies (
            #[trigger] tallies[i]).ext != (#[trigger] tallies[j]).ext by {
                assert(before[at].tallies[i].ext != before[at].tallies[j].ext);
            }
            lemma_count_ext(tallies, ext);
            let group = GroupModel { header, meta, tallies: count_ext(tallies, ext) };
            lemma_summary_total_update(before, at, group);
            assert forall|g: int, i: int, j: int|
                0 <= g < after.len() && 0 <= i < j < after[g].tallies.len() implies (
            #[trigger] after[g].tallies[i]).ext != (#[trigger] after[g].tallies[j]).ext by {
                if g != at {
                    assert(before[g].tallies[i].ext != before[g].tallies[j].ext);
                }
            }
            assert forall|i: int, j: int| 0 <= i < j < after.len() implies !((
            #[trigger] after[i]).header == (#[trigger] after[j]).header && after[i].meta
                == after[j].meta) by {
                assert(!(before[i].header == before[j].header && before[i].meta
                    == before[j].meta));
            }
        } else {
            let tally = Tally { ext, count: 1 };
            let group = GroupModel { header, meta, tallies: seq![tally] };
            assert(before.push(group).drop_last() =~= before);
            assert(seq![tally].drop_last() =~= Seq::<Tally>::empty());
            assert(tally_total(seq![tally]) == tally_total(seq![tally].drop_last()) + 1);
            assert forall|g: int, i: int, j: int|
                0 <= g < after.len() && 0 <= i < j < after[g].tallies.len() implies (
            #[trigger] after[g].tallies[i]).ext != (#[trigger] after[g].tallies[j]).ext by {
                if g < before.len() {
                    assert(before[g].tallies[i].ext != before[g].tallies[j].ext);
                }
            }
            assert forall|i: int, j: int| 0 <= i < j < after.len() implies !((
            #[trigger] after[i]).header == (#[trigger] after[j]).header && after[i].meta
                == after[j].meta) by {
                if j < before.len() {
                    assert(!(before[i].header == before[j].header && before[i].meta
                        == before[j].meta));
                }
            }
        }
    }
}

/// The extension of a file name: what stands behind its last dot.
pub fn extension<'a>(name: &'a str) -> (ext: &'a str)
    ensures
        ext.spec_bytes() == extension_bytes(name.spec_bytes()),
{
    let bytes = name.as_bytes();
    match find_last(bytes, DOT) {
        Some(at) => {
            proof {
                lemma_last_index(bytes@, DOT);
            }
            text_behind(name, at)
        },
        None => {
            proof {
                assert(bytes@.subrange(0, bytes@.len() as int) =~= bytes@);
            }
            name
        },
    }
}

/// Whether two optional metadata fields hold the same bytes.
fn same_field(a: &Option<[u8; 4]>, b: &Option<[u8; 4]>) -> (same: bool)
    ensures
        same == (field_view(*a) == field_view(*b)),
{
    match (a, b) {
        (Some(x), Some(y)) => {
            let same = x[0] == y[0] && x[1] == y[1] && x[2] == y[2] && x[3] == y[3];
            proof {
                if same {
                    assert(x@ =~= y@);
                }
            }
            same
        },
        (None, None) => true,
        _ => false,
    }
}

/// Counts one more occurrence of `ext`.
fn count_extension(counts: &mut Vec<ExtCount>, ext: String)
    requires
        forall|t: int| 0 <= t < old(counts)@.len() ==> (#[trigger] old(counts)@[t]).count < usize::MAX,
    ensures
        tallies_of(final(counts)@) == count_ext(tallies_of(old(counts)@), ext@),
{
    let mut at: usize = 0;
    while at < counts.len()
        invariant
            at <= counts@.len(),
            counts@ == old(counts)@,
            forall|t: int| 0 <= t < counts@.len() ==> (#[trigger] counts@[t]).count < usize::MAX,
            tally_index(tallies_of(counts@), ext@, 0) == tally_index(
                tallies_of(counts@),
                ext@,
                at as int,
            ),
        decreases counts@.len() - at,
    {
        if counts[at].ext == ext {
            let count = counts[at].count + 1;
            counts[at] = ExtCount { ext, count };
            proof {
                assert(tallies_of(counts@) =~= count_ext(tallies_of(old(counts)@), ext@));
            }
            return ;
        }
        at += 1;
    }
    let ghost label = ext@;
    counts.push(ExtCount { ext, count: 1 });
    proof {
        assert(tallies_of(counts@) =~= count_ext(tallies_of(old(counts)@), label));
    }
}

/// Counts one more entry with this header, metadata and extension.
fn add_to_groups(
    groups: &mut Vec<MetaGroup>,
    header: Option<[u8; 4]>,
    meta: Option<[u8; 4]>,
    ext: String,
)
    requires
        counts_within(groups_of(old(groups)@), usize::MAX - 1),
    ensures
        groups_of(final(groups)@) == add_entry(
            groups_of(old(groups)@),
            field_view(header),
            field_view(meta),
            ext@,
        ),
{
    let mut at: usize = 0;
    while at < groups.len()
        invariant
            at <= groups@.len(),
            groups@ == old(groups)@,
            counts_within(groups_of(groups@), usize::MAX - 1),
            group_index(groups_of(groups@), field_view(header), field_view(meta), 0)
                == group_index(groups_of(groups@), field_view(header), field_view(meta), at as int),
        decreases groups@.len() - at,
    {
        if same_field(&groups[at].header, &header) && same_field(&groups[at].meta, &meta) {
            let ghost label = ext@;
            proof {
                assert forall|t: int| 0 <= t < groups@[at as int].extensions@.len() implies (
                #[trigger] groups@[at as int].extensions@[t]).count < usize::MAX by {
                    assert(groups_of(groups@)[at as int].tallies[t].count <= usize::MAX - 1);
                }
            }
            let mut group = groups.remove(at);
            count_extension(&mut group.extensions, ext);
            groups.insert(at, group);
            proof {
                assert(groups_of(groups@) =~= add_entry(
                    groups_of(old(groups)@),
                    field_view(header),
                    field_view(meta),
                    label,
                ));
            }
            return ;
        }
        at += 1;
    }
    let ghost label = ext@;
    let mut extensions: Vec<ExtCount> = Vec::new();
    extensions.push(ExtCount { ext, count: 1 });
    proof {
        assert(tallies_of(extensions@) =~= seq![Tally { ext: label, count: 1 }]);
    }
    groups.push(MetaGroup { header, meta, extensions });
    proof {
        assert(groups_of(groups@) =~= add_entry(
            groups_of(old(groups)@),
            field_view(header),
            field_view(meta),
            label,
        ));
    }
}

/// A metadata field held by value.
pub fn copy_field(field: Option<&[u8; 4]>) -> (copy: Option<[u8; 4]>)
    ensures
        field_view(copy) == quad_view(field),
{
    match field {
        Some(q) => Some(*q),
        None => None,
    }
}

/// The label under which an entry with this name is counted.
fn label_of(filename: &Option<String>) -> (label: String)
    ensures
        label@ == extension_label(name_view(*filename)),
{
    match filename {
        Some(name) => {
            let ext = extension(name.as_str());
            proof {
                encode_utf8_decode_utf8(ext@);
            }
            lowercase(ext)
        },
        None => lowercase("<none>"),
    }
}

/// Groups the entries of a container by header and content metadata, and
/// counts in each group how often each file extension occurs.
pub fn summarize_metadata(entries: &[FileEntry]) -> (groups: Vec<MetaGroup>)
    ensures
        groups_of(groups@) == summary_of(records_of(entries@)),
{
    let ghost records = records_of(entries@);
    let mut groups: Vec<MetaGroup> = Vec::new();
    let mut k: usize = 0;
    proof {
        assert(groups_of(groups@) =~= summary_upto(records, 0));
    }
    while k < entries.len()
        invariant
            k <= entries@.len(),
            records == records_of(entries@),
            groups_of(groups@) == summary_upto(records, k as int),
        decreases entries@.len() - k,
    {
        let entry = &entries[k];
        let header = copy_field(entry.header_data);
        let meta = copy_field(entry.content_meta);
        let label = label_of(&entry.filename);
        proof {
            lemma_counts_within(records, k as int);
            assert(records[k as int] == entry@);
        }
        add_to_groups(&mut groups, header, meta, label);
        k += 1;
    }
    groups
}

} // verus!
