//! Reduction of candidate records: records that differ only in the component
//! name are grouped, and each group is collapsed to as few rows as its names
//! and origin allow.

use vstd::prelude::*;
use crate::package::{package_views, Package, PackageView};
use crate::record::{
    insert_sorted, is_attributed, lemma_sorted_no_duplicates, lemma_sorted_unique,
    package_to_record, record_of, record_views, strictly_sorted, Record, RecordView,
};
use crate::text::{
    after_last, cut_suffix, same_text, split_after_last, strip_prefix, texts_of,
    try_strip_suffix, without_prefix,
};

verus! {

/// The characters of `rust-`.
pub open spec fn rust_prefix() -> Seq<char> {
    seq!['r', 'u', 's', 't', '-']
}

/// The characters of `-rs`.
pub open spec fn rs_suffix() -> Seq<char> {
    seq!['-', 'r', 's']
}

/// The one name that stands for a group, chosen by the last path segment of
/// the origin. The first of these that is a name of the group wins: the
/// segment itself; the segment without a leading `rust-`; the segment without
/// a trailing `-rs`. `None` when the origin has no `/` or none of them is a
/// name of the group.
pub open spec fn preferred_name(names: Set<Seq<char>>, origin: Seq<char>) -> Option<Seq<char>> {
    match after_last(origin, '/') {
        None => None,
        Some(segment) => {
            if names.contains(segment) {
                Some(segment)
            } else if without_prefix(segment, rust_prefix()) is Some && names.contains(
                without_prefix(segment, rust_prefix())->0,
            ) {
                without_prefix(segment, rust_prefix())
            } else if cut_suffix(segment, rs_suffix()) is Some && names.contains(
                cut_suffix(segment, rs_suffix())->0,
            ) {
                cut_suffix(segment, rs_suffix())
            } else {
                None
            }
        },
    }
}

/// The names under which a group is reported: a single name as it is; else the
/// preferred name alone, where there is one; else every name.
pub open spec fn reduced_names(names: Seq<Seq<char>>, origin: Seq<char>) -> Seq<Seq<char>> {
    if names.len() == 1 {
        names
    } else {
        match preferred_name(names.to_set(), origin) {
            Some(name) => seq![name],
            None => names,
        }
    }
}

/// The record `key` under the component name `name`.
pub open spec fn named(key: RecordView, name: Seq<char>) -> RecordView {
    RecordView { component: name, ..key }
}

/// The records of one group: `key` under each of `names`, in their order.
pub open spec fn rehydrated(key: RecordView, names: Seq<Seq<char>>) -> Seq<RecordView> {
    Seq::new(names.len(), |i: int| named(key, names[i]))
}

/// Whether `name` is one of `names`.
pub fn holds_name(names: &Vec<String>, name: &str) -> (r: bool)
    ensures
        r == texts_of(names@).contains(name@),
{
    let mut i: usize = 0;
    while i < names.len()
        invariant
            i <= names@.len(),
            forall|j: int| 0 <= j < i ==> texts_of(names@)[j] != name@,
        decreases names@.len() - i,
    {
        if same_text(names[i].as_str(), name) {
            assert(texts_of(names@)[i as int] == name@);
            return true;
        }
        i = i + 1;
    }
    false
}

/// The preferred name of a group, if it has one.
pub fn pick_name(names: &Vec<String>, origin: &str) -> (r: Option<String>)
    ensures
        match r {
            Some(name) => preferred_name(texts_of(names@).to_set(), origin@) == Some(name@),
            None => preferred_name(texts_of(names@).to_set(), origin@) is None,
        },
{
    proof {
        reveal_strlit("rust-");
        reveal_strlit("-rs");
        assert("rust-"@ =~= rust_prefix());
        assert("-rs"@ =~= rs_suffix());
    }
    match split_after_last(origin, '/') {
        None => None,
        Some(segment) => {
            if holds_name(names, segment) {
                return Some(segment.to_owned());
            }
            if let Some(name) = strip_prefix(segment, "rust-") {
                if holds_name(names, name) {
                    return Some(name.to_owned());
                }
            }
            if let Some(name) = try_strip_suffix(segment, "-rs") {
                if holds_name(names, name) {
                    return Some(name.to_owned());
                }
            }
            None
        },
    }
}

/// The records of one group. `record` gives origin, license and copyright;
/// `names` are the component names that share them.
pub fn reduce_names(record: Record, names: Vec<String>) -> (out: Vec<Record>)
    ensures
        record_views(out@) == rehydrated(
            record@,
            reduced_names(texts_of(names@), record@.origin),
        ),
{
    let mut out: Vec<Record> = Vec::new();
    if names.len() != 1 {
        if let Some(name) = pick_name(&names, record.origin.as_str()) {
            out.push(
                Record {
                    component: name,
                    origin: record.origin,
                    license: record.license,
                    copyright: record.copyright,
                },
            );
            return out;
        }
    }
    let mut i: usize = 0;
    while i < names.len()
        invariant
            i <= names@.len(),
            out@.len() == i,
            forall|j: int| 0 <= j < i ==> (#[trigger] out@[j])@ == named(record@, names@[j]@),
        decreases names@.len() - i,
    {
        out.push(
            Record {
                component: names[i].clone(),
                origin: record.origin.clone(),
                license: record.license.clone(),
                copyright: record.copyright.clone(),
            },
        );
        i = i + 1;
    }
    out
}

/// The component names that share one origin, license and copyright.
#[derive(Clone, Debug, PartialEq, Eq)]
pub struct RecordGroup {
    /// The shared fields, under an empty component name.
    pub key: Record,
    /// The component names, each once.
    pub names: Vec<String>,
}

/// The key of the group that a record belongs to: the record without its
/// component name.
pub open spec fn group_key(r: RecordView) -> RecordView {
    named(r, Seq::empty())
}

/// The record `r` is in the grouping: its key has a group, and the group
/// holds its component name.
pub open spec fn in_groups(groups: Seq<RecordGroup>, r: RecordView) -> bool {
    exists|i: int|
        0 <= i < groups.len() && (#[trigger] groups[i]).key@ == group_key(r) && texts_of(
            groups[i].names@,
        ).contains(r.component)
}

/// A grouping is well formed when no key carries a component name, no two
/// groups have the same key, and every group holds at least one name and none
/// twice.
pub open spec fn groups_wf(groups: Seq<RecordGroup>) -> bool {
    &&& forall|i: int| 0 <= i < groups.len() ==> (#[trigger] groups[i]).key@.component.len() == 0
    &&& forall|i: int, j: int|
        0 <= i < j < groups.len() ==> (#[trigger] groups[i]).key@ != (#[trigger] groups[j]).key@
    &&& forall|i: int| 0 <= i < groups.len() ==> (#[trigger] groups[i]).names@.len() > 0
    &&& forall|i: int|
        0 <= i < groups.len() ==> texts_of((#[trigger] groups[i]).names@).no_duplicates()
}

/// The index of the group that `record` belongs to.
fn find_group(groups: &Vec<RecordGroup>, record: &Record) -> (r: Option<usize>)
    requires
        groups_wf(groups@),
    ensures
        match r {
            Some(g) => g < groups@.len() && groups@[g as int].key@ == group_key(record@),
            None => forall|i: int|
                0 <= i < groups@.len() ==> (#[trigger] groups@[i]).key@ != group_key(record@),
        },
{
    let mut i: usize = 0;
    while i < groups.len()
        invariant
            i <= groups@.len(),
            groups_wf(groups@),
            forall|j: int| 0 <= j < i ==> (#[trigger] groups@[j]).key@ != group_key(record@),
        decreases groups@.len() - i,
    {
        let key = &groups[i].key;
        if same_text(key.origin.as_str(), record.origin.as_str()) && same_text(
            key.license.as_str(),
            record.license.as_str(),
        ) && same_text(key.copyright.as_str(), record.copyright.as_str()) {
            assert(key@.component =~= Seq::<char>::empty());
            return Some(i);
        }
        i = i + 1;
    }
    None
}

/// Adds one record to a grouping.
fn add_to_groups(groups: &mut Vec<RecordGroup>, record: &Record)
    requires
        groups_wf(old(groups)@),
    ensures
        groups_wf(final(groups)@),
        forall|r: RecordView|
            in_groups(final(groups)@, r) <==> (in_groups(old(groups)@, r) || r == record@),
{
    let ghost before = groups@;
    match find_group(groups, record) {
        Some(g) => {
            if !holds_name(&groups[g].names, record.component.as_str()) {
                let ghost old_names = texts_of(groups@[g as int].names@);
                groups[g].names.push(record.component.clone());
                proof {
                    let after = groups@;
                    assert(forall|i: int|
                        0 <= i < before.len() && i != g ==> after[i] == before[i]);
                    let new_names = texts_of(after[g as int].names@);
                    assert(new_names =~= old_names.push(record@.component));
                    assert forall|r: RecordView| in_groups(after, r) <==> (in_groups(before, r)
                        || r == record@) by {
                        if in_groups(before, r) {
                            let i = choose|i: int|
                                0 <= i < before.len() && (#[trigger] before[i]).key@ == group_key(
                                    r,
                                ) && texts_of(before[i].names@).contains(r.component);
                            if i == g {
                                let k = choose|k: int|
                                    0 <= k < old_names.len() && old_names[k] == r.component;
                                assert(new_names[k] == r.component);
                            }
                        }
                        if r == record@ {
                            assert(new_names[old_names.len() as int] == r.component);
                        }
                    }
                }
            }
        },
        None => {
            let key = Record {
                component: String::new(),
                origin: record.origin.clone(),
                license: record.license.clone(),
                copyright: record.copyright.clone(),
            };
            let mut names: Vec<String> = Vec::new();
            names.push(record.component.clone());
            groups.push(RecordGroup { key, names });
            proof {
                let after = groups@;
                let last = before.len() as int;
                assert(after[last].key@ =~= group_key(record@));
                assert forall|r: RecordView| in_groups(after, r) <==> (in_groups(before, r) || r
                    == record@) by {
                    if in_groups(before, r) {
                        let i = choose|i: int|
                            0 <= i < before.len() && (#[trigger] before[i]).key@ == group_key(r)
                                && texts_of(before[i].names@).contains(r.component);
                        assert(before[i] == after[i]);
                    }
                    if r == record@ {
                        assert(texts_of(after[last].names@)[0] == r.component);
                    }
                }
            }
        },
    }
}

/// Groups records that differ only in the component name.
pub fn collect_record_sets(records: Vec<Record>) -> (groups: Vec<RecordGroup>)
    ensures
        groups_wf(groups@),
        forall|r: RecordView| in_groups(groups@, r) <==> record_views(records@).contains(r),
{
    let mut groups: Vec<RecordGroup> = Vec::new();
    let mut i: usize = 0;
    while i < records.len()
        invariant
            i <= records@.len(),
            groups_wf(groups@),
            forall|r: RecordView|
                in_groups(groups@, r) <==> record_views(records@).subrange(0, i as int).contains(
                    r,
                ),
        decreases records@.len() - i,
    {
        let ghost seen = record_views(records@).subrange(0, i as int);
        add_to_groups(&mut groups, &records[i]);
        proof {
            let now = record_views(records@).subrange(0, i + 1);
            assert forall|r: RecordView| now.contains(r) <==> (seen.contains(r) || r
                == records@[i as int]@) by {
                if r == records@[i as int]@ {
                    assert(now[seen.len() as int] == r);
                }
            }
        }
        i = i + 1;
    }
    assert(record_views(records@).subrange(0, records@.len() as int) =~= record_views(records@));
    groups
}

/// The candidate records of a list of packages, one for each package.
pub open spec fn candidates(ps: Seq<PackageView>) -> Seq<RecordView> {
    Seq::new(ps.len(), |i: int| record_of(ps[i]))
}

/// The component names of the candidates that share origin, license and
/// copyright with `r`.
pub open spec fn names_sharing(cands: Seq<RecordView>, r: RecordView) -> Set<Seq<char>> {
    Set::new(|name: Seq<char>| cands.contains(named(r, name)))
}

/// The record `r` is a row of the manifest of the candidates `cands`: its
/// component name is the preferred name of its group, or, where the group has
/// none, any name of the group.
pub open spec fn emitted(cands: Seq<RecordView>, r: RecordView) -> bool {
    match preferred_name(names_sharing(cands, r), r.origin) {
        Some(name) => r.component == name,
        None => names_sharing(cands, r).contains(r.component),
    }
}

/// `out` is the manifest of the candidates `cands`: exactly the rows that the
/// candidates give, each once, in the order of records.
pub open spec fn is_reduction(cands: Seq<RecordView>, out: Seq<RecordView>) -> bool {
    &&& strictly_sorted(out)
    &&& forall|r: RecordView| out.contains(r) <==> emitted(cands, r)
}

/// The record `r` is one of the rows that the group `g` gives.
pub open spec fn group_emits(g: RecordGroup, r: RecordView) -> bool {
    rehydrated(g.key@, reduced_names(texts_of(g.names@), g.key@.origin)).contains(r)
}

/// In a well-formed grouping of the candidates, the names of the group with
/// the key of `r` are the names that share the key of `r`.
proof fn lemma_group_names(
    groups: Seq<RecordGroup>,
    cands: Seq<RecordView>,
    i: int,
    r: RecordView,
)
    requires
        groups_wf(groups),
        forall|x: RecordView| in_groups(groups, x) <==> cands.contains(x),
        0 <= i < groups.len(),
        groups[i].key@ == group_key(r),
    ensures
        names_sharing(cands, r) == texts_of(groups[i].names@).to_set(),
{
    let names = texts_of(groups[i].names@);
    assert forall|c: Seq<char>| names_sharing(cands, r).contains(c) <==> names.to_set().contains(
        c,
    ) by {
        let x = named(r, c);
    }
}

/// In a well-formed grouping of the candidates, a group gives exactly the
/// rows of the manifest that have its key.
proof fn lemma_group_emits(
    groups: Seq<RecordGroup>,
    cands: Seq<RecordView>,
    i: int,
    r: RecordView,
)
    requires
        groups_wf(groups),
        forall|x: RecordView| in_groups(groups, x) <==> cands.contains(x),
        0 <= i < groups.len(),
    ensures
        group_emits(groups[i], r) <==> (groups[i].key@ == group_key(r) && emitted(cands, r)),
{
    let key = groups[i].key@;
    let names = texts_of(groups[i].names@);
    let reduced = reduced_names(names, key.origin);
    let rows = rehydrated(key, reduced);
    assert(key =~= group_key(key)) by {
        assert(key.component =~= Seq::<char>::empty());
    }
    if group_emits(groups[i], r) {
        lemma_group_names(groups, cands, i, r);
    }
    if key == group_key(r) && emitted(cands, r) {
        lemma_group_names(groups, cands, i, r);
        if names.len() == 1 {
            assert(rows[0] == r);
        } else {
            match preferred_name(names.to_set(), key.origin) {
                Some(name) => {
                    assert(rows[0] == r);
                },
                None => {
                    let k = choose|k: int| 0 <= k < names.len() && names[k] == r.component;
                    assert(rows[k] == r);
                },
            }
        }
    }
}

/// The candidate records of `packages`, in some order.
fn candidate_records(packages: Vec<Package>) -> (records: Vec<Record>)
    requires
        forall|i: int| 0 <= i < packages@.len() ==> is_attributed(#[trigger] packages@[i]@),
    ensures
        forall|r: RecordView|
            record_views(records@).contains(r) <==> candidates(package_views(packages@)).contains(
                r,
            ),
{
    let ghost all = candidates(package_views(packages@));
    let mut packages = packages;
    let mut records: Vec<Record> = Vec::new();
    while packages.len() > 0
        invariant
            packages@.len() <= all.len(),
            forall|i: int| 0 <= i < packages@.len() ==> is_attributed(#[trigger] packages@[i]@),
            forall|i: int|
                0 <= i < packages@.len() ==> record_of(#[trigger] packages@[i]@) == all[i],
            forall|r: RecordView|
                record_views(records@).contains(r) <==> exists|j: int|
                    packages@.len() <= j < all.len() && all[j] == r,
        decreases packages@.len(),
    {
        let ghost before = record_views(records@);
        let ghost m = packages@.len() - 1;
        let package = packages.pop().unwrap();
        records.push(package_to_record(package));
        proof {
            let now = record_views(records@);
            assert(now =~= before.push(all[m]));
            assert forall|r: RecordView| now.contains(r) <==> exists|j: int|
                m <= j < all.len() && all[j] == r by {
                if now.contains(r) {
                    let k = choose|k: int| 0 <= k < now.len() && now[k] == r;
                    if k < before.len() {
                        assert(before.contains(r));
                    }
                }
                if exists|j: int| m <= j < all.len() && all[j] == r {
                    let j = choose|j: int| m <= j < all.len() && all[j] == r;
                    if j == m {
                        assert(now[before.len() as int] == r);
                    } else {
                        assert(before.contains(r));
                        let k = choose|k: int| 0 <= k < before.len() && before[k] == r;
                        assert(now[k] == r);
                    }
                }
            }
        }
    }
    records
}

/// The manifest of `packages`: their records, grouped and reduced, each row
/// once, in the order of records.
pub fn build_records(packages: Vec<Package>) -> (out: Vec<Record>)
    requires
        forall|i: int| 0 <= i < packages@.len() ==> is_attributed(#[trigger] packages@[i]@),
    ensures
        is_reduction(candidates(package_views(packages@)), record_views(out@)),
{
    let ghost cands = candidates(package_views(packages@));
    let records = candidate_records(packages);
    let mut groups = collect_record_sets(records);
    let ghost all = groups@;
    let mut out: Vec<Record> = Vec::new();
    while groups.len() > 0
        invariant
            groups@.len() <= all.len(),
            forall|i: int| 0 <= i < groups@.len() ==> #[trigger] groups@[i] == all[i],
            strictly_sorted(record_views(out@)),
            forall|r: RecordView|
                record_views(out@).contains(r) <==> exists|j: int|
                    groups@.len() <= j < all.len() && group_emits(#[trigger] all[j], r),
        decreases groups@.len(),
    {
        let ghost m = groups@.len() - 1;
        let ghost before = record_views(out@);
        let group = groups.pop().unwrap();
        let mut rows = reduce_names(group.key, group.names);
        let ghost given = record_views(rows@);
        while rows.len() > 0
            invariant
                rows@.len() <= given.len(),
                forall|i: int| 0 <= i < rows@.len() ==> (#[trigger] rows@[i])@ == given[i],
                strictly_sorted(record_views(out@)),
                forall|r: RecordView|
                    record_views(out@).contains(r) <==> (before.contains(r) || exists|k: int|
                        rows@.len() <= k < given.len() && given[k] == r),
            decreases rows@.len(),
        {
            let row = rows.pop().unwrap();
            insert_sorted(&mut out, row);
        }
        proof {
            assert(forall|r: RecordView|
                record_views(out@).contains(r) <==> (before.contains(r) || given.contains(r)));
            assert forall|r: RecordView| record_views(out@).contains(r) <==> exists|j: int|
                m <= j < all.len() && group_emits(#[trigger] all[j], r) by {
                if exists|j: int| m <= j < all.len() && group_emits(#[trigger] all[j], r) {
                    let j = choose|j: int| m <= j < all.len() && group_emits(#[trigger] all[j], r);
                    if j != m {
                        assert(before.contains(r));
                    }
                }
            }
        }
    }
    proof {
        assert forall|r: RecordView| record_views(out@).contains(r) <==> emitted(cands, r) by {
            assert forall|x: RecordView| in_groups(all, x) <==> cands.contains(x) by {}
            if record_views(out@).contains(r) {
                let j = choose|j: int| 0 <= j < all.len() && group_emits(#[trigger] all[j], r);
                lemma_group_emits(all, cands, j, r);
            }
            if emitted(cands, r) {
                let i = choose|i: int|
                    0 <= i < all.len() && (#[trigger] all[i]).key@ == group_key(r);
                lemma_group_emits(all, cands, i, r);
            }
        }
    }
    out
}

/// A manifest holds no two rows that agree in all four fields.
pub proof fn lemma_reduction_has_no_duplicates(cands: Seq<RecordView>, out: Seq<RecordView>)
    requires
        is_reduction(cands, out),
    ensures
        out.no_duplicates(),
{
    lemma_sorted_no_duplicates(out);
}

/// The manifest is determined by which candidate records there are: neither
/// the order in which the candidates come nor how often one occurs changes a
/// row or the order of the rows.
pub proof fn lemma_reduction_is_determined(
    cands1: Seq<RecordView>,
    cands2: Seq<RecordView>,
    out1: Seq<RecordView>,
    out2: Seq<RecordView>,
)
    requires
        forall|r: RecordView| cands1.contains(r) <==> cands2.contains(r),
        is_reduction(cands1, out1),
        is_reduction(cands2, out2),
    ensures
        out1 == out2,
{
    lemma_sorted_unique(out1, out2);
}

/// Two lists of packages of which each holds the packages of the other have
/// the same manifest, whatever the order of the packages.
pub proof fn lemma_manifest_ignores_order(
    ps1: Seq<PackageView>,
    ps2: Seq<PackageView>,
    out1: Seq<RecordView>,
    out2: Seq<RecordView>,
)
    requires
        forall|p: PackageView| ps1.contains(p) <==> ps2.contains(p),
        is_reduction(candidates(ps1), out1),
        is_reduction(candidates(ps2), out2),
    ensures
        out1 == out2,
{
    let c1 = candidates(ps1);
    let c2 = candidates(ps2);
    assert forall|r: RecordView| c1.contains(r) <==> c2.contains(r) by {
        if c1.contains(r) {
            let i = choose|i: int| 0 <= i < c1.len() && c1[i] == r;
            assert(ps1.contains(ps1[i]));
            let j = choose|j: int| 0 <= j < ps2.len() && ps2[j] == ps1[i];
            assert(c2[j] == r);
        }
        if c2.contains(r) {
            let i = choose|i: int| 0 <= i < c2.len() && c2[i] == r;
            assert(ps2.contains(ps2[i]));
            let j = choose|j: int| 0 <= j < ps1.len() && ps1[j] == ps2[i];
            assert(c1[j] == r);
        }
    }
    lemma_reduction_is_determined(c1, c2, out1, out2);
}

/// A candidate whose origin, license and copyright no candidate of another
/// name shares is a row of the manifest, under its own name, and the only row
/// with that origin, license and copyright.
pub proof fn lemma_single_name_group(cands: Seq<RecordView>, r: RecordView)
    requires
        cands.contains(r),
        forall|name: Seq<char>| cands.contains(named(r, name)) ==> name == r.component,
    ensures
        emitted(cands, r),
        forall|x: RecordView| group_key(x) == group_key(r) && emitted(cands, x) ==> x == r,
{
    assert forall|x: RecordView| group_key(x) == group_key(r) && emitted(cands, x) implies x
        == r by {
        assert(names_sharing(cands, x) =~= names_sharing(cands, r)) by {
            assert forall|name: Seq<char>| named(x, name) == named(r, name) by {}
        }
    }
}

/// The manifest of a single package is the one record of that package.
pub proof fn lemma_one_package(p: PackageView, out: Seq<RecordView>)
    requires
        is_reduction(candidates(seq![p]), out),
    ensures
        out == seq![record_of(p)],
{
    let cands = candidates(seq![p]);
    let r = record_of(p);
    assert(cands[0] == r);
    lemma_single_name_group(cands, r);
    let single = seq![r];
    assert forall|x: RecordView| out.contains(x) <==> single.contains(x) by {
        if out.contains(x) {
            assert(single[0] == x);
        }
    }
    lemma_sorted_unique(out, single);
}

} // verus!
