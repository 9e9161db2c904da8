//! Attribution records: one row of the manifest for each component.

use vstd::prelude::*;
use vstd::string::*;
use crate::order::{
    lemma_precedes_asymmetric, lemma_precedes_irreflexive, lemma_precedes_total,
    lemma_precedes_transitive, place, precedes, Place,
};
use crate::package::{Package, PackageView};
use crate::text::{chars_of, same_text};

verus! {

/// One row of the manifest.
#[derive(Clone, Debug, PartialEq, Eq, PartialOrd, Ord, Hash)]
pub struct Record {
    /// The name under which the attribution is reported.
    pub component: String,
    /// The URL of the upstream repository.
    pub origin: String,
    /// The license expression.
    pub license: String,
    /// The copyright holder.
    pub copyright: String,
}

/// The mathematical content of a `Record`. Two records are the same when all
/// four fields are.
pub ghost struct RecordView {
    pub component: Seq<char>,
    pub origin: Seq<char>,
    pub license: Seq<char>,
    pub copyright: Seq<char>,
}

impl View for Record {
    type V = RecordView;

    open spec fn view(&self) -> RecordView {
        RecordView {
            component: self.component@,
            origin: self.origin@,
            license: self.license@,
            copyright: self.copyright@,
        }
    }
}

/// What a list of records denotes.
pub open spec fn record_views(v: Seq<Record>) -> Seq<RecordView> {
    Seq::new(v.len(), |i: int| v[i]@)
}

/// The order of records: by component name, then by origin, then by license,
/// then by copyright.
pub open spec fn record_precedes(a: RecordView, b: RecordView) -> bool {
    if a.component != b.component {
        precedes(a.component, b.component)
    } else if a.origin != b.origin {
        precedes(a.origin, b.origin)
    } else if a.license != b.license {
        precedes(a.license, b.license)
    } else {
        precedes(a.copyright, b.copyright)
    }
}

/// How record `a` stands to record `b`.
pub open spec fn record_place_of(a: RecordView, b: RecordView) -> Place {
    if a == b {
        Place::Same
    } else if record_precedes(a, b) {
        Place::Before
    } else {
        Place::After
    }
}

/// No record stands before itself.
pub proof fn lemma_record_irreflexive(a: RecordView)
    ensures
        !record_precedes(a, a),
{
    lemma_precedes_irreflexive(a.copyright);
}

/// Of two different records, exactly one stands before the other.
pub proof fn lemma_record_total(a: RecordView, b: RecordView)
    requires
        a != b,
    ensures
        record_precedes(a, b) != record_precedes(b, a),
{
    if a.component != b.component {
        lemma_precedes_total(a.component, b.component);
        if precedes(a.component, b.component) {
            lemma_precedes_asymmetric(a.component, b.component);
        }
    } else if a.origin != b.origin {
        lemma_precedes_total(a.origin, b.origin);
        if precedes(a.origin, b.origin) {
            lemma_precedes_asymmetric(a.origin, b.origin);
        }
    } else if a.license != b.license {
        lemma_precedes_total(a.license, b.license);
        if precedes(a.license, b.license) {
            lemma_precedes_asymmetric(a.license, b.license);
        }
    } else {
        lemma_precedes_total(a.copyright, b.copyright);
        if precedes(a.copyright, b.copyright) {
            lemma_precedes_asymmetric(a.copyright, b.copyright);
        }
    }
}

/// The order of records is transitive.
pub proof fn lemma_record_transitive(a: RecordView, b: RecordView, c: RecordView)
    requires
        record_precedes(a, b),
        record_precedes(b, c),
    ensures
        record_precedes(a, c),
{
    lemma_precedes_irreflexive(a.component);
    lemma_precedes_irreflexive(a.origin);
    lemma_precedes_irreflexive(a.license);
    lemma_precedes_irreflexive(a.copyright);
    if a.component != b.component {
        if b.component != c.component {
            lemma_precedes_transitive(a.component, b.component, c.component);
        }
    } else if b.component != c.component {
        // the component names decide
    } else if a.origin != b.origin {
        if b.origin != c.origin {
            lemma_precedes_transitive(a.origin, b.origin, c.origin);
        }
    } else if b.origin != c.origin {
        // the origins decide
    } else if a.license != b.license {
        if b.license != c.license {
            lemma_precedes_transitive(a.license, b.license, c.license);
        }
    } else if b.license != c.license {
        // the licenses decide
    } else {
        lemma_precedes_transitive(a.copyright, b.copyright, c.copyright);
    }
}

/// How record `a` stands to record `b`.
pub fn record_place(a: &Record, b: &Record) -> (r: Place)
    ensures
        r == record_place_of(a@, b@),
{
    let by_component = place(&chars_of(a.component.as_str()), &chars_of(b.component.as_str()));
    if by_component != Place::Same {
        return by_component;
    }
    let by_origin = place(&chars_of(a.origin.as_str()), &chars_of(b.origin.as_str()));
    if by_origin != Place::Same {
        return by_origin;
    }
    let by_license = place(&chars_of(a.license.as_str()), &chars_of(b.license.as_str()));
    if by_license != Place::Same {
        return by_license;
    }
    place(&chars_of(a.copyright.as_str()), &chars_of(b.copyright.as_str()))
}

/// What stands for one character of a declared license in a license
/// expression: ` OR ` for the `/` that joins alternatives, else the character.
pub open spec fn or_piece(c: char) -> Seq<char> {
    if c == '/' {
        seq![' ', 'O', 'R', ' ']
    } else {
        seq![c]
    }
}

/// A declared license as a license expression: every `/` becomes ` OR `.
pub open spec fn or_joined(license: Seq<char>) -> Seq<char>
    decreases license.len(),
{
    if license.len() == 0 {
        Seq::empty()
    } else {
        or_joined(license.drop_last()) + or_piece(license.last())
    }
}

/// A package can become a record when it has an origin, a license and a
/// copyright holder.
pub open spec fn is_attributed(p: PackageView) -> bool {
    p.repository is Some && p.license is Some && p.copyright is Some
}

/// The record of an attributed package.
pub open spec fn record_of(p: PackageView) -> RecordView {
    RecordView {
        component: p.name,
        origin: p.repository->0,
        license: or_joined(p.license->0),
        copyright: p.copyright->0,
    }
}

/// The license expression of a declared license.
pub fn license_expression(license: &str) -> (r: String)
    ensures
        r@ == or_joined(license@),
{
    proof {
        reveal_strlit(" OR ");
        assert(" OR "@ =~= or_piece('/'));
    }
    let v = chars_of(license);
    let n: usize = v.len();
    let mut r = String::new();
    let mut from: usize = 0;
    let mut i: usize = 0;
    while i < n
        invariant
            from <= i <= n,
            n == v@.len(),
            v@ == license@,
            " OR "@ == or_piece('/'),
            r@ + license@.subrange(from as int, i as int) == or_joined(
                license@.subrange(0, i as int),
            ),
        decreases n - i,
    {
        let ghost upto = license@.subrange(0, i + 1);
        assert(upto.drop_last() =~= license@.subrange(0, i as int));
        if v[i] == '/' {
            r.append(license.substring_char(from, i));
            r.append(" OR ");
            from = i + 1;
            assert(r@ + license@.subrange(from as int, i + 1) =~= or_joined(upto));
        } else {
            assert(r@ + license@.subrange(from as int, i + 1) =~= or_joined(upto));
        }
        i = i + 1;
    }
    r.append(license.substring_char(from, n));
    assert(license@.subrange(0, n as int) =~= license@);
    r
}

/// The record of an attributed package.
pub fn package_to_record(package: Package) -> (r: Record)
    requires
        is_attributed(package@),
    ensures
        r@ == record_of(package@),
{
    let origin = package.repository.unwrap();
    let license = license_expression(package.license.unwrap().as_str());
    let component = package.name;
    let copyright = package.copyright.unwrap();
    Record { component, origin, license, copyright }
}

/// Every record of the list stands before all that follow it. Such a list
/// holds no record twice.
pub open spec fn strictly_sorted(v: Seq<RecordView>) -> bool {
    forall|i: int, j: int| 0 <= i < j < v.len() ==> record_precedes(v[i], v[j])
}

/// Puts `record` at its place in a sorted list, unless the list holds it
/// already.
pub fn insert_sorted(list: &mut Vec<Record>, record: Record)
    requires
        strictly_sorted(record_views(old(list)@)),
    ensures
        strictly_sorted(record_views(final(list)@)),
        forall|r: RecordView|
            record_views(final(list)@).contains(r) <==> (record_views(old(list)@).contains(r) || r
                == record@),
{
    let ghost before = record_views(list@);
    let n: usize = list.len();
    let mut i: usize = 0;
    let mut found: bool = false;
    while i < n
        invariant_except_break
            !found,
        invariant
            i <= n,
            n == list@.len(),
            before == record_views(list@),
            strictly_sorted(before),
            forall|j: int| 0 <= j < i ==> record_precedes(before[j], record@),
        ensures
            i <= n,
            found ==> i < n && before[i as int] == record@,
            !found && i < n ==> record_precedes(record@, before[i as int]),
        decreases n - i,
    {
        match record_place(&list[i], &record) {
            Place::Before => {
                i = i + 1;
            },
            Place::Same => {
                found = true;
                break;
            },
            Place::After => {
                proof {
                    lemma_record_total(before[i as int], record@);
                }
                break;
            },
        }
    }
    if !found {
        list.insert(i, record);
        proof {
            let after = record_views(list@);
            assert(after =~= before.insert(i as int, record@));
            assert forall|a: int, b: int| 0 <= a < b < after.len() implies record_precedes(
                after[a],
                after[b],
            ) by {
                if a == i && b - 1 > i {
                    lemma_record_transitive(record@, before[i as int], before[b - 1]);
                }
            }
            assert forall|r: RecordView| after.contains(r) <==> (before.contains(r) || r
                == record@) by {
                if before.contains(r) {
                    let k = choose|k: int| 0 <= k < before.len() && before[k] == r;
                    if k < i {
                        assert(after[k] == r);
                    } else {
                        assert(after[k + 1] == r);
                    }
                }
                if r == record@ {
                    assert(after[i as int] == r);
                }
            }
        }
    }
}

/// A sorted list holds no record twice.
pub proof fn lemma_sorted_no_duplicates(v: Seq<RecordView>)
    requires
        strictly_sorted(v),
    ensures
        v.no_duplicates(),
{
    assert forall|i: int, j: int| 0 <= i < v.len() && 0 <= j < v.len() && i != j implies v[i]
        != v[j] by {
        lemma_record_irreflexive(v[i]);
    }
}

/// Two sorted lists that hold the same records are the same list.
pub proof fn lemma_sorted_unique(a: Seq<RecordView>, b: Seq<RecordView>)
    requires
        strictly_sorted(a),
        strictly_sorted(b),
        forall|r: RecordView| a.contains(r) <==> b.contains(r),
    ensures
        a == b,
    decreases a.len(),
{
    if a.len() == 0 {
        if b.len() > 0 {
            assert(b.contains(b[0]));
        }
    } else {
        assert(a.contains(a[0]));
        let k = choose|k: int| 0 <= k < b.len() && b[k] == a[0];
        assert(b.contains(b[0]));
        let l = choose|l: int| 0 <= l < a.len() && a[l] == b[0];
        if k > 0 && l > 0 {
            lemma_record_irreflexive(a[0]);
            lemma_record_total(a[0], b[0]);
        }
        let ta = a.drop_first();
        let tb = b.drop_first();
        assert forall|r: RecordView| ta.contains(r) <==> tb.contains(r) by {
            lemma_record_irreflexive(r);
            if ta.contains(r) {
                assert(a.contains(r));
                let j = choose|j: int| 0 <= j < b.len() && b[j] == r;
                assert(tb[j - 1] == r);
            }
            if tb.contains(r) {
                assert(b.contains(r));
                let j = choose|j: int| 0 <= j < a.len() && a[j] == r;
                assert(ta[j - 1] == r);
            }
        }
        lemma_sorted_unique(ta, tb);
        assert(b =~= seq![b[0]] + tb);
    }
}

/// Whether two records agree in all four fields.
pub fn same_record(a: &Record, b: &Record) -> (r: bool)
    ensures
        r == (a@ == b@),
{
    same_text(a.component.as_str(), b.component.as_str()) && same_text(
        a.origin.as_str(),
        b.origin.as_str(),
    ) && same_text(a.license.as_str(), b.license.as_str()) && same_text(
        a.copyright.as_str(),
        b.copyright.as_str(),
    )
}

/// Whether one of the first `upto` records of `list` is `record`.
pub fn holds_record(list: &Vec<Record>, upto: usize, record: &Record) -> (r: bool)
    requires
        upto <= list@.len(),
    ensures
        r == record_views(list@).subrange(0, upto as int).contains(record@),
{
    let ghost part = record_views(list@).subrange(0, upto as int);
    let mut i: usize = 0;
    while i < upto
        invariant
            i <= upto <= list@.len(),
            part == record_views(list@).subrange(0, upto as int),
            forall|j: int| 0 <= j < i ==> part[j] != record@,
        decreases upto - i,
    {
        if same_record(&list[i], record) {
            assert(part[i as int] == record@);
            return true;
        }
        i = i + 1;
    }
    false
}

} // verus!
