//! Drift between a freshly built manifest and a stored one.
//!
//! Rows are compared as wholes. A fresh row whose component the stored
//! manifest knows with another field is therefore reported as missing or
//! changed, and the stored row as extraneous.

use vstd::prelude::*;
use crate::record::{holds_record, record_views, Record, RecordView};

verus! {

/// One difference between the fresh manifest and the stored one. Each names
/// the component of the row in question.
#[derive(Clone, Debug, PartialEq, Eq)]
pub enum Mismatch {
    /// A fresh row has no equal among the stored rows that is not already
    /// matched: the row is new, or one of its fields has changed.
    MissingOrChanged(String),
    /// A stored row that no fresh row equals.
    Extraneous(String),
}

/// The mathematical content of a `Mismatch`.
pub ghost enum MismatchView {
    MissingOrChanged(Seq<char>),
    Extraneous(Seq<char>),
}

impl View for Mismatch {
    type V = MismatchView;

    open spec fn view(&self) -> MismatchView {
        match self {
            Mismatch::MissingOrChanged(name) => MismatchView::MissingOrChanged(name@),
            Mismatch::Extraneous(name) => MismatchView::Extraneous(name@),
        }
    }
}

/// What a list of mismatches denotes.
pub open spec fn mismatch_views(v: Seq<Mismatch>) -> Seq<MismatchView> {
    Seq::new(v.len(), |i: int| v[i]@)
}

/// The fresh rows without a match, in the order of `fresh`. The stored rows
/// are a set, and a stored row matches one fresh row only: a fresh row is
/// matched when the stored rows hold it and no earlier fresh row is the same.
pub open spec fn missing_rows(fresh: Seq<RecordView>, stored: Seq<RecordView>) -> Seq<
    MismatchView,
>
    decreases fresh.len(),
{
    if fresh.len() == 0 {
        Seq::empty()
    } else {
        let before = missing_rows(fresh.drop_last(), stored);
        let row = fresh.last();
        if stored.contains(row) && !fresh.drop_last().contains(row) {
            before
        } else {
            before.push(MismatchView::MissingOrChanged(row.component))
        }
    }
}

/// The stored rows that no fresh row equals, each once, in the order in which
/// `stored` first holds them.
pub open spec fn extraneous_rows(fresh: Seq<RecordView>, stored: Seq<RecordView>) -> Seq<
    MismatchView,
>
    decreases stored.len(),
{
    if stored.len() == 0 {
        Seq::empty()
    } else {
        let before = extraneous_rows(fresh, stored.drop_last());
        let row = stored.last();
        if fresh.contains(row) || stored.drop_last().contains(row) {
            before
        } else {
            before.push(MismatchView::Extraneous(row.component))
        }
    }
}

/// All mismatches between a fresh manifest and a stored one: first the fresh
/// rows without a match, then the stored rows that are left over.
pub open spec fn drift(fresh: Seq<RecordView>, stored: Seq<RecordView>) -> Seq<MismatchView> {
    missing_rows(fresh, stored) + extraneous_rows(fresh, stored)
}

/// Compares a fresh manifest with a stored one. Succeeds when there is no
/// mismatch; else fails with every mismatch.
pub fn check(fresh: &Vec<Record>, stored: &Vec<Record>) -> (r: Result<(), Vec<Mismatch>>)
    ensures
        r is Ok <==> drift(record_views(fresh@), record_views(stored@)).len() == 0,
        r matches Err(found) ==> mismatch_views(found@) == drift(
            record_views(fresh@),
            record_views(stored@),
        ),
{
    let ghost f = record_views(fresh@);
    let ghost s = record_views(stored@);
    let mut found: Vec<Mismatch> = Vec::new();
    let mut i: usize = 0;
    while i < fresh.len()
        invariant
            i <= fresh@.len(),
            f == record_views(fresh@),
            s == record_views(stored@),
            mismatch_views(found@) == missing_rows(f.subrange(0, i as int), s),
        decreases fresh@.len() - i,
    {
        let ghost upto = f.subrange(0, i + 1);
        assert(upto.drop_last() =~= f.subrange(0, i as int));
        assert(s.subrange(0, s.len() as int) =~= s);
        let matched = holds_record(stored, stored.len(), &fresh[i]) && !holds_record(
            fresh,
            i,
            &fresh[i],
        );
        if !matched {
            let ghost before = mismatch_views(found@);
            found.push(Mismatch::MissingOrChanged(fresh[i].component.clone()));
            assert(mismatch_views(found@) =~= before.push(
                MismatchView::MissingOrChanged(fresh@[i as int]@.component),
            ));
        }
        i = i + 1;
    }
    assert(f.subrange(0, fresh@.len() as int) =~= f);
    let mut k: usize = 0;
    while k < stored.len()
        invariant
            k <= stored@.len(),
            f == record_views(fresh@),
            s == record_views(stored@),
            mismatch_views(found@) == missing_rows(f, s) + extraneous_rows(
                f,
                s.subrange(0, k as int),
            ),
        decreases stored@.len() - k,
    {
        let ghost upto = s.subrange(0, k + 1);
        assert(upto.drop_last() =~= s.subrange(0, k as int));
        assert(f.subrange(0, f.len() as int) =~= f);
        let matched = holds_record(fresh, fresh.len(), &stored[k]) || holds_record(
            stored,
            k,
            &stored[k],
        );
        if !matched {
            let ghost before = mismatch_views(found@);
            found.push(Mismatch::Extraneous(stored[k].component.clone()));
            assert(mismatch_views(found@) =~= before.push(
                MismatchView::Extraneous(stored@[k as int]@.component),
            ));
        }
        k = k + 1;
    }
    assert(s.subrange(0, stored@.len() as int) =~= s);
    if found.len() == 0 {
        Ok(())
    } else {
        Err(found)
    }
}

/// Fresh rows, none of them twice, that the stored rows all hold are all
/// matched.
pub proof fn lemma_all_matched(fresh: Seq<RecordView>, stored: Seq<RecordView>)
    requires
        fresh.no_duplicates(),
        forall|r: RecordView| fresh.contains(r) ==> stored.contains(r),
    ensures
        missing_rows(fresh, stored).len() == 0,
    decreases fresh.len(),
{
    if fresh.len() > 0 {
        let rest = fresh.drop_last();
        let row = fresh.last();
        assert forall|r: RecordView| rest.contains(r) implies stored.contains(r) by {}
        lemma_all_matched(rest, stored);
        assert(!rest.contains(row));
    }
}

/// Stored rows that the fresh rows all hold leave nothing over.
pub proof fn lemma_nothing_left(fresh: Seq<RecordView>, stored: Seq<RecordView>)
    requires
        forall|r: RecordView| stored.contains(r) ==> fresh.contains(r),
    ensures
        extraneous_rows(fresh, stored).len() == 0,
    decreases stored.len(),
{
    if stored.len() > 0 {
        let rest = stored.drop_last();
        assert forall|r: RecordView| rest.contains(r) implies fresh.contains(r) by {}
        lemma_nothing_left(fresh, rest);
    }
}

/// Stored rows of which one, `extra`, is no fresh row, and all others are,
/// leave exactly `extra` over.
pub proof fn lemma_one_left(fresh: Seq<RecordView>, stored: Seq<RecordView>, extra: RecordView)
    requires
        stored.contains(extra),
        !fresh.contains(extra),
        forall|r: RecordView| stored.contains(r) ==> r == extra || fresh.contains(r),
    ensures
        extraneous_rows(fresh, stored) == seq![MismatchView::Extraneous(extra.component)],
    decreases stored.len(),
{
    let rest = stored.drop_last();
    assert forall|r: RecordView| rest.contains(r) implies r == extra || fresh.contains(r) by {}
    if rest.contains(extra) {
        lemma_one_left(fresh, rest, extra);
    } else {
        lemma_nothing_left(fresh, rest);
        let k = choose|k: int| 0 <= k < stored.len() && stored[k] == extra;
        if k < rest.len() {
            assert(rest[k] == extra);
        }
        assert(extraneous_rows(fresh, stored) =~= seq![
            MismatchView::Extraneous(extra.component),
        ]);
    }
}

/// A manifest that holds no row twice does not drift from a stored one that
/// holds the same rows.
pub proof fn lemma_same_rows_no_drift(fresh: Seq<RecordView>, stored: Seq<RecordView>)
    requires
        fresh.no_duplicates(),
        forall|r: RecordView| fresh.contains(r) <==> stored.contains(r),
    ensures
        drift(fresh, stored).len() == 0,
{
    lemma_all_matched(fresh, stored);
    lemma_nothing_left(fresh, stored);
}

/// Against a stored manifest that holds the fresh rows and one row more, the
/// drift is that one row, as extraneous.
pub proof fn lemma_one_extra_row(
    fresh: Seq<RecordView>,
    stored: Seq<RecordView>,
    extra: RecordView,
)
    requires
        fresh.no_duplicates(),
        !fresh.contains(extra),
        forall|r: RecordView| stored.contains(r) <==> (fresh.contains(r) || r == extra),
    ensures
        drift(fresh, stored) == seq![MismatchView::Extraneous(extra.component)],
{
    lemma_all_matched(fresh, stored);
    lemma_one_left(fresh, stored, extra);
}

} // verus!
