//! Timelines on which nothing is unsure: each row has a start that is known, and the confidence in
//! none is low.

use crate::engine::{closed_by, Desk};
use crate::handover::{is_sharp, lemma_due, lemma_replaced, replaced, says};
use crate::identity::{
    lemma_close_at, lemma_filter_contains, lemma_found, lemma_rewrite_unused, lemma_timeline,
};
use crate::placing::{lemma_filter_apart, lemma_timeline_apart, tell_apart};
use crate::timeline::{change_due, says_same, timeline, RowModel, Scope, Uniqueness};
use vstd::prelude::*;

verus! {

/// A row with a known, sharp start and a sure value. If it has ended, its end is known.
pub open spec fn is_sure(r: RowModel) -> bool {
    &&& r.valid_from is Some
    &&& !r.confidence.is_low()
    &&& is_sharp(r)
    &&& !r.is_open() ==> r.valid_to is Some
}

/// All rows are sure.
pub open spec fn all_sure(rows: Seq<RowModel>) -> bool {
    forall|r: RowModel| #[trigger] rows.contains(r) ==> is_sure(r)
}

/// Two rows start together and say different things.
pub open spec fn clash(side: Uniqueness, r: RowModel, s: RowModel) -> bool {
    r.valid_from == s.valid_from && !says_same(side, r, s)
}

/// Rows that start together say the same.
pub open spec fn none_clash(side: Uniqueness, rows: Seq<RowModel>) -> bool {
    forall|r: RowModel, s: RowModel|
        #![trigger rows.contains(r), rows.contains(s)]
        rows.contains(r) && rows.contains(s) && r.id != s.id ==> !clash(side, r, s)
}

/// No two rows say the same.
pub open spec fn values_differ(side: Uniqueness, rows: Seq<RowModel>) -> bool {
    forall|r: RowModel, s: RowModel|
        #![trigger rows.contains(r), rows.contains(s)]
        rows.contains(r) && rows.contains(s) && r.id != s.id ==> !says_same(side, r, s)
}

/// Rows that differ in their identifiers are as many as the set of them.
proof fn lemma_as_many(rows: Seq<RowModel>)
    requires
        tell_apart(rows),
    ensures
        rows.to_set().finite(),
        rows.to_set().len() == rows.len(),
{
    assert forall|i: int, j: int|
        0 <= i < rows.len() && 0 <= j < rows.len() && i != j implies rows[i] != rows[j] by {
        if i < j {
            assert(rows[i].id != rows[j].id);
        } else {
            assert(rows[j].id != rows[i].id);
        }
    }
    rows.unique_seq_to_set();
}

/// Rewriting a row leaves as many rows. Closing an open one leaves one open row less.
pub proof fn lemma_replaced_len(
    rows: Seq<RowModel>,
    after: Seq<RowModel>,
    old: RowModel,
    new: RowModel,
)
    requires
        replaced(rows, after, old, new),
        tell_apart(rows),
        tell_apart(after),
    ensures
        after.len() == rows.len(),
        old.is_open() && !new.is_open() ==> after.filter(is_open_row()).len() + 1 == rows.filter(
            is_open_row(),
        ).len(),
{
    lemma_as_many(rows);
    lemma_as_many(after);
    assert(!rows.to_set().contains(new)) by {
        if rows.contains(new) {
            assert(new.id != new.id);
        }
    }
    assert(after.to_set() =~= rows.to_set().remove(old).insert(new)) by {
        assert forall|r: RowModel| after.contains(r) <==> (rows.contains(r) && r != old) || r
            == new by {
            if rows.contains(r) && r != old {
                assert(r.id != old.id);
            }
        }
    }
    if old.is_open() && !new.is_open() {
        let p = is_open_row();
        let a = rows.filter(p);
        let b = after.filter(p);
        lemma_filter_apart(rows, p);
        lemma_filter_apart(after, p);
        lemma_as_many(a);
        lemma_as_many(b);
        assert forall|r: RowModel| #[trigger] b.contains(r) <==> a.contains(r) && r != old by {
            lemma_filter_contains(rows, p, r);
            lemma_filter_contains(after, p, r);
            assert(after.contains(r) <==> r == new || (rows.contains(r) && r.id != old.id));
        }
        lemma_filter_contains(rows, p, old);
        assert(b.to_set() =~= a.to_set().remove(old));
    }
}

/// A row that is open.
pub open spec fn is_open_row() -> spec_fn(RowModel) -> bool {
    |r: RowModel| r.is_open()
}

/// What closing a row leaves of a timeline on which all rows are sure.
pub proof fn lemma_close_sure(d: Desk, scope: Scope, i: int, next: RowModel)
    requires
        d.supplied(1),
        d.ledger.stands(scope, i),
        all_sure(timeline(d.ledger, scope)),
        is_sure(next),
    ensures
        ({
            let rows = timeline(d.ledger, scope);
            let mid = d.close_at(d.ledger.row(i), next);
            let after = timeline(mid.ledger, scope);
            &&& all_sure(after)
            &&& after.len() == rows.len()
            &&& none_clash(scope.side, rows) ==> none_clash(scope.side, after)
            &&& values_differ(scope.side, rows) ==> values_differ(scope.side, after)
            &&& mid.report.conflicts == d.report.conflicts
            &&& mid.report.corrected.len() == d.report.corrected.len() + 1
            &&& d.ledger.row(i).is_open() ==> after.filter(is_open_row()).len() + 1 == rows.filter(
                is_open_row(),
            ).len()
            &&& forall|x: u128|
                #[trigger] d.ledger.unused(x) && !d.ids.contains(x) ==> mid.ledger.unused(x)
                    && !mid.ids.contains(x)
        }),
{
    let l = d.ledger;
    let n = l.facts.len() as int;
    let rows = timeline(l, scope);
    let old = l.row(i);
    let mid = d.close_at(old, next);
    let after = timeline(mid.ledger, scope);
    let new = mid.ledger.row(n);
    lemma_replaced(d, scope, i, next);
    lemma_close_at(d, scope, i, next);
    lemma_found(l, i);
    lemma_timeline_apart(l, scope);
    lemma_timeline_apart(mid.ledger, scope);
    lemma_replaced_len(rows, after, old, new);
    assert(rows.contains(old));
    assert(new.valid_to is Some);
    assert forall|r: RowModel| #[trigger] after.contains(r) implies is_sure(r) by {
        if r != new {
            assert(rows.contains(r));
        }
    }
    let before_of = |r: RowModel|
        if r == new {
            old
        } else {
            r
        };
    assert forall|r: RowModel, s: RowModel|
        #![trigger after.contains(r), after.contains(s)]
        after.contains(r) && after.contains(s) && r.id != s.id implies {
        &&& none_clash(scope.side, rows) ==> !clash(scope.side, r, s)
        &&& values_differ(scope.side, rows) ==> !says_same(scope.side, r, s)
    } by {
        let a = before_of(r);
        let b = before_of(s);
        assert(rows.contains(a) && rows.contains(b) && a.id != b.id);
        assert(says(a) == says(r) && says(b) == says(s));
    }
    assert forall|x: u128| #[trigger] l.unused(x) && !d.ids.contains(x) implies mid.ledger.unused(x)
        && !mid.ids.contains(x) by {
        assert(d.ids[0] != x);
        lemma_rewrite_unused(l, old.id, closed_by(l.facts[i], d.ids[0], next, d.now), d.now, x);
        if mid.ids.contains(x) {
            let k = choose|k: int| 0 <= k < mid.ids.len() && mid.ids[k] == x;
            assert(d.ids[k + 1] == x);
        }
    }
}

/// Tidying a timeline on which all rows are sure leaves nothing to a person, and as many rows, all
/// sure. The identifiers that it uses are those that were supplied.
pub proof fn lemma_tidy_sure(d: Desk, scope: Scope, rounds: nat)
    requires
        d.supplied(rounds as int),
        all_sure(timeline(d.ledger, scope)),
    ensures
        ({
            let rows = timeline(d.ledger, scope);
            let end = d.tidy_rounds(scope, Seq::empty(), rounds);
            let after = timeline(end.ledger, scope);
            &&& all_sure(after)
            &&& after.len() == rows.len()
            &&& none_clash(scope.side, rows) ==> none_clash(scope.side, after)
            &&& values_differ(scope.side, rows) ==> values_differ(scope.side, after)
            &&& end.ledger.conflicts == d.ledger.conflicts
            &&& end.report.conflicts == d.report.conflicts
            &&& end.supplied(d.ids.len() - rounds)
            &&& forall|x: u128|
                #[trigger] d.ledger.unused(x) && !d.ids.contains(x) ==> end.ledger.unused(x)
                    && !end.ids.contains(x)
        }),
    decreases rounds,
{
    let rows = timeline(d.ledger, scope);
    let none = Seq::<(u128, u128)>::empty();
    if rounds > 0 && change_due(scope.side, rows, none) is Some {
        let (row, next) = change_due(scope.side, rows, none)->0;
        lemma_due(scope.side, rows, none);
        lemma_timeline(d.ledger, scope);
        let i = choose|i: int| #[trigger] d.ledger.stands(scope, i) && d.ledger.row(i) == row;
        let mid = d.close_at(row, next);
        lemma_replaced(d, scope, i, next);
        lemma_close_sure(d, scope, i, next);
        lemma_tidy_sure(mid, scope, (rounds - 1) as nat);
        let end = d.tidy_rounds(scope, none, rounds);
        assert(end == mid.tidy_rounds(scope, none, (rounds - 1) as nat));
        assert forall|x: u128|
            #[trigger] d.ledger.unused(x) && !d.ids.contains(x) implies end.ledger.unused(x)
            && !end.ids.contains(x) by {
            assert(mid.ledger.unused(x));
        }
    }
}

} // verus!
