//! Reconciling a chain of sure values: all but the last are closed, as the estimate says.

use crate::arrival::{has_its_end, in_sequence};
use crate::candidates::plan;
use crate::engine::{row_with_id, simultaneous_rival, undated_rival, Desk, MAX_TIDY_ROUNDS};
use crate::estimate::law_a_chain_closes_all_but_the_last;
use crate::handover::{
    is_said, lemma_replaced, lemma_rows_identified, lemma_successor, lemma_tidy_keeps,
    lemma_time_order, replaced, says,
};
use crate::history::{lemma_filter_all, lemma_filter_none};
use crate::identity::{lemma_filter_contains, lemma_found, lemma_timeline};
use crate::laws::{identified, row_on};
use crate::ledger::{FactModel, LedgerModel};
use crate::order::{first, lemma_arrange, lemma_first, no_later};
use crate::pairing::{
    all_here, are_listed, lemma_open_values, lemma_replayed, open_ids, replayed, unique_here,
    values_of,
};
use crate::placing::{
    lemma_filter_apart, lemma_same_said, lemma_timeline_apart, same_said, tell_apart,
};
use crate::replay::{by_start, ReplayOrder};
use crate::rewrite::relation_with_id;
use crate::sure::{
    all_sure, is_open_row, is_sure, lemma_close_sure, lemma_tidy_sure, none_clash, values_differ,
};
use crate::timeline::{
    change_due, closing, covers, cutting, follows, in_time_order, on_timeline, successor, timeline,
    to_cut, RowModel, Scope, Uniqueness,
};
use vstd::prelude::*;

verus! {

/// Each row is open, or ends where its successor starts.
pub open spec fn open_or_ended(side: Uniqueness, rows: Seq<RowModel>) -> bool {
    forall|r: RowModel| #[trigger]
        rows.contains(r) ==> r.is_open() || (successor(side, rows, r) is Some && has_its_end(
            side,
            rows,
            r,
        ))
}

/// `r` is open, and has a successor.
pub open spec fn is_overdue(side: Uniqueness, rows: Seq<RowModel>, r: RowModel) -> bool {
    r.is_open() && successor(side, rows, r) is Some
}

/// What is due on such a timeline: the first row that is open and has a successor.
proof fn lemma_first_overdue(side: Uniqueness, rows: Seq<RowModel>)
    requires
        all_sure(rows),
        open_or_ended(side, rows),
    ensures
        match change_due(side, rows, Seq::empty()) {
            Some((row, next)) => {
                &&& rows.contains(row)
                &&& is_overdue(side, rows, row)
                &&& successor(side, rows, row) == Some(next)
                &&& forall|q: RowModel| #[trigger]
                    rows.contains(q) && is_overdue(side, rows, q) ==> row.key()->0 <= q.key()->0
            },
            None => forall|q: RowModel| #[trigger]
                rows.contains(q) ==> !is_overdue(side, rows, q),
        },
{
    let none = Seq::<(u128, u128)>::empty();
    let ordered = in_time_order(rows);
    let cut = cutting(side, rows, none);
    let close = closing(side, rows, none);
    lemma_time_order(rows);
    lemma_first(ordered, cut);
    lemma_first(ordered, close);
    assert forall|i: int| 0 <= i < ordered.len() implies !cut(#[trigger] ordered[i]) by {
        let x = ordered[i];
        assert(ordered.contains(x));
        lemma_first(ordered, to_cut(side, rows, none, x));
        assert forall|k: int| 0 <= k < ordered.len() implies !to_cut(side, rows, none, x)(
            #[trigger] ordered[k],
        ) by {
            let c = ordered[k];
            assert(ordered.contains(c));
            assert(rows.contains(c) && rows.contains(x));
            if covers(side, rows, c, x) {
                lemma_successor(side, rows, c);
                assert(follows(side, c)(x));
                assert(is_sure(successor(side, rows, c)->0));
                assert(is_sure(c));
            }
        }
    }
    assert(first(ordered, cut) is None);
    if first(ordered, close) is Some {
        let row = first(ordered, close)->0;
        assert(ordered.contains(row));
        let i = choose|i: int|
            0 <= i < ordered.len() && #[trigger] ordered[i] == row && forall|j: int|
                0 <= j < i ==> !close(#[trigger] ordered[j]);
        assert forall|q: RowModel| #[trigger]
            rows.contains(q) && is_overdue(side, rows, q) implies row.key()->0 <= q.key()->0 by {
            assert(is_sure(q));
            assert(ordered.contains(q));
            let j = choose|j: int| 0 <= j < ordered.len() && ordered[j] == q;
            assert(close(ordered[j]));
            assert(ordered[i].key()->0 <= ordered[j].key()->0);
        }
    } else {
        assert forall|q: RowModel| #[trigger] rows.contains(q) implies !is_overdue(
            side,
            rows,
            q,
        ) by {
            assert(is_sure(q));
            assert(ordered.contains(q));
            let j = choose|j: int| 0 <= j < ordered.len() && ordered[j] == q;
            assert(!close(ordered[j]));
        }
    }
}

/// Rewriting a row changes nothing of where the successors start.
proof fn lemma_successor_kept(
    side: Uniqueness,
    rows: Seq<RowModel>,
    after: Seq<RowModel>,
    old: RowModel,
    new: RowModel,
    r: RowModel,
    s: RowModel,
)
    requires
        replaced(rows, after, old, new),
        rows.contains(r),
        s == (if r == old {
            new
        } else {
            r
        }),
    ensures
        successor(side, rows, r) is Some == successor(side, after, s) is Some,
        successor(side, rows, r) is Some ==> successor(side, rows, r)->0.key() == successor(
            side,
            after,
            s,
        )->0.key(),
{
    lemma_successor(side, rows, r);
    lemma_successor(side, after, s);
    if successor(side, rows, r) is Some {
        let y = successor(side, rows, r)->0;
        let z = if y == old {
            new
        } else {
            y
        };
        assert(after.contains(z) && follows(side, s)(z));
    }
    if successor(side, after, s) is Some {
        let z = successor(side, after, s)->0;
        let y = if z == new {
            old
        } else {
            z
        };
        assert(rows.contains(y) && follows(side, r)(y));
    }
}

/// What one round of tidying leaves of such a timeline.
proof fn lemma_round(d: Desk, scope: Scope, i: int, next: RowModel)
    requires
        d.supplied(1),
        d.ledger.stands(scope, i),
        all_sure(timeline(d.ledger, scope)),
        open_or_ended(scope.side, timeline(d.ledger, scope)),
        d.ledger.row(i).is_open(),
        successor(scope.side, timeline(d.ledger, scope), d.ledger.row(i)) == Some(next),
    ensures
        ({
            let rows = timeline(d.ledger, scope);
            let mid = d.close_at(d.ledger.row(i), next);
            let between = timeline(mid.ledger, scope);
            &&& open_or_ended(scope.side, between)
            &&& mid.ledger.relations == d.ledger.relations
            &&& forall|r: RowModel| #[trigger]
                between.contains(r) && r.is_open() ==> rows.contains(r) && r != d.ledger.row(i)
        }),
{
    let side = scope.side;
    let rows = timeline(d.ledger, scope);
    let old = d.ledger.row(i);
    let mid = d.close_at(old, next);
    let between = timeline(mid.ledger, scope);
    let new = mid.ledger.row(d.ledger.facts.len() as int);
    lemma_successor(side, rows, old);
    assert(is_sure(next));
    lemma_replaced(d, scope, i, next);
    lemma_close_sure(d, scope, i, next);
    assert(between.contains(new));
    assert(is_sure(new));
    assert forall|r: RowModel| #[trigger] between.contains(r) implies r.is_open() || (successor(
        side,
        between,
        r,
    ) is Some && has_its_end(side, between, r)) by {
        if !r.is_open() {
            let q = if r == new {
                old
            } else {
                r
            };
            assert(rows.contains(q));
            lemma_successor(side, rows, q);
            lemma_successor_kept(side, rows, between, old, new, q, r);
            lemma_successor(side, between, r);
            assert(is_sure(successor(side, rows, q)->0));
            assert(is_sure(successor(side, between, r)->0));
        }
    }
}

/// Tidying a timeline of sure rows, each of them open or ended where its successor starts: it stays
/// such a timeline, with one open row less for each row that was corrected; and the first row that
/// was open and had a successor is closed.
proof fn lemma_tidy_chain(d: Desk, scope: Scope, rounds: nat)
    requires
        d.supplied(rounds as int),
        all_sure(timeline(d.ledger, scope)),
        none_clash(scope.side, timeline(d.ledger, scope)),
        values_differ(scope.side, timeline(d.ledger, scope)),
        open_or_ended(scope.side, timeline(d.ledger, scope)),
    ensures
        ({
            let rows = timeline(d.ledger, scope);
            let end = d.tidy_rounds(scope, Seq::empty(), rounds);
            let after = timeline(end.ledger, scope);
            &&& open_or_ended(scope.side, after)
            &&& end.ledger.relations == d.ledger.relations
            &&& end.report.corrected.len() + after.filter(is_open_row()).len()
                == d.report.corrected.len() + rows.filter(is_open_row()).len()
            &&& forall|r: RowModel| #[trigger]
                after.contains(r) && r.is_open() ==> rows.contains(r)
            &&& rounds > 0 ==> forall|r: RowModel| #[trigger]
                rows.contains(r) && is_overdue(scope.side, rows, r) && (forall|q: RowModel|
                    #[trigger]
                    rows.contains(q) && is_overdue(scope.side, rows, q) ==> r.key()->0
                        <= q.key()->0) ==> !after.contains(r)
        }),
    decreases rounds,
{
    let side = scope.side;
    let rows = timeline(d.ledger, scope);
    let none = Seq::<(u128, u128)>::empty();
    lemma_first_overdue(side, rows);
    if rounds > 0 && change_due(side, rows, none) is Some {
        let (row, next) = change_due(side, rows, none)->0;
        lemma_timeline(d.ledger, scope);
        let i = choose|i: int| #[trigger] d.ledger.stands(scope, i) && d.ledger.row(i) == row;
        let mid = d.close_at(row, next);
        let between = timeline(mid.ledger, scope);
        lemma_successor(side, rows, row);
        assert(is_sure(next));
        lemma_replaced(d, scope, i, next);
        lemma_close_sure(d, scope, i, next);
        lemma_round(d, scope, i, next);
        lemma_tidy_chain(mid, scope, (rounds - 1) as nat);
        let end = d.tidy_rounds(scope, none, rounds);
        let after = timeline(end.ledger, scope);
        assert(end == mid.tidy_rounds(scope, none, (rounds - 1) as nat));
        lemma_rows_identified(d.ledger, scope);
        assert forall|r: RowModel| #[trigger]
            rows.contains(r) && is_overdue(side, rows, r) && (forall|q: RowModel| #[trigger]
                rows.contains(q) && is_overdue(side, rows, q) ==> r.key()->0
                    <= q.key()->0) implies !after.contains(r) by {
            assert(is_sure(r) && is_sure(row));
            assert(r.key() == row.key());
            assert(r == row);
            if after.contains(r) {
                assert(between.contains(r));
            }
        }
    }
}

/// A row without a successor has none on a timeline that says the same.
proof fn lemma_none_follows(
    side: Uniqueness,
    rows: Seq<RowModel>,
    after: Seq<RowModel>,
    r: RowModel,
)
    requires
        identified(rows),
        forall|y: RowModel| #[trigger] after.contains(y) ==> is_said(rows, y),
        rows.contains(r),
        successor(side, rows, r) is None,
    ensures
        successor(side, after, r) is None,
{
    lemma_successor(side, rows, r);
    lemma_successor(side, after, r);
    if successor(side, after, r) is Some {
        let y = successor(side, after, r)->0;
        assert(is_said(rows, y));
        reveal(is_said);
        let q = choose|q: RowModel| #[trigger]
            rows.contains(q) && says(q) == says(y);
        assert(q != r);
        assert(follows(side, r)(q));
    }
}

/// On a timeline of sure rows, of which those that start together say the same, reconciling a fact
/// once more tidies the timeline, or does nothing where the fact is no longer there or no longer open.
proof fn lemma_reconcile_sure(d: Desk, scope: Scope, f: FactModel)
    requires
        d.ledger.distinct(),
        unique_here(d.ledger, scope),
        all_sure(timeline(d.ledger, scope)),
        none_clash(scope.side, timeline(d.ledger, scope)),
        on_timeline(scope)(f),
        f.object_id is Some || f.object_value is Some,
    ensures
        d.reconcile_again(scope.kb_id, f) == d || d.reconcile_again(scope.kb_id, f) == d.tidy(
            scope,
        ),
        (exists|r: RowModel| #[trigger]
            timeline(d.ledger, scope).contains(r) && r.id == f.id && r.is_open())
            ==> d.reconcile_again(scope.kb_id, f) == d.tidy(scope),
{
    let l = d.ledger;
    let side = scope.side;
    let rows = timeline(l, scope);
    lemma_timeline(l, scope);
    lemma_first(l.relations, relation_with_id(scope.predicate_id));
    let relation = l.relation(scope.predicate_id)->0;
    assert(l.unique_relation(f) == Some(relation));
    assert(relation.id == scope.predicate_id);
    assert(d.reconcile_again(scope.kb_id, f) == d || d.reconcile_again(scope.kb_id, f) == d.place(
        scope,
        f.id,
    ));
    lemma_first(rows, row_with_id(f.id));
    if row_on(l, scope, f.id) is Some {
        let x = row_on(l, scope, f.id)->0;
        assert(rows.contains(x) && is_sure(x));
        assert forall|k: int| 0 <= k < rows.len() implies !simultaneous_rival(side, x)(
            #[trigger] rows[k],
        ) && !undated_rival(side, x)(rows[k]) by {
            assert(rows.contains(rows[k]));
            assert(is_sure(rows[k]));
        }
        lemma_filter_none(rows, simultaneous_rival(side, x));
        lemma_filter_none(rows, undated_rival(side, x));
        assert(d.receive(scope, x) == d);
        assert(d.place(scope, f.id) == d.tidy(scope));
    }
    if exists|r: RowModel| #[trigger] rows.contains(r) && r.id == f.id && r.is_open() {
        let r = choose|r: RowModel| #[trigger] rows.contains(r) && r.id == f.id && r.is_open();
        let i = choose|i: int| #[trigger] l.stands(scope, i) && l.row(i) == r;
        lemma_found(l, i);
        assert(l.alive_open(f.id) is Some);
        let k = choose|k: int| 0 <= k < rows.len() && rows[k] == r;
        assert(row_with_id(f.id)(rows[k]));
    }
}

/// A timeline of open rows that are sure, start at different times and say different things, of a
/// relation that is a state and unique on the side of the timeline alone. All open facts of the
/// relation stand on it.
pub open spec fn is_chain(l: LedgerModel, scope: Scope) -> bool {
    &&& l.distinct()
    &&& unique_here(l, scope)
    &&& all_here(l, scope)
    &&& forall|i: int| #[trigger]
        l.stands(scope, i) ==> l.facts[i].is_open() && (l.facts[i].object_id is Some
            || l.facts[i].object_value is Some)
    &&& all_sure(timeline(l, scope))
    &&& none_clash(scope.side, timeline(l, scope))
    &&& values_differ(scope.side, timeline(l, scope))
}

/// What holds of a chain once the first `k` of its facts were reconciled.
spec fn chain_done(d: Desk, scope: Scope, k: int) -> bool {
    let list = replayed(d.ledger, scope, ReplayOrder::Chronological);
    let first_rows = timeline(d.ledger, scope);
    let end = d.reconcile_each(scope.kb_id, list.take(k));
    let rows = timeline(end.ledger, scope);
    &&& end.supplied(d.ids.len() - MAX_TIDY_ROUNDS * k)
    &&& all_sure(rows)
    &&& none_clash(scope.side, rows)
    &&& values_differ(scope.side, rows)
    &&& rows.len() == first_rows.len()
    &&& open_or_ended(scope.side, rows)
    &&& end.ledger.relations == d.ledger.relations
    &&& end.ledger.conflicts == d.ledger.conflicts
    &&& end.report.conflicts == d.report.conflicts
    &&& end.report.corrected.len() + rows.filter(is_open_row()).len()
        == d.report.corrected.len() + first_rows.len()
    &&& forall|r: RowModel| #[trigger]
        rows.contains(r) && r.is_open() ==> first_rows.contains(r)
    &&& forall|j: int, r: RowModel|
        0 <= j < k && #[trigger] rows.contains(r) && r.id == (#[trigger] list[j]).id
            ==> !is_overdue(scope.side, rows, r)
}

/// A row of the chain is that of a fact that is reconciled.
proof fn lemma_row_replayed(l: LedgerModel, scope: Scope, r: RowModel) -> (j: int)
    requires
        is_chain(l, scope),
        timeline(l, scope).contains(r),
    ensures
        0 <= j < replayed(l, scope, ReplayOrder::Chronological).len(),
        replayed(l, scope, ReplayOrder::Chronological)[j].id == r.id,
        replayed(l, scope, ReplayOrder::Chronological)[j].valid_from == r.valid_from,
{
    let list = replayed(l, scope, ReplayOrder::Chronological);
    lemma_replayed(l, scope, ReplayOrder::Chronological);
    lemma_timeline(l, scope);
    let i = choose|i: int| #[trigger] l.stands(scope, i) && l.row(i) == r;
    assert(list.contains(l.facts[i]));
    choose|j: int| 0 <= j < list.len() && list[j] == l.facts[i]
}

/// The facts of a chain, by their start.
proof fn lemma_chain_sorted(l: LedgerModel, scope: Scope, i: int, j: int)
    requires
        is_chain(l, scope),
        0 <= i < j < replayed(l, scope, ReplayOrder::Chronological).len(),
    ensures
        ({
            let list = replayed(l, scope, ReplayOrder::Chronological);
            &&& list[i].valid_from is Some
            &&& list[j].valid_from is Some
            &&& list[i].valid_from->0 < list[j].valid_from->0
            &&& !list[i].confidence.is_low()
            &&& !list[j].confidence.is_low()
        }),
{
    let list = replayed(l, scope, ReplayOrder::Chronological);
    let rows = timeline(l, scope);
    lemma_replayed(l, scope, ReplayOrder::Chronological);
    lemma_timeline(l, scope);
    lemma_arrange(l.facts.filter(on_timeline(scope)), by_start());
    assert(l.facts.contains(list[i]) && l.facts.contains(list[j]));
    let a = choose|a: int| 0 <= a < l.facts.len() && l.facts[a] == list[i];
    let b = choose|b: int| 0 <= b < l.facts.len() && l.facts[b] == list[j];
    assert(l.stands(scope, a) && l.stands(scope, b));
    assert(rows.contains(l.row(a)) && rows.contains(l.row(b)));
    assert(is_sure(l.row(a)) && is_sure(l.row(b)));
    assert(list[i].id != list[j].id);
    assert(l.row(a).valid_from != l.row(b).valid_from);
    assert(no_later(by_start()(list[i]), by_start()(list[j])));
}

/// Once the first `k` facts of a chain were reconciled, none of them is open and has a successor.
proof fn lemma_settled_on(
    l: LedgerModel,
    scope: Scope,
    k: int,
    rows: Seq<RowModel>,
    after: Seq<RowModel>,
)
    requires
        is_chain(l, scope),
        0 < k <= replayed(l, scope, ReplayOrder::Chronological).len(),
        all_sure(rows),
        identified(rows),
        forall|r: RowModel| #[trigger] after.contains(r) ==> is_said(rows, r),
        forall|r: RowModel| #[trigger] after.contains(r) && r.is_open() ==> rows.contains(r),
        forall|r: RowModel| #[trigger]
            rows.contains(r) && r.is_open() ==> timeline(l, scope).contains(r),
        forall|j: int, r: RowModel|
            0 <= j < k - 1 && #[trigger] rows.contains(r) && r.id == (#[trigger] replayed(
                l,
                scope,
                ReplayOrder::Chronological,
            )[j]).id ==> !is_overdue(scope.side, rows, r),
        forall|r: RowModel| #[trigger]
            rows.contains(r) && r.id == replayed(l, scope, ReplayOrder::Chronological)[k - 1].id
                && is_overdue(scope.side, rows, r) && (forall|q: RowModel| #[trigger]
                rows.contains(q) && is_overdue(scope.side, rows, q) ==> r.key()->0 <= q.key()->0)
                ==> !after.contains(r),
    ensures
        forall|j: int, r: RowModel|
            0 <= j < k && #[trigger] after.contains(r) && r.id == (#[trigger] replayed(
                l,
                scope,
                ReplayOrder::Chronological,
            )[j]).id ==> !is_overdue(scope.side, after, r),
{
    let side = scope.side;
    let list = replayed(l, scope, ReplayOrder::Chronological);
    lemma_replayed(l, scope, ReplayOrder::Chronological);
    assert forall|j: int, r: RowModel|
        0 <= j < k && #[trigger] after.contains(r) && r.id == (#[trigger] list[j]).id implies
        !is_overdue(side, after, r) by {
        if r.is_open() {
            assert(rows.contains(r));
            if successor(side, rows, r) is None {
                lemma_none_follows(side, rows, after, r);
            } else {
                assert(is_overdue(side, rows, r));
                assert(j == k - 1);
                assert forall|q: RowModel| #[trigger]
                    rows.contains(q) && is_overdue(side, rows, q) implies r.key()->0
                    <= q.key()->0 by {
                    let a = lemma_row_replayed(l, scope, r);
                    let b = lemma_row_replayed(l, scope, q);
                    assert(is_sure(r) && is_sure(q));
                    if a < k - 1 {
                        assert(list[a].id != list[k - 1].id);
                    }
                    if a > k - 1 {
                        assert(list[k - 1].id != list[a].id);
                    }
                    if b < k - 1 {
                        assert(!is_overdue(side, rows, q));
                    } else if b > k - 1 {
                        lemma_chain_sorted(l, scope, k - 1, b);
                    }
                }
            }
        }
    }
}

proof fn lemma_chain_each(d: Desk, scope: Scope, k: int)
    requires
        is_chain(d.ledger, scope),
        d.supplied(MAX_TIDY_ROUNDS * timeline(d.ledger, scope).len()),
        0 <= k <= timeline(d.ledger, scope).len(),
    ensures
        chain_done(d, scope, k),
    decreases k,
{
    let side = scope.side;
    let l = d.ledger;
    let list = replayed(l, scope, ReplayOrder::Chronological);
    let first_rows = timeline(l, scope);
    lemma_replayed(l, scope, ReplayOrder::Chronological);
    lemma_timeline(l, scope);
    if k == 0 {
        assert forall|i: int| 0 <= i < first_rows.len() implies is_open_row()(
            #[trigger] first_rows[i],
        ) by {
            assert(first_rows.contains(first_rows[i]));
        }
        lemma_filter_all(first_rows, is_open_row());
    } else {
        lemma_chain_each(d, scope, k - 1);
        let f = list[k - 1];
        let mid = d.reconcile_each(scope.kb_id, list.take(k - 1));
        let rows = timeline(mid.ledger, scope);
        let end = d.reconcile_each(scope.kb_id, list.take(k));
        let after = timeline(end.ledger, scope);
        assert(list.take(k).drop_last() =~= list.take(k - 1));
        assert(list.take(k).last() == f);
        assert(end == mid.reconcile_again(scope.kb_id, f));
        assert(l.facts.contains(f) && on_timeline(scope)(f));
        let i = choose|i: int| 0 <= i < l.facts.len() && l.facts[i] == f;
        assert(l.stands(scope, i));
        assert(unique_here(mid.ledger, scope));
        lemma_reconcile_sure(mid, scope, f);
        lemma_tidy_sure(mid, scope, MAX_TIDY_ROUNDS as nat);
        lemma_tidy_chain(mid, scope, MAX_TIDY_ROUNDS as nat);
        lemma_tidy_keeps(mid, scope, Seq::empty(), MAX_TIDY_ROUNDS as nat);
        lemma_rows_identified(mid.ledger, scope);
        lemma_same_said(rows);
        assert(same_said(rows, after));
        assert forall|r: RowModel| #[trigger] after.contains(r) && r.is_open() implies
            first_rows.contains(r) by {
            assert(rows.contains(r));
        }
        lemma_settled_on(l, scope, k, rows, after);
    }
}

/// On a timeline on which no open row has a successor, and all others end where theirs starts, one
/// row is open.
proof fn lemma_one_open(side: Uniqueness, rows: Seq<RowModel>)
    requires
        rows.len() > 0,
        tell_apart(rows),
        all_sure(rows),
        none_clash(side, rows),
        values_differ(side, rows),
        open_or_ended(side, rows),
        forall|r: RowModel| #[trigger] rows.contains(r) ==> !is_overdue(side, rows, r),
    ensures
        rows.filter(is_open_row()).len() == 1,
{
    let opened = rows.filter(is_open_row());
    let ordered = in_time_order(rows);
    lemma_time_order(rows);
    lemma_filter_apart(rows, is_open_row());
    assert(rows.contains(rows[0]));
    assert(is_sure(rows[0]));
    assert(ordered.contains(rows[0]));
    let last = ordered[ordered.len() - 1];
    assert(ordered.contains(last));
    assert(rows.contains(last));
    lemma_successor(side, rows, last);
    if successor(side, rows, last) is Some {
        let s = successor(side, rows, last)->0;
        assert(ordered.contains(s));
        let k = choose|k: int| 0 <= k < ordered.len() && ordered[k] == s;
        assert(ordered[k].key()->0 <= ordered[ordered.len() - 1].key()->0);
    }
    assert(last.is_open());
    lemma_filter_contains(rows, is_open_row(), last);
    if opened.len() >= 2 {
        let a = opened[0];
        let b = opened[1];
        assert(opened.contains(a) && opened.contains(b));
        lemma_filter_contains(rows, is_open_row(), a);
        lemma_filter_contains(rows, is_open_row(), b);
        assert(a.id != b.id);
        assert(is_sure(a) && is_sure(b));
        assert(a.valid_from != b.valid_from);
        lemma_successor(side, rows, a);
        lemma_successor(side, rows, b);
        if a.key()->0 < b.key()->0 {
            assert(follows(side, a)(b));
        } else {
            assert(follows(side, b)(a));
        }
    }
}

/// The estimate is what reconciling comes to: a chain of sure values that start one after another
/// falls into sequence when its relation is reconciled, however long it is. All rows but the last
/// are closed, which is what the estimate said, and nothing is left to a person.
pub proof fn law_a_chain_comes_to_its_estimate(d: Desk, scope: Scope)
    requires
        is_chain(d.ledger, scope),
        timeline(d.ledger, scope).len() > 0,
        d.supplied(MAX_TIDY_ROUNDS * timeline(d.ledger, scope).len()),
    ensures
        ({
            let n = timeline(d.ledger, scope).len();
            let end = d.reconcile_open(
                scope.kb_id,
                open_ids(d.ledger, scope.kb_id, scope.predicate_id),
                ReplayOrder::Chronological,
            );
            &&& end.report.corrected.len() - d.report.corrected.len() == n - 1
            &&& end.report.conflicts == d.report.conflicts
            &&& end.ledger.conflicts == d.ledger.conflicts
            &&& timeline(end.ledger, scope).len() == n
            &&& in_sequence(scope.side, timeline(end.ledger, scope))
            &&& are_listed(d.ledger, scope) ==> {
                &&& plan(values_of(d.ledger, scope)).close == n - 1
                &&& plan(values_of(d.ledger, scope)).review == 0
            }
        }),
{
    let l = d.ledger;
    let side = scope.side;
    let n = timeline(l, scope).len();
    let list = replayed(l, scope, ReplayOrder::Chronological);
    lemma_replayed(l, scope, ReplayOrder::Chronological);
    lemma_chain_each(d, scope, n as int);
    assert(list.take(n as int) =~= list);
    let end = d.reconcile_each(scope.kb_id, list);
    let rows = timeline(end.ledger, scope);
    assert forall|r: RowModel| #[trigger] rows.contains(r) implies !is_overdue(side, rows, r) by {
        if r.is_open() {
            let j = lemma_row_replayed(l, scope, r);
            assert(list[j].id == r.id);
        }
    }
    lemma_timeline_apart(end.ledger, scope);
    lemma_one_open(side, rows);
    if are_listed(l, scope) {
        let values = values_of(l, scope);
        lemma_open_values(l, scope);
        assert forall|k: int| 0 <= k < values.len() implies (#[trigger] values[k]).valid_from
            is Some && !values[k].confidence.is_low() by {
            assert(l.facts.contains(list[k]));
            let i = choose|i: int| 0 <= i < l.facts.len() && l.facts[i] == list[k];
            lemma_timeline(l, scope);
            assert(l.stands(scope, i));
            assert(timeline(l, scope).contains(l.row(i)));
            assert(is_sure(l.row(i)));
        }
        assert forall|a: int, b: int| 0 <= a < b < values.len() implies (
        #[trigger] values[a]).valid_from->0 < (#[trigger] values[b]).valid_from->0 by {
            lemma_chain_sorted(l, scope, a, b);
        }
        law_a_chain_closes_all_but_the_last(values);
    }
}

} // verus!
