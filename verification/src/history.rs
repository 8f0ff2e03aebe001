//! The record: what was known stays known, and every change is written down.

use crate::engine::{closed_by, Desk};
use crate::handover::{lemma_raise, lemma_same_timeline};
use crate::identity::{lemma_close_at, lemma_dates_carry_over, lemma_found, lemma_timeline};
use crate::ledger::{
    evidence_for, evidence_of, qualifier_for, qualifier_of, struck, ChangeModel, Evidence,
    FactModel, LedgerModel, Qualifier,
};
use crate::order::lemma_first;
use crate::replay::ReplayOrder;
use crate::rewrite::alive_with_id;
use crate::timeline::{timeline, RowModel, Scope, Uniqueness};
use crate::validity::{truncated_to, ENDED_UNKNOWN};
use crate::walk::{enough, enough_for, goes_on, is_kept, lemma_enough_more, lemma_open, lemma_place};
use vstd::prelude::*;

verus! {

/// `a` is the beginning of `b`.
pub open spec fn begins<A>(a: Seq<A>, b: Seq<A>) -> bool {
    a.len() <= b.len() && a == b.take(a.len() as int)
}

/// A fact as it is, or invalidated at `now`.
pub open spec fn same_or_struck(before: FactModel, after: FactModel, now: i64) -> bool {
    after == before || (before.is_alive() && after == (FactModel {
        invalidated_at: Some(now),
        ..before
    }))
}

/// The fact `i` was written to close an earlier one at the start of some row in which the
/// confidence is not low.
pub open spec fn closes_another(l: LedgerModel, i: int, now: i64) -> bool {
    exists|j: int, k: int|
        0 <= j < i && 0 <= k < l.facts.len() && !(#[trigger] l.facts[k]).confidence.is_low() && (
        FactModel { invalidated_at: None, ..l.facts[i] }) == closed_by(
            #[trigger] l.facts[j],
            l.facts[i].id,
            l.row(k),
            now,
        )
}

/// The record went on at `now`: no fact was edited or lost, present ones may have been
/// invalidated, and those that were added close earlier ones.
pub open spec fn went_on(before: LedgerModel, after: LedgerModel, now: i64) -> bool {
    &&& before.facts.len() <= after.facts.len()
    &&& forall|i: int|
        0 <= i < before.facts.len() ==> same_or_struck(
            before.facts[i],
            #[trigger] after.facts[i],
            now,
        )
    &&& forall|i: int|
        before.facts.len() <= i < after.facts.len() ==> {
            &&& (#[trigger] after.facts[i]).recorded_at == now
            &&& after.facts[i].is_alive() || after.facts[i].invalidated_at == Some(now)
        }
    &&& forall|i: int|
        before.facts.len() <= i < after.facts.len() ==> #[trigger] closes_another(after, i, now)
    &&& forall|i: int|
        0 <= i < before.facts.len() ==> #[trigger] after.row(i) == before.row(i)
    &&& after.documents == before.documents
    &&& after.relations == before.relations
    &&& after.entities == before.entities
    &&& begins(before.conflicts, after.conflicts)
}

/// The record goes on where nothing happens.
pub proof fn lemma_went_on_same(l: LedgerModel, now: i64)
    ensures
        went_on(l, l, now),
{
    assert(l.conflicts.take(l.conflicts.len() as int) =~= l.conflicts);
}

/// The record goes on step by step.
pub proof fn lemma_went_on_further(a: LedgerModel, b: LedgerModel, c: LedgerModel, now: i64)
    requires
        went_on(a, b, now),
        went_on(b, c, now),
    ensures
        went_on(a, c, now),
{
    assert forall|i: int| 0 <= i < a.facts.len() implies same_or_struck(
        a.facts[i],
        #[trigger] c.facts[i],
        now,
    ) by {
        assert(same_or_struck(a.facts[i], b.facts[i], now));
        assert(same_or_struck(b.facts[i], c.facts[i], now));
    }
    assert forall|i: int| a.facts.len() <= i < c.facts.len() implies {
        &&& (#[trigger] c.facts[i]).recorded_at == now
        &&& c.facts[i].is_alive() || c.facts[i].invalidated_at == Some(now)
    } by {
        if i < b.facts.len() {
            assert(b.facts[i].recorded_at == now);
            assert(same_or_struck(b.facts[i], c.facts[i], now));
        }
    }
    assert forall|i: int| a.facts.len() <= i < c.facts.len() implies #[trigger] closes_another(
        c,
        i,
        now,
    ) by {
        if i < b.facts.len() {
            assert(closes_another(b, i, now));
            let (j, k) = choose|j: int, k: int|
                0 <= j < i && 0 <= k < b.facts.len() && !(
                #[trigger] b.facts[k]).confidence.is_low() && (FactModel {
                    invalidated_at: None,
                    ..b.facts[i]
                }) == closed_by(#[trigger] b.facts[j], b.facts[i].id, b.row(k), now);
            assert(same_or_struck(b.facts[i], c.facts[i], now));
            assert(same_or_struck(b.facts[j], c.facts[j], now));
            assert(same_or_struck(b.facts[k], c.facts[k], now));
            assert(c.row(k) == b.row(k));
            assert(!c.facts[k].confidence.is_low());
            assert((FactModel { invalidated_at: None, ..c.facts[i] }) == closed_by(
                c.facts[j],
                c.facts[i].id,
                c.row(k),
                now,
            ));
        }
    }
    assert forall|i: int| 0 <= i < a.facts.len() implies #[trigger] c.row(i) == a.row(i) by {
        assert(b.row(i) == a.row(i));
    }
    assert(a.conflicts =~= c.conflicts.take(a.conflicts.len() as int)) by {
        assert forall|i: int| 0 <= i < a.conflicts.len() implies a.conflicts[i]
            == c.conflicts[i] by {
            assert(b.conflicts.take(a.conflicts.len() as int)[i] == b.conflicts[i]);
            assert(c.conflicts.take(b.conflicts.len() as int)[i] == c.conflicts[i]);
        }
    }
}

/// A row is that of some fact, present or not.
pub open spec fn is_row(l: LedgerModel, r: RowModel) -> bool {
    exists|i: int| 0 <= i < l.facts.len() && #[trigger] l.row(i) == r
}

/// The row of a fact stays its row.
pub proof fn lemma_still_row(a: LedgerModel, b: LedgerModel, now: i64, r: RowModel)
    requires
        went_on(a, b, now),
        is_row(a, r),
    ensures
        is_row(b, r),
{
    let i = choose|i: int| 0 <= i < a.facts.len() && #[trigger] a.row(i) == r;
    assert(b.row(i) == r);
}

/// The engine went on by a step, which takes one identifier at most.
spec fn stepped(d: Desk, after: Desk) -> bool {
    &&& after.now == d.now
    &&& went_on(d.ledger, after.ledger, d.now)
    &&& after.supplied(d.ids.len() - 1)
    &&& after.ledger.facts.len() <= d.ledger.facts.len() + 1
}

proof fn lemma_raise_steps(
    d: Desk,
    kb_id: u128,
    old_fact_id: u128,
    new_fact_id: u128,
    reason: Seq<char>,
)
    requires
        d.supplied(1),
    ensures
        stepped(d, d.raise(kb_id, old_fact_id, new_fact_id, reason)),
{
    let after = d.raise(kb_id, old_fact_id, new_fact_id, reason);
    let scope = Scope { kb_id, holder: 0, predicate_id: 0, side: Uniqueness::SubjectSide };
    lemma_raise(d, scope, kb_id, old_fact_id, new_fact_id, reason);
    lemma_same_timeline(d.ledger, after.ledger, scope);
    assert(d.ledger.conflicts =~= after.ledger.conflicts.take(d.ledger.conflicts.len() as int));
}

proof fn lemma_close_steps(d: Desk, row: RowModel, next: RowModel)
    requires
        d.supplied(1),
        is_row(d.ledger, next),
        !next.confidence.is_low(),
    ensures
        stepped(d, d.close_at(row, next)),
{
    let after = d.close_at(row, next);
    lemma_first(d.ledger.facts, alive_with_id(row.id));
    if d.ledger.alive(row.id) is Some {
        let f = d.ledger.alive(row.id)->0;
        let i = choose|i: int| 0 <= i < d.ledger.facts.len() && d.ledger.facts[i] == f;
        let n = d.ledger.facts.len() as int;
        let scope = Scope {
            kb_id: 0,
            holder: 0,
            predicate_id: 0,
            side: Uniqueness::SubjectSide,
        };
        lemma_close_at(d, scope, i, next);
        lemma_found(d.ledger, i);
        let l = d.ledger;
        let l1 = after.ledger;
        assert(after == d.close_at(l.row(i), next));
        assert forall|j: int| 0 <= j < n implies same_or_struck(
            l.facts[j],
            #[trigger] l1.facts[j],
            d.now,
        ) by {
            if j != i {
                assert(l1.facts[j] == l.facts[j]);
            }
        }
        assert forall|j: int| 0 <= j < n implies #[trigger] l1.row(j) == l.row(j) by {
            if j == i {
                lemma_dates_carry_over(
                    l.evidence,
                    l.documents,
                    f.id,
                    d.ids[0],
                    f.id,
                );
                assert(l.unused(d.ids[0]));
            }
        }
        assert(closes_another(l1, n, d.now)) by {
            let k = choose|k: int| 0 <= k < l.facts.len() && #[trigger] l.row(k) == next;
            assert(l1.row(k) == next);
            assert(same_or_struck(l.facts[k], l1.facts[k], d.now));
            assert(!l1.facts[k].confidence.is_low());
            assert((FactModel { invalidated_at: None, ..l1.facts[n] }) == closed_by(
                l1.facts[i],
                l1.facts[n].id,
                l1.row(k),
                d.now,
            ));
        }
        assert(l.conflicts =~= l1.conflicts.take(l.conflicts.len() as int));
    } else {
        lemma_went_on_same(d.ledger, d.now);
    }
}

/// The record goes on from `d` while the engine may take so many more steps.
spec fn on_record(d: Desk, total: int) -> spec_fn(Desk, int) -> bool {
    |e: Desk, n: int|
        {
            &&& e.now == d.now
            &&& went_on(d.ledger, e.ledger, d.now)
            &&& 0 <= n
            &&& e.supplied(n)
            &&& e.ledger.facts.len() + n <= total
        }
}

/// A row may be closed at that of some fact.
spec fn row_of_fact() -> spec_fn(Desk, RowModel) -> bool {
    |e: Desk, r: RowModel| is_row(e.ledger, r)
}

/// With every step of the engine the record goes on.
proof fn lemma_on_record(d: Desk, total: int)
    ensures
        is_kept(on_record(d, total), row_of_fact(), total),
{
    let p = on_record(d, total);
    let q = row_of_fact();
    assert forall|e: Desk, scope: Scope, r: RowModel| #[trigger]
        timeline(e.ledger, scope).contains(r) implies q(e, r) by {
        lemma_timeline(e.ledger, scope);
        let i = choose|i: int| #[trigger] e.ledger.stands(scope, i) && e.ledger.row(i) == r;
        assert(e.ledger.row(i) == r);
    }
    assert forall|e: Desk, n: int, kb_id: u128, a: u128, b: u128, reason: Seq<char>|
        #![trigger p(e, n), e.raise(kb_id, a, b, reason)]
        p(e, n) && n > 0 implies p(e.raise(kb_id, a, b, reason), n - 1) && goes_on(
        q,
        e,
        e.raise(kb_id, a, b, reason),
    ) by {
        lemma_raise_steps(e, kb_id, a, b, reason);
        lemma_on_record_further(d, total, e, e.raise(kb_id, a, b, reason), n);
    }
    assert forall|e: Desk, n: int, row: RowModel, next: RowModel|
        #![trigger p(e, n), e.close_at(row, next)]
        p(e, n) && n > 0 && q(e, next) && !next.confidence.is_low() implies p(
        e.close_at(row, next),
        n - 1,
    ) && goes_on(q, e, e.close_at(row, next)) by {
        lemma_close_steps(e, row, next);
        lemma_on_record_further(d, total, e, e.close_at(row, next), n);
    }
}

proof fn lemma_on_record_further(d: Desk, total: int, e: Desk, after: Desk, n: int)
    requires
        on_record(d, total)(e, n),
        n > 0,
        stepped(e, after),
    ensures
        on_record(d, total)(after, n - 1),
        goes_on(row_of_fact(), e, after),
{
    let q = row_of_fact();
    lemma_went_on_further(d.ledger, e.ledger, after.ledger, d.now);
    assert forall|r: RowModel| #[trigger] q(e, r) implies q(after, r) by {
        lemma_still_row(e.ledger, after.ledger, e.now, r);
    }
}

/// With a fact that is placed the record goes on.
proof fn lemma_placed_on_record(d: Desk, scope: Scope, fact_id: u128)
    requires
        d.supplied(enough(d.ledger.facts.len() as int)),
    ensures
        went_on(d.ledger, d.place(scope, fact_id).ledger, d.now),
{
    let n = enough(d.ledger.facts.len() as int);
    let total = d.ledger.facts.len() + n;
    let p = on_record(d, total);
    lemma_on_record(d, total);
    lemma_went_on_same(d.ledger, d.now);
    assert(p(d, n));
    lemma_place(p, row_of_fact(), total, d, n, scope, fact_id);
}

/// With facts that are reconciled once more the record goes on.
proof fn lemma_replayed_on_record(d: Desk, kb_id: u128, ids: Seq<u128>, order: ReplayOrder)
    requires
        d.supplied(enough_for(d.ledger.facts.len(), d.ledger.facts.len() as int)),
    ensures
        went_on(d.ledger, d.reconcile_open(kb_id, ids, order).ledger, d.now),
{
    let facts = d.ledger.facts.len();
    let n = enough_for(facts, facts as int);
    let total = facts + n;
    let p = on_record(d, total);
    lemma_enough_more(0, facts, facts as int);
    lemma_on_record(d, total);
    lemma_went_on_same(d.ledger, d.now);
    assert(p(d, n));
    lemma_open(p, row_of_fact(), total, d, n, kb_id, ids, order);
}

/// A fact that was known at `t`: recorded by then, and not yet invalidated.
pub open spec fn known(t: i64) -> spec_fn(FactModel) -> bool {
    |f: FactModel| f.recorded_at <= t && (f.invalidated_at is None || f.invalidated_at->0 > t)
}

/// A fact as it was while it was known.
pub open spec fn as_known() -> spec_fn(FactModel) -> FactModel {
    |f: FactModel| FactModel { invalidated_at: None, ..f }
}

/// The record as it was at `t`.
pub open spec fn record_at(l: LedgerModel, t: i64) -> Seq<FactModel> {
    l.facts.filter(known(t)).map_values(as_known())
}

/// The facts of a ledger are kept: none is edited or lost, present ones may have been
/// invalidated at `now`, and what was added was recorded at `now`.
pub open spec fn facts_kept(before: LedgerModel, after: LedgerModel, now: i64) -> bool {
    &&& before.facts.len() <= after.facts.len()
    &&& forall|i: int|
        0 <= i < before.facts.len() ==> same_or_struck(
            before.facts[i],
            #[trigger] after.facts[i],
            now,
        )
    &&& forall|i: int|
        before.facts.len() <= i < after.facts.len() ==> (#[trigger] after.facts[i]).recorded_at
            == now
}

proof fn lemma_same_record(a: Seq<FactModel>, b: Seq<FactModel>, now: i64, t: i64)
    requires
        t < now,
        a.len() <= b.len(),
        forall|i: int| 0 <= i < a.len() ==> same_or_struck(a[i], #[trigger] b[i], now),
        forall|i: int| a.len() <= i < b.len() ==> (#[trigger] b[i]).recorded_at == now,
    ensures
        b.filter(known(t)).map_values(as_known()) == a.filter(known(t)).map_values(as_known()),
    decreases b.len(),
{
    reveal(Seq::filter);
    if b.len() > 0 {
        let shorter = b.drop_last();
        if a.len() < b.len() {
            assert forall|i: int| 0 <= i < a.len() implies same_or_struck(
                a[i],
                #[trigger] shorter[i],
                now,
            ) by {
                assert(shorter[i] == b[i]);
            }
            assert forall|i: int| a.len() <= i < shorter.len() implies (
            #[trigger] shorter[i]).recorded_at == now by {
                assert(shorter[i] == b[i]);
            }
            lemma_same_record(a, shorter, now, t);
            assert(b[b.len() - 1].recorded_at == now);
            assert(!known(t)(b.last()));
        } else {
            let head = a.drop_last();
            assert forall|i: int| 0 <= i < head.len() implies same_or_struck(
                head[i],
                #[trigger] shorter[i],
                now,
            ) by {
                assert(head[i] == a[i] && shorter[i] == b[i]);
            }
            lemma_same_record(head, shorter, now, t);
            assert(same_or_struck(a[a.len() - 1], b[b.len() - 1], now));
            let x = head.filter(known(t));
            let y = shorter.filter(known(t));
            assert(known(t)(a.last()) == known(t)(b.last()));
            if known(t)(a.last()) {
                assert(x.push(a.last()).map_values(as_known()) =~= x.map_values(as_known()).push(
                    as_known()(a.last()),
                ));
                assert(y.push(b.last()).map_values(as_known()) =~= y.map_values(as_known()).push(
                    as_known()(b.last()),
                ));
            }
        }
    } else {
        assert(b =~= a);
    }
}

/// What was known at a time before a correction can be read as it was then.
pub proof fn law_the_past_stays_as_it_was(
    before: LedgerModel,
    after: LedgerModel,
    now: i64,
    t: i64,
)
    requires
        facts_kept(before, after, now),
        t < now,
    ensures
        record_at(after, t) == record_at(before, t),
{
    lemma_same_record(before.facts, after.facts, now, t);
}

/// A change at `now` that takes out of the present record only what is in it.
pub open spec fn is_orderly(l: LedgerModel, change: ChangeModel, now: i64) -> bool {
    match change {
        ChangeModel::Rewrite { replaced, fact, at } => at == now && fact.recorded_at == now
            && forall|i: int|
            0 <= i < l.facts.len() && (#[trigger] l.facts[i]).id == replaced
                ==> l.facts[i].is_alive(),
        ChangeModel::Invalidate { fact_id, at } => at == now && forall|i: int|
            0 <= i < l.facts.len() && (#[trigger] l.facts[i]).id == fact_id
                ==> l.facts[i].is_alive(),
        ChangeModel::Restore { fact_id } => false,
        _ => true,
    }
}

/// A fact is never edited: an orderly change keeps all facts.
pub proof fn law_changes_keep_the_facts(l: LedgerModel, change: ChangeModel, now: i64)
    requires
        is_orderly(l, change, now),
    ensures
        facts_kept(l, l.commit(change), now),
{
    let after = l.commit(change);
    assert forall|i: int| 0 <= i < l.facts.len() implies same_or_struck(
        l.facts[i],
        #[trigger] after.facts[i],
        now,
    ) by {
        match change {
            ChangeModel::Rewrite { replaced, fact, at } => {
                assert(after.facts[i] == struck(replaced, at)(l.facts[i]));
            },
            ChangeModel::Invalidate { fact_id, at } => {
                assert(after.facts[i] == struck(fact_id, at)(l.facts[i]));
            },
            _ => {},
        }
    }
}

/// Placing a fact keeps the record of any earlier time as it was.
pub proof fn law_placing_keeps_the_past(d: Desk, scope: Scope, fact_id: u128, t: i64)
    requires
        d.supplied(enough(d.ledger.facts.len() as int)),
        t < d.now,
    ensures
        went_on(d.ledger, d.place(scope, fact_id).ledger, d.now),
        record_at(d.place(scope, fact_id).ledger, t) == record_at(d.ledger, t),
{
    lemma_placed_on_record(d, scope, fact_id);
    law_the_past_stays_as_it_was(d.ledger, d.place(scope, fact_id).ledger, d.now, t);
}

/// Reconciling facts once more keeps the record of any earlier time as it was: what was open
/// before a relation was declared unique can still be read as open.
pub proof fn law_reconciling_keeps_the_past(
    d: Desk,
    kb_id: u128,
    ids: Seq<u128>,
    order: ReplayOrder,
    t: i64,
)
    requires
        d.supplied(enough_for(d.ledger.facts.len(), d.ledger.facts.len() as int)),
        t < d.now,
    ensures
        went_on(d.ledger, d.reconcile_open(kb_id, ids, order).ledger, d.now),
        record_at(d.reconcile_open(kb_id, ids, order).ledger, t) == record_at(d.ledger, t),
{
    lemma_replayed_on_record(d, kb_id, ids, order);
    law_the_past_stays_as_it_was(
        d.ledger,
        d.reconcile_open(kb_id, ids, order).ledger,
        d.now,
        t,
    );
}

/// An end is written only from the world: the day on which a row that the engine wrote has ended
/// is the start of some fact, cut down to its precision; the date of a document is never written
/// as one. A row without such a day has ended on an unknown one.
pub proof fn law_ends_are_starts(before: LedgerModel, after: LedgerModel, now: i64, i: int)
    requires
        went_on(before, after, now),
        before.facts.len() <= i < after.facts.len(),
    ensures
        after.facts[i].valid_to is Some ==> exists|k: int|
            0 <= k < after.facts.len() && (#[trigger] after.facts[k]).valid_from is Some
                && !after.facts[k].confidence.is_low() && after.facts[i].valid_to == Some(
                truncated_to(
                    after.facts[k].valid_from->0,
                    Some(
                        match after.facts[k].valid_from_precision {
                            Some(p) => p,
                            None => "day"@,
                        },
                    ),
                ),
            ),
        after.facts[i].valid_to is None ==> after.facts[i].valid_to_precision == Some(
            ENDED_UNKNOWN@,
        ) && after.facts[i].attested_to is Some,
{
    assert(closes_another(after, i, now));
    let (j, k) = choose|j: int, k: int|
        0 <= j < i && 0 <= k < after.facts.len() && !(
        #[trigger] after.facts[k]).confidence.is_low() && (FactModel {
            invalidated_at: None,
            ..after.facts[i]
        }) == closed_by(#[trigger] after.facts[j], after.facts[i].id, after.row(k), now);
    let g = closed_by(after.facts[j], after.facts[i].id, after.row(k), now);
    assert(after.facts[i].valid_to == g.valid_to);
    assert(after.facts[i].valid_to_precision == g.valid_to_precision);
    assert(after.facts[i].attested_to == g.attested_to);
    assert(after.row(k).valid_from == after.facts[k].valid_from);
    assert(after.row(k).valid_from_precision == after.facts[k].valid_from_precision);
}

/// A row that the engine wrote supersedes an earlier one, and says what that one says but for its
/// end.
pub proof fn law_a_correction_changes_only_the_end(
    before: LedgerModel,
    after: LedgerModel,
    now: i64,
    i: int,
)
    requires
        went_on(before, after, now),
        before.facts.len() <= i < after.facts.len(),
    ensures
        exists|j: int|
            0 <= j < i && after.facts[i].supersedes == Some((#[trigger] after.facts[j]).id)
                && after.facts[i] == (FactModel {
                id: after.facts[i].id,
                valid_to: after.facts[i].valid_to,
                valid_to_precision: after.facts[i].valid_to_precision,
                attested_to: after.facts[i].attested_to,
                supersedes: Some(after.facts[j].id),
                recorded_at: now,
                invalidated_at: after.facts[i].invalidated_at,
                ..after.facts[j]
            }),
{
    assert(closes_another(after, i, now));
    let (j, k) = choose|j: int, k: int|
        0 <= j < i && 0 <= k < after.facts.len() && !(
        #[trigger] after.facts[k]).confidence.is_low() && (FactModel {
            invalidated_at: None,
            ..after.facts[i]
        }) == closed_by(#[trigger] after.facts[j], after.facts[i].id, after.row(k), now);
    let g = closed_by(after.facts[j], after.facts[i].id, after.row(k), now);
    assert(after.facts[i] == (FactModel { invalidated_at: after.facts[i].invalidated_at, ..g }));
    assert(after.facts[i].supersedes == Some(after.facts[j].id));
}

proof fn lemma_filter_split<A>(a: Seq<A>, b: Seq<A>, p: spec_fn(A) -> bool)
    ensures
        (a + b).filter(p) == a.filter(p) + b.filter(p),
    decreases b.len(),
{
    reveal(Seq::filter);
    if b.len() == 0 {
        assert(a + b =~= a);
        assert(a.filter(p) + b.filter(p) =~= a.filter(p));
    } else {
        lemma_filter_split(a, b.drop_last(), p);
        assert((a + b).drop_last() =~= a + b.drop_last());
        assert((a + b).last() == b.last());
        assert((a + b).filter(p) =~= a.filter(p) + b.filter(p));
    }
}

/// A filter that everything meets leaves everything.
pub proof fn lemma_filter_all<A>(s: Seq<A>, p: spec_fn(A) -> bool)
    requires
        forall|i: int| 0 <= i < s.len() ==> p(#[trigger] s[i]),
    ensures
        s.filter(p) == s,
    decreases s.len(),
{
    reveal(Seq::filter);
    if s.len() > 0 {
        let head = s.drop_last();
        assert forall|i: int| 0 <= i < head.len() implies p(#[trigger] head[i]) by {
            assert(head[i] == s[i]);
        }
        lemma_filter_all(head, p);
        assert(p(s[s.len() - 1]));
        assert(s.filter(p) =~= s);
    }
}

/// A filter that nothing meets leaves nothing.
pub proof fn lemma_filter_none<A>(s: Seq<A>, p: spec_fn(A) -> bool)
    requires
        forall|i: int| 0 <= i < s.len() ==> !p(#[trigger] s[i]),
    ensures
        s.filter(p) == Seq::<A>::empty(),
    decreases s.len(),
{
    reveal(Seq::filter);
    if s.len() > 0 {
        let head = s.drop_last();
        assert forall|i: int| 0 <= i < head.len() implies !p(#[trigger] head[i]) by {
            assert(head[i] == s[i]);
        }
        lemma_filter_none(head, p);
        assert(!p(s[s.len() - 1]));
    }
}

/// Evidence goes along with a correction: the new row has the evidence of the old one, which
/// keeps it.
pub proof fn law_evidence_goes_along(l: LedgerModel, replaced: u128, fact: FactModel, at: i64)
    requires
        l.unused(fact.id),
        replaced != fact.id,
    ensures
        ({
            let after = l.commit(ChangeModel::Rewrite { replaced, fact, at });
            &&& after.evidence.filter(evidence_of(fact.id)) == l.evidence.filter(
                evidence_of(replaced),
            ).map_values(evidence_for(fact.id))
            &&& after.evidence.filter(evidence_of(replaced)) == l.evidence.filter(
                evidence_of(replaced),
            )
        }),
{
    let copies = l.evidence.filter(evidence_of(replaced)).map_values(evidence_for(fact.id));
    lemma_filter_split(l.evidence, copies, evidence_of(fact.id));
    lemma_filter_split(l.evidence, copies, evidence_of(replaced));
    lemma_filter_none(l.evidence, evidence_of(fact.id));
    lemma_filter_all(copies, evidence_of(fact.id));
    lemma_filter_none(copies, evidence_of(replaced));
    assert(Seq::<Evidence>::empty() + copies =~= copies);
    assert(l.evidence.filter(evidence_of(replaced)) + Seq::<Evidence>::empty()
        =~= l.evidence.filter(evidence_of(replaced)));
}

/// What qualifies a fact goes along with a correction: closing a term of office does not lose the
/// office.
pub proof fn law_qualifiers_go_along(l: LedgerModel, replaced: u128, fact: FactModel, at: i64)
    requires
        forall|i: int|
            0 <= i < l.qualifiers.len() ==> (#[trigger] l.qualifiers[i]).fact_id != fact.id,
        replaced != fact.id,
    ensures
        ({
            let after = l.commit(ChangeModel::Rewrite { replaced, fact, at });
            &&& after.qualifiers.filter(qualifier_of(fact.id)) == l.qualifiers.filter(
                qualifier_of(replaced),
            ).map_values(qualifier_for(fact.id))
            &&& after.qualifiers.filter(qualifier_of(replaced)) == l.qualifiers.filter(
                qualifier_of(replaced),
            )
        }),
{
    let copies = l.qualifiers.filter(qualifier_of(replaced)).map_values(qualifier_for(fact.id));
    lemma_filter_split(l.qualifiers, copies, qualifier_of(fact.id));
    lemma_filter_split(l.qualifiers, copies, qualifier_of(replaced));
    lemma_filter_none(l.qualifiers, qualifier_of(fact.id));
    lemma_filter_all(copies, qualifier_of(fact.id));
    lemma_filter_none(copies, qualifier_of(replaced));
    assert(Seq::<Qualifier>::empty() + copies =~= copies);
    assert(l.qualifiers.filter(qualifier_of(replaced)) + Seq::<Qualifier>::empty()
        =~= l.qualifiers.filter(qualifier_of(replaced)));
}

/// A fact that was written to take the place of the fact `id`.
pub open spec fn takes_place_of(id: u128) -> spec_fn(FactModel) -> bool {
    |f: FactModel| f.supersedes == Some(id)
}

/// Striking facts out changes nothing of what takes whose place.
proof fn lemma_struck_place(facts: Seq<FactModel>, replaced: u128, at: i64)
    ensures
        facts.map_values(struck(replaced, at)).filter(takes_place_of(replaced)).len()
            == facts.filter(takes_place_of(replaced)).len(),
    decreases facts.len(),
{
    reveal(Seq::filter);
    if facts.len() > 0 {
        lemma_struck_place(facts.drop_last(), replaced, at);
        let all = facts.map_values(struck(replaced, at));
        assert(all.drop_last() =~= facts.drop_last().map_values(struck(replaced, at)));
        assert(all.last() == struck(replaced, at)(facts.last()));
    }
}

/// The fact `id` is no longer present, and one fact more has taken its place.
pub open spec fn was_replaced(before: LedgerModel, after: LedgerModel, id: u128) -> bool {
    &&& after.alive(id) is None
    &&& after.alive_open(id) is None
    &&& after.facts.filter(takes_place_of(id)).len() == before.facts.filter(
        takes_place_of(id),
    ).len() + 1
}

/// A fact is rewritten once: when it was closed or corrected it is no longer present, so that
/// closing it again, on a date or on an unknown day, or correcting it again does nothing; and one
/// fact more has taken its place.
pub proof fn law_a_fact_is_closed_once(l: LedgerModel, fact_id: u128, fact: FactModel, at: i64)
    requires
        fact.id != fact_id,
        fact.supersedes == Some(fact_id),
    ensures
        was_replaced(
            l,
            l.commit(ChangeModel::Rewrite { replaced: fact_id, fact, at }),
            fact_id,
        ),
{
    let after = l.commit(ChangeModel::Rewrite { replaced: fact_id, fact, at });
    let struck_out = l.facts.map_values(struck(fact_id, at));
    lemma_first(after.facts, alive_with_id(fact_id));
    assert forall|i: int| 0 <= i < after.facts.len() implies !alive_with_id(fact_id)(
        #[trigger] after.facts[i],
    ) by {
        if i < l.facts.len() {
            assert(after.facts[i] == struck(fact_id, at)(l.facts[i]));
        }
    }
    lemma_struck_place(l.facts, fact_id, at);
    reveal(Seq::filter);
    assert(after.facts.drop_last() =~= struck_out);
}

} // verus!
