//! What a report counts: each question that a transaction leaves to a person, once.

use crate::engine::{closed_by, Desk};
use crate::laws::{law_a_pair_is_left_to_a_person_once, pairs_differ};
use crate::ledger::{asks, conflict_between, pending_between, ChangeModel};
use crate::order::lemma_first;
use crate::replay::ReplayOrder;
use crate::rewrite::raised;
use crate::timeline::RowModel;
use crate::walk::{any_row, enough_for, is_kept, lemma_enough_more, lemma_open};
use vstd::prelude::*;

verus! {

/// All conflicts are open, and this transaction has raised them.
pub open spec fn all_of_now(d: Desk) -> bool {
    forall|k: int|
        0 <= k < d.ledger.conflicts.len() ==> (#[trigger] d.ledger.conflicts[k]).status == "open"@
            && was_asked(d, d.ledger.conflicts[k].old_fact_id, d.ledger.conflicts[k].new_fact_id)
}

/// This transaction has left the two facts to a person, in this order.
pub open spec fn was_asked(d: Desk, old_fact_id: u128, new_fact_id: u128) -> bool {
    exists|i: int|
        0 <= i < d.ledger.changes.len() && asks(old_fact_id, new_fact_id, d.now)(
            #[trigger] d.ledger.changes[i],
        )
}

/// A number, as far as the count of a report goes.
pub open spec fn saturated(n: int) -> u32 {
    if n <= u32::MAX {
        n as u32
    } else {
        u32::MAX
    }
}

/// The report has counted the conflicts that were raised since `d`, each of another pair of facts.
pub open spec fn tallied(d: Desk, end: Desk) -> bool {
    &&& end.now == d.now
    &&& all_of_now(end)
    &&& pairs_differ(end.ledger)
    &&& end.ledger.conflicts.len() >= d.ledger.conflicts.len()
    &&& end.report.conflicts == saturated(
        d.report.conflicts + end.ledger.conflicts.len() - d.ledger.conflicts.len(),
    )
}

proof fn lemma_raise(
    start: Desk,
    d: Desk,
    kb_id: u128,
    old_fact_id: u128,
    new_fact_id: u128,
    reason: Seq<char>,
)
    requires
        tallied(start, d),
    ensures
        tallied(start, d.raise(kb_id, old_fact_id, new_fact_id, reason)),
{
    if !d.ledger.is_asked(old_fact_id, new_fact_id, d.now) {
        let c = raised(d.ids[0], kb_id, old_fact_id, new_fact_id, reason, d.now);
        let change = ChangeModel::Raise { conflict: c };
        let q = conflict_between(old_fact_id, new_fact_id);
        let end = d.raise(kb_id, old_fact_id, new_fact_id, reason);
        lemma_first(d.ledger.conflicts, pending_between(old_fact_id, new_fact_id));
        lemma_first(d.ledger.changes, asks(old_fact_id, new_fact_id, d.now));
        lemma_first(d.ledger.conflicts, q);
        assert forall|k: int| 0 <= k < d.ledger.conflicts.len() implies !q(
            #[trigger] d.ledger.conflicts[k],
        ) by {
            if q(d.ledger.conflicts[k]) {
                assert(was_asked(d, old_fact_id, new_fact_id));
                assert(pending_between(old_fact_id, new_fact_id)(d.ledger.conflicts[k]));
            }
        }
        assert(end.ledger.conflicts == d.ledger.conflicts.push(c));
        law_a_pair_is_left_to_a_person_once(d.ledger, change);
        lemma_still_asked(d, end, change);
        assert(was_asked(end, old_fact_id, new_fact_id)) by {
            assert(end.ledger.changes[d.ledger.changes.len() as int] == change);
        }
    }
}

/// What was asked stays so when a change is written down.
proof fn lemma_still_asked(d: Desk, end: Desk, change: ChangeModel)
    requires
        end.now == d.now,
        end.ledger.changes == d.ledger.changes.push(change),
    ensures
        forall|a: u128, b: u128| #[trigger] was_asked(d, a, b) ==> was_asked(end, a, b),
{
    assert forall|a: u128, b: u128| #[trigger] was_asked(d, a, b) implies was_asked(end, a, b) by {
        let i = choose|i: int|
            0 <= i < d.ledger.changes.len() && asks(a, b, d.now)(#[trigger] d.ledger.changes[i]);
        assert(end.ledger.changes[i] == d.ledger.changes[i]);
    }
}

/// Closing a row asks nothing.
proof fn lemma_close_at(start: Desk, d: Desk, row: RowModel, next: RowModel)
    requires
        tallied(start, d),
    ensures
        tallied(start, d.close_at(row, next)),
{
    if let Some(f) = d.ledger.alive(row.id) {
        let end = d.close_at(row, next);
        lemma_still_asked(
            d,
            end,
            ChangeModel::Rewrite {
                replaced: row.id,
                fact: closed_by(f, d.ids[0], next, d.now),
                at: d.now,
            },
        );
        assert forall|k: int| 0 <= k < end.ledger.conflicts.len() implies (
        #[trigger] end.ledger.conflicts[k]).status == "open"@ && was_asked(
            end,
            end.ledger.conflicts[k].old_fact_id,
            end.ledger.conflicts[k].new_fact_id,
        ) by {
            assert(end.ledger.conflicts[k] == d.ledger.conflicts[k]);
        }
    }
}

/// The report has counted what was raised while the engine may take so many more steps.
spec fn in_tally(start: Desk, total: int) -> spec_fn(Desk, int) -> bool {
    |d: Desk, n: int| tallied(start, d) && 0 <= n && d.ledger.facts.len() + n <= total
}

/// Every step of the engine is counted.
proof fn lemma_in_tally(start: Desk, total: int)
    ensures
        is_kept(in_tally(start, total), any_row(), total),
{
    let p = in_tally(start, total);
    assert forall|d: Desk, n: int, kb_id: u128, a: u128, b: u128, reason: Seq<char>|
        #![trigger p(d, n), d.raise(kb_id, a, b, reason)]
        p(d, n) && n > 0 implies p(d.raise(kb_id, a, b, reason), n - 1) by {
        lemma_raise(start, d, kb_id, a, b, reason);
    }
    assert forall|d: Desk, n: int, row: RowModel, next: RowModel|
        #![trigger p(d, n), d.close_at(row, next)]
        p(d, n) && n > 0 implies p(d.close_at(row, next), n - 1) by {
        lemma_close_at(start, d, row, next);
    }
}

/// A question is counted once: where nothing was with a person before the transaction, the report
/// of a replay counts the conflicts that it raised, and no two of them are of the same two facts,
/// in whatever order.
pub proof fn law_each_question_is_counted_once(
    d: Desk,
    kb_id: u128,
    ids: Seq<u128>,
    order: ReplayOrder,
)
    requires
        all_of_now(d),
        pairs_differ(d.ledger),
    ensures
        tallied(d, d.reconcile_open(kb_id, ids, order)),
{
    let facts = d.ledger.facts.len();
    let n = enough_for(facts, facts as int);
    let total = facts + n;
    let p = in_tally(d, total);
    lemma_enough_more(0, facts, facts as int);
    lemma_in_tally(d, total);
    assert(p(d, n));
    lemma_open(p, any_row(), total, d, n, kb_id, ids, order);
}

} // verus!
