//! The changes of a ledger tell its tables: replaying them on what was loaded gives what is there.

use crate::engine::{closed_by, holder_of, Desk, MAX_TIDY_ROUNDS};
use crate::ledger::{ChangeModel, ConflictModel, LedgerModel, RelationType};
use crate::replay::{moments, second, to_reopen, touched_by, ReplayOrder};
use crate::review::{decided_close, decided_keep, decided_reject};
use crate::rewrite::{ended_at, raised};
use crate::timeline::{RowModel, Scope, Uniqueness};
use crate::validity::ValidityModel;
use crate::walk::{
    any_row, enough, enough_for, is_kept, lemma_enough_more, lemma_open, lemma_place, lemma_tidy,
};
use vstd::prelude::*;

verus! {

/// The tables of `l` are what its changes make of `base`.
pub open spec fn accounted(base: LedgerModel, l: LedgerModel) -> bool {
    l == (LedgerModel { changes: l.changes, ..base.replay(l.changes) })
}

/// What was loaded is accounted for by itself.
pub proof fn law_what_was_loaded_is_accounted_for(base: LedgerModel)
    requires
        base.changes.len() == 0,
    ensures
        accounted(base, base),
{
}

/// Every change that is written down is accounted for.
pub proof fn law_every_change_is_accounted_for(base: LedgerModel, l: LedgerModel, change: ChangeModel)
    requires
        accounted(base, l),
    ensures
        accounted(base, l.commit(change)),
{
    let after = l.commit(change);
    assert(after.changes.drop_last() =~= l.changes);
    assert(after.changes.last() == change);
    let tables = base.replay(l.changes);
    assert(base.replay(after.changes) == tables.apply(change));
    assert(after =~= (LedgerModel { changes: after.changes, ..tables.apply(change) }));
}

/// The engine is accounted for while it may take so many more steps.
spec fn in_account(base: LedgerModel, total: int) -> spec_fn(Desk, int) -> bool {
    |d: Desk, n: int|
        accounted(base, d.ledger) && 0 <= n && d.ledger.facts.len() + n <= total
}

/// Every step of the engine is accounted for.
proof fn lemma_in_account(base: LedgerModel, total: int)
    ensures
        is_kept(in_account(base, total), any_row(), total),
{
    let p = in_account(base, total);
    assert forall|d: Desk, n: int, kb_id: u128, a: u128, b: u128, reason: Seq<char>|
        #![trigger p(d, n), d.raise(kb_id, a, b, reason)]
        p(d, n) && n > 0 implies p(d.raise(kb_id, a, b, reason), n - 1) by {
        law_every_change_is_accounted_for(
            base,
            d.ledger,
            ChangeModel::Raise { conflict: raised(d.ids[0], kb_id, a, b, reason, d.now) },
        );
    }
    assert forall|d: Desk, n: int, row: RowModel, next: RowModel|
        #![trigger p(d, n), d.close_at(row, next)]
        p(d, n) && n > 0 implies p(d.close_at(row, next), n - 1) by {
        if let Some(f) = d.ledger.alive(row.id) {
            law_every_change_is_accounted_for(
                base,
                d.ledger,
                ChangeModel::Rewrite {
                    replaced: row.id,
                    fact: closed_by(f, d.ids[0], next, d.now),
                    at: d.now,
                },
            );
        }
    }
}

/// Tidying a timeline is accounted for.
pub proof fn law_tidying_is_accounted_for(base: LedgerModel, d: Desk, scope: Scope)
    requires
        accounted(base, d.ledger),
    ensures
        accounted(base, d.tidy(scope).ledger),
{
    let n = MAX_TIDY_ROUNDS as int;
    let total = d.ledger.facts.len() + n;
    let p = in_account(base, total);
    lemma_in_account(base, total);
    assert(p(d, n));
    lemma_tidy(p, any_row(), total, d, n, scope, Seq::empty(), MAX_TIDY_ROUNDS as nat);
}

/// Placing a fact is accounted for.
pub proof fn law_placing_is_accounted_for(
    base: LedgerModel,
    d: Desk,
    scope: Scope,
    fact_id: u128,
)
    requires
        accounted(base, d.ledger),
    ensures
        accounted(base, d.place(scope, fact_id).ledger),
{
    let n = enough(d.ledger.facts.len() as int);
    let total = d.ledger.facts.len() + n;
    let p = in_account(base, total);
    lemma_in_account(base, total);
    assert(p(d, n));
    lemma_place(p, any_row(), total, d, n, scope, fact_id);
}

/// Reconciling a new fact is accounted for.
pub proof fn law_reconciling_is_accounted_for(
    base: LedgerModel,
    d: Desk,
    kb_id: u128,
    new_fact_id: u128,
    subject_id: u128,
    predicate_id: u128,
    object_id: Option<u128>,
    direction: Uniqueness,
    validity: ValidityModel,
)
    requires
        accounted(base, d.ledger),
    ensures
        accounted(
            base,
            d.reconcile(
                kb_id,
                new_fact_id,
                subject_id,
                predicate_id,
                object_id,
                direction,
                validity,
            ).ledger,
        ),
{
    if let Some(holder) = holder_of(direction, subject_id, object_id) {
        let scope = Scope { kb_id, holder, predicate_id, side: direction };
        law_placing_is_accounted_for(base, d, scope, new_fact_id);
    }
}

/// Reconciling facts once more is accounted for.
pub proof fn law_replaying_is_accounted_for(
    base: LedgerModel,
    d: Desk,
    kb_id: u128,
    ids: Seq<u128>,
    order: ReplayOrder,
)
    requires
        accounted(base, d.ledger),
    ensures
        accounted(base, d.reconcile_open(kb_id, ids, order).ledger),
{
    let facts = d.ledger.facts.len();
    let n = enough_for(facts, facts as int);
    let total = facts + n;
    let p = in_account(base, total);
    lemma_enough_more(0, facts, facts as int);
    lemma_in_account(base, total);
    assert(p(d, n));
    lemma_open(p, any_row(), total, d, n, kb_id, ids, order);
}

proof fn lemma_reopen_each(base: LedgerModel, d: Desk, pairs: Seq<(u128, u128)>)
    requires
        accounted(base, d.ledger),
    ensures
        accounted(base, d.reopen_each(pairs).ledger),
    decreases pairs.len(),
{
    if pairs.len() > 0 {
        lemma_reopen_each(base, d, pairs.drop_last());
        let before = d.reopen_each(pairs.drop_last());
        let change = ChangeModel::Invalidate { fact_id: pairs.last().0, at: before.now };
        law_every_change_is_accounted_for(base, before.ledger, change);
        law_every_change_is_accounted_for(
            base,
            before.ledger.commit(change),
            ChangeModel::Restore { fact_id: pairs.last().1 },
        );
    }
}

proof fn lemma_place_each(base: LedgerModel, d: Desk, scope: Scope, ids: Seq<u128>)
    requires
        accounted(base, d.ledger),
    ensures
        accounted(base, d.place_each(scope, ids).ledger),
    decreases ids.len(),
{
    if ids.len() > 0 {
        lemma_place_each(base, d, scope, ids.drop_last());
        law_placing_is_accounted_for(
            base,
            d.place_each(scope, ids.drop_last()),
            scope,
            ids.last(),
        );
    }
}

proof fn lemma_retidy_side(base: LedgerModel, d: Desk, scope: Scope, gone: Seq<Option<i64>>)
    requires
        accounted(base, d.ledger),
    ensures
        accounted(base, d.retidy_side(scope, gone).ledger),
{
    let pairs = to_reopen(d.ledger, scope, gone);
    lemma_reopen_each(base, d, pairs);
    let d1 = d.reopen_each(pairs);
    lemma_place_each(base, d1, scope, pairs.map_values(second()));
    law_tidying_is_accounted_for(base, d1.place_each(scope, pairs.map_values(second())), scope);
}

proof fn lemma_retidy_each(
    base: LedgerModel,
    d: Desk,
    kb_id: u128,
    holder: u128,
    relations: Seq<RelationType>,
    gone: Seq<Option<i64>>,
)
    requires
        accounted(base, d.ledger),
    ensures
        accounted(base, d.retidy_each(kb_id, holder, relations, gone).ledger),
    decreases relations.len(),
{
    if relations.len() > 0 {
        lemma_retidy_each(base, d, kb_id, holder, relations.drop_last(), gone);
        let mid = d.retidy_each(kb_id, holder, relations.drop_last(), gone);
        let r = relations.last();
        let on_subject = Scope {
            kb_id,
            holder,
            predicate_id: r.id,
            side: Uniqueness::SubjectSide,
        };
        let on_object = Scope { kb_id, holder, predicate_id: r.id, side: Uniqueness::ObjectSide };
        lemma_retidy_side(base, mid, on_subject, gone);
        lemma_retidy_side(
            base,
            if r.functional {
                mid.retidy_side(on_subject, gone)
            } else {
                mid
            },
            on_object,
            gone,
        );
    }
}

/// Tidying anew after a revert is accounted for.
pub proof fn law_retidying_is_accounted_for(
    base: LedgerModel,
    d: Desk,
    kb_id: u128,
    holder: u128,
    removed: Seq<u128>,
)
    requires
        accounted(base, d.ledger),
    ensures
        accounted(base, d.retidy(kb_id, holder, removed).ledger),
{
    lemma_retidy_each(
        base,
        d,
        kb_id,
        holder,
        d.ledger.relations.filter(touched_by(d.ledger, removed)),
        moments(d.ledger, removed),
    );
}

/// What a person decides is accounted for.
pub proof fn law_deciding_is_accounted_for(
    base: LedgerModel,
    l: LedgerModel,
    kb_id: u128,
    c: ConflictModel,
    at: i64,
    precision: Seq<char>,
    id: u128,
    now: i64,
)
    requires
        accounted(base, l),
    ensures
        accounted(base, decided_close(l, kb_id, c, at, precision, id, now)),
        accounted(base, decided_keep(l, kb_id, c, now)),
        accounted(base, decided_reject(l, kb_id, c, now)),
{
    let settle_closed = ChangeModel::Settle {
        kb_id,
        conflict_id: c.id,
        resolution: "closed"@,
        at: now,
    };
    law_every_change_is_accounted_for(base, l, settle_closed);
    if l.alive(c.old_fact_id) is Some {
        let rewrite = ChangeModel::Rewrite {
            replaced: c.old_fact_id,
            fact: ended_at(l.alive(c.old_fact_id)->0, id, at, precision, now),
            at: now,
        };
        law_every_change_is_accounted_for(base, l, rewrite);
        law_every_change_is_accounted_for(base, l.commit(rewrite), settle_closed);
    }
    law_every_change_is_accounted_for(
        base,
        l,
        ChangeModel::Settle { kb_id, conflict_id: c.id, resolution: "kept_both"@, at: now },
    );
    let strike = ChangeModel::Invalidate { fact_id: c.new_fact_id, at: now };
    let siblings = ChangeModel::SettleSiblings {
        new_fact_id: c.new_fact_id,
        except: c.id,
        resolution: "rejected_new"@,
        at: now,
    };
    law_every_change_is_accounted_for(base, l, strike);
    law_every_change_is_accounted_for(base, l.commit(strike), siblings);
    law_every_change_is_accounted_for(
        base,
        l.commit(strike).commit(siblings),
        ChangeModel::Settle { kb_id, conflict_id: c.id, resolution: "rejected_new"@, at: now },
    );
}

} // verus!
