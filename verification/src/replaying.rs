//! Which facts are reconciled once more, in which order, and on which sides.

use crate::arrival::in_sequence;
use crate::asking::{has_no_end, has_time, lemma_has_time, lemma_row_on};
use crate::chain::{is_chain, law_a_chain_comes_to_its_estimate};
use crate::engine::{open_rival, Desk, MAX_TIDY_ROUNDS};
use crate::errors::ErrorModel;
use crate::estimate::pairs;
use crate::handover::{lemma_raise, lemma_same_timeline, with_person};
use crate::identity::{lemma_apart, lemma_close_at, lemma_filter_contains, lemma_found};
use crate::ledger::{FactModel, LedgerModel};
use crate::order::{arrange, first, lemma_arrange, lemma_first, no_later};
use crate::pairing::{
    all_here, cannot_be_told, is_raised, law_what_cannot_be_told_is_asked_in_pairs, open_ids,
    unique_here,
};
use crate::placing::{lemma_filter_apart, lemma_raise_all, lemma_timeline_apart};
use crate::reading::is_on;
use crate::replay::{open_under, refusal, relation_of, replay_key, to_reconcile, ReplayOrder};
use crate::rewrite::{alive_with_id, relation_with_id};
use crate::timeline::{says_same, timeline, RowModel, Scope, Uniqueness};
use crate::walk::{any_row, enough_for, is_kept, lemma_each, lemma_enough_more, lemma_filter_len};
use vstd::prelude::*;

verus! {

/// The relation at a position is the first with its identifier, a state, and unique on some side.
pub open spec fn is_unique_relation(l: LedgerModel, k: int) -> bool {
    &&& 0 <= k < l.relations.len()
    &&& forall|j: int| 0 <= j < k ==> (#[trigger] l.relations[j]).id != l.relations[k].id
    &&& l.relations[k].temporal@ == "state"@
    &&& l.relations[k].functional || l.relations[k].inverse_functional
}

proof fn lemma_unique_relation(l: LedgerModel, f: FactModel)
    ensures
        l.unique_relation(f) is Some <==> exists|k: int| #[trigger]
            is_unique_relation(l, k) && f.predicate_id == Some(l.relations[k].id),
        forall|k: int| #[trigger]
            is_unique_relation(l, k) && f.predicate_id == Some(l.relations[k].id)
                ==> l.unique_relation(f) == Some(l.relations[k]),
{
    if let Some(id) = f.predicate_id {
        let p = relation_with_id(id);
        lemma_first(l.relations, p);
        if l.unique_relation(f) is Some {
            let k = choose|k: int|
                0 <= k < l.relations.len() && #[trigger] l.relations[k] == first(l.relations, p)->0
                    && forall|j: int| 0 <= j < k ==> !p(#[trigger] l.relations[j]);
            assert forall|j: int| 0 <= j < k implies (#[trigger] l.relations[j]).id
                != l.relations[k].id by {
                assert(!p(l.relations[j]));
            }
            assert(is_unique_relation(l, k));
        }
        assert forall|k: int| #[trigger]
            is_unique_relation(l, k) && f.predicate_id == Some(l.relations[k].id) implies
            l.unique_relation(f) == Some(l.relations[k]) by {
            assert forall|j: int| 0 <= j < k implies !p(#[trigger] l.relations[j]) by {}
            crate::order::lemma_first_is(l.relations, p, k);
        }
    }
}

/// What is reconciled once more: the facts of the knowledge base among `ids` that are present and
/// have no end, neither a known nor an unknown one, of a relation that is a state and unique on
/// some side.
pub proof fn law_what_is_open_is_reconciled_again(
    l: LedgerModel,
    kb_id: u128,
    ids: Seq<u128>,
    f: FactModel,
)
    ensures
        to_reconcile(l, kb_id, ids)(f) <==> {
            &&& f.kb_id == kb_id
            &&& ids.contains(f.id)
            &&& f.invalidated_at is None
            &&& f.valid_to is None
            &&& f.valid_to_precision is None
            &&& exists|k: int| #[trigger]
                is_unique_relation(l, k) && f.predicate_id == Some(l.relations[k].id)
        },
{
    lemma_unique_relation(l, f);
}

/// Where none of the facts is to be reconciled, nothing happens.
pub proof fn law_where_nothing_is_open_nothing_is_reconciled(
    d: Desk,
    kb_id: u128,
    ids: Seq<u128>,
    order: ReplayOrder,
)
    requires
        forall|i: int|
            0 <= i < d.ledger.facts.len() ==> {
                ||| (#[trigger] d.ledger.facts[i]).kb_id != kb_id
                ||| !ids.contains(d.ledger.facts[i].id)
                ||| d.ledger.facts[i].invalidated_at is Some
                ||| d.ledger.facts[i].valid_to is Some
                ||| d.ledger.facts[i].valid_to_precision is Some
                ||| forall|k: int| #[trigger]
                    is_unique_relation(d.ledger, k) ==> d.ledger.facts[i].predicate_id != Some(
                        d.ledger.relations[k].id,
                    )
            },
    ensures
        d.reconcile_open(kb_id, ids, order) == d,
{
    let p = to_reconcile(d.ledger, kb_id, ids);
    assert forall|i: int| 0 <= i < d.ledger.facts.len() implies !p(#[trigger] d.ledger.facts[i]) by {
        law_what_is_open_is_reconciled_again(d.ledger, kb_id, ids, d.ledger.facts[i]);
    }
    crate::history::lemma_filter_none(d.ledger.facts, p);
}

/// In which order facts are reconciled: as they were recorded, or as they began, those without a
/// start last, and those of one start as they were recorded.
pub proof fn law_facts_are_reconciled_in_their_order(
    facts: Seq<FactModel>,
    order: ReplayOrder,
    a: int,
    b: int,
)
    requires
        0 <= a < b < arrange(facts, replay_key(order)).len(),
    ensures
        ({
            let f = arrange(facts, replay_key(order))[a];
            let g = arrange(facts, replay_key(order))[b];
            &&& order is Recorded ==> f.recorded_at <= g.recorded_at
            &&& order is Chronological ==> {
                &&& g.valid_from is Some ==> f.valid_from is Some && f.valid_from->0
                    <= g.valid_from->0
                &&& f.valid_from == g.valid_from ==> f.recorded_at <= g.recorded_at
            }
        }),
{
    lemma_arrange(facts, replay_key(order));
    let f = arrange(facts, replay_key(order))[a];
    let g = arrange(facts, replay_key(order))[b];
    assert(no_later(replay_key(order)(f), replay_key(order)(g)));
}

/// Sorting loses nothing and adds nothing.
pub proof fn law_all_that_is_open_has_its_turn(
    l: LedgerModel,
    kb_id: u128,
    ids: Seq<u128>,
    order: ReplayOrder,
    f: FactModel,
)
    ensures
        arrange(l.facts.filter(to_reconcile(l, kb_id, ids)), replay_key(order)).contains(f)
            <==> l.facts.contains(f) && to_reconcile(l, kb_id, ids)(f),
{
    let kept = l.facts.filter(to_reconcile(l, kb_id, ids));
    lemma_arrange(kept, replay_key(order));
    lemma_filter_contains(l.facts, to_reconcile(l, kb_id, ids), f);
}

/// On each side on which its relation is unique a fact is reconciled: where it cannot be placed in
/// time, it is with a person together with each open fact of the same subject, and with each of the
/// same object, that says something else. No fact is changed.
pub proof fn law_a_fact_is_reconciled_on_each_side(
    d: Desk,
    kb_id: u128,
    k: int,
    side: Uniqueness,
    holder: u128,
    i: int,
    j: int,
)
    requires
        d.supplied(2 * d.ledger.facts.len() as int),
        is_unique_relation(d.ledger, k),
        0 <= i < d.ledger.facts.len(),
        d.ledger.facts[i].kb_id == kb_id,
        d.ledger.facts[i].predicate_id == Some(d.ledger.relations[k].id),
        d.ledger.facts[i].invalidated_at is None,
        has_no_end(d.ledger, i),
        d.ledger.facts[i].object_id is Some || d.ledger.facts[i].object_value is Some,
        !has_time(d.ledger, i),
        side is SubjectSide ==> d.ledger.relations[k].functional && holder
            == d.ledger.facts[i].subject_id,
        side is ObjectSide ==> d.ledger.relations[k].inverse_functional && Some(holder)
            == d.ledger.facts[i].object_id,
        is_on(
            d.ledger,
            (Scope { kb_id, holder, predicate_id: d.ledger.relations[k].id, side }),
            j,
        ),
        i != j,
        has_no_end(d.ledger, j),
        !says_same(side, d.ledger.row(j), d.ledger.row(i)),
    ensures
        ({
            let end = d.reconcile_again(kb_id, d.ledger.facts[i]);
            &&& with_person(end.ledger, d.ledger.facts[j].id, d.ledger.facts[i].id)
            &&& end.ledger.facts == d.ledger.facts
        }),
{
    let l = d.ledger;
    let f = l.facts[i];
    let r = l.relations[k];
    let on_subject = Scope {
        kb_id,
        holder: f.subject_id,
        predicate_id: r.id,
        side: Uniqueness::SubjectSide,
    };
    lemma_unique_relation(l, f);
    lemma_found(l, i);
    assert(l.unique_relation(f) == Some(r));
    assert(l.alive_open(f.id) is Some);
    let one = if r.functional {
        d.place(on_subject, f.id)
    } else {
        d
    };
    crate::walk::lemma_timeline_len(l, on_subject);
    lemma_asked_on(d, on_subject, i);
    assert(one.ledger.facts == l.facts);
    lemma_same_timeline(l, one.ledger, on_subject);
    let end = d.reconcile_again(kb_id, f);
    if r.inverse_functional && f.object_id is Some {
        let on_object = Scope {
            kb_id,
            holder: f.object_id->0,
            predicate_id: r.id,
            side: Uniqueness::ObjectSide,
        };
        crate::walk::lemma_timeline_len(one.ledger, on_object);
        lemma_same_timeline(l, one.ledger, on_object);
        assert(one.ledger.row(i) == l.row(i));
        lemma_has_time(l, i);
        lemma_has_time(one.ledger, i);
        lemma_asked_on(one, on_object, i);
        assert(end == one.place(on_object, f.id));
        if side is ObjectSide {
            assert(is_on(one.ledger, on_object, j));
            assert(one.ledger.row(j) == l.row(j));
            assert(has_no_end(one.ledger, j));
        }
    } else {
        assert(end == one);
    }
}

/// What a fact without a time does on a timeline.
proof fn lemma_asked_on(d: Desk, scope: Scope, i: int)
    requires
        d.supplied(timeline(d.ledger, scope).len() as int),
        is_on(d.ledger, scope, i),
        !has_time(d.ledger, i),
    ensures
        ({
            let end = d.place(scope, d.ledger.facts[i].id);
            &&& end.ledger.facts == d.ledger.facts
            &&& end.ledger.evidence == d.ledger.evidence
            &&& end.ledger.documents == d.ledger.documents
            &&& end.ledger.relations == d.ledger.relations
            &&& end.supplied(d.ids.len() - timeline(d.ledger, scope).len())
            &&& forall|a: u128, b: u128|
                with_person(d.ledger, a, b) ==> #[trigger] with_person(end.ledger, a, b)
            &&& forall|j: int| #[trigger]
                is_on(d.ledger, scope, j) && j != i && has_no_end(d.ledger, j) && !says_same(
                    scope.side,
                    d.ledger.row(j),
                    d.ledger.row(i),
                ) ==> with_person(end.ledger, d.ledger.facts[j].id, d.ledger.facts[i].id)
        }),
{
    let l = d.ledger;
    let rows = timeline(l, scope);
    let new = l.row(i);
    let p = open_rival(scope.side, new);
    let picked = rows.filter(p);
    lemma_row_on(l, scope, i);
    lemma_has_time(l, i);
    lemma_timeline_apart(l, scope);
    lemma_filter_apart(rows, p);
    lemma_raise_all(d, scope, scope.kb_id, picked, new.id, "no_time"@);
    lemma_raise_all_relations(d, scope.kb_id, picked, new.id, "no_time"@);
    let end = d.place(scope, l.facts[i].id);
    assert(end == d.raise_all(scope.kb_id, picked, new.id, "no_time"@));
    assert forall|j: int| #[trigger]
        is_on(l, scope, j) && j != i && has_no_end(l, j) && !says_same(
            scope.side,
            l.row(j),
            l.row(i),
        ) implies with_person(end.ledger, l.facts[j].id, l.facts[i].id) by {
        lemma_row_on(l, scope, j);
        lemma_apart(l, i, j);
        lemma_filter_contains(rows, p, l.row(j));
        let m = choose|m: int| 0 <= m < picked.len() && picked[m] == l.row(j);
        assert(with_person(end.ledger, picked[m].id, new.id));
    }
}

proof fn lemma_raise_all_relations(
    d: Desk,
    kb_id: u128,
    rows: Seq<RowModel>,
    new_id: u128,
    reason: Seq<char>,
)
    ensures
        d.raise_all(kb_id, rows, new_id, reason).ledger.relations == d.ledger.relations,
    decreases rows.len(),
{
    if rows.len() > 0 {
        lemma_raise_all_relations(d, kb_id, rows.drop_last(), new_id, reason);
    }
}

/// When the facts of a relation are not reconciled: where there is no such relation of the knowledge
/// base; where it is not a state; and where nobody declared it unique on some side. Each is refused
/// in its own words, and in all other cases they are reconciled.
pub proof fn law_a_relation_is_refused_only_for_a_reason(
    l: LedgerModel,
    kb_id: u128,
    predicate_id: u128,
)
    ensures
        ({
            let refused = refusal(l, kb_id, predicate_id);
            &&& (forall|k: int|
                0 <= k < l.relations.len() ==> !((#[trigger] l.relations[k]).id == predicate_id
                    && l.relations[k].kb_id == kb_id)) <==> refused == Some(ErrorModel::NotFound)
            &&& forall|k: int|
                0 <= k < l.relations.len() && (#[trigger] l.relations[k]).id == predicate_id
                    && l.relations[k].kb_id == kb_id && (forall|j: int|
                    0 <= j < k ==> !((#[trigger] l.relations[j]).id == predicate_id
                        && l.relations[j].kb_id == kb_id)) ==> {
                    let r = l.relations[k];
                    &&& r.temporal@ != "state"@ ==> refused == Some(
                        ErrorModel::Invalid {
                            code: "not_a_state"@,
                            message: "only a state relation has intervals to close"@,
                        },
                    )
                    &&& r.temporal@ == "state"@ && !r.functional && !r.inverse_functional
                        ==> refused == Some(
                        ErrorModel::Invalid {
                            code: "not_unique"@,
                            message: "declare the relation functional or inverse-functional first; the engine does not infer it"@,
                        },
                    )
                    &&& r.temporal@ == "state"@ && (r.functional || r.inverse_functional)
                        ==> refused is None
                }
        }),
{
    let p = relation_of(kb_id, predicate_id);
    lemma_first(l.relations, p);
    if forall|k: int|
        0 <= k < l.relations.len() ==> !((#[trigger] l.relations[k]).id == predicate_id
            && l.relations[k].kb_id == kb_id) {
        assert forall|k: int| 0 <= k < l.relations.len() implies !p(#[trigger] l.relations[k]) by {}
    } else {
        let k = choose|k: int|
            0 <= k < l.relations.len() && (#[trigger] l.relations[k]).id == predicate_id
                && l.relations[k].kb_id == kb_id;
        assert(p(l.relations[k]));
    }
    assert forall|k: int|
        0 <= k < l.relations.len() && (#[trigger] l.relations[k]).id == predicate_id
            && l.relations[k].kb_id == kb_id && (forall|j: int|
            0 <= j < k ==> !((#[trigger] l.relations[j]).id == predicate_id && l.relations[j].kb_id
                == kb_id)) implies first(l.relations, p) == Some(l.relations[k]) by {
        assert forall|j: int| 0 <= j < k implies !p(#[trigger] l.relations[j]) by {}
        crate::order::lemma_first_is(l.relations, p, k);
    }
}

/// Some facts after others.
proof fn lemma_each_both(d: Desk, kb_id: u128, a: Seq<FactModel>, b: Seq<FactModel>)
    ensures
        d.reconcile_each(kb_id, a + b) == d.reconcile_each(kb_id, a).reconcile_each(kb_id, b),
    decreases b.len(),
{
    if b.len() == 0 {
        assert(a + b =~= a);
    } else {
        lemma_each_both(d, kb_id, a, b.drop_last());
        assert((a + b).drop_last() =~= a + b.drop_last());
        assert((a + b).last() == b.last());
    }
}

/// Two facts are with a person while so many steps may be taken.
pub open spec fn stays_asked(a: u128, b: u128, total: int) -> spec_fn(Desk, int) -> bool {
    |d: Desk, n: int|
        0 <= n && d.supplied(n) && with_person(d.ledger, a, b) && d.ledger.facts.len() + n <= total
}

/// What is with a person stays with one.
pub proof fn lemma_stays_asked(a: u128, b: u128, total: int)
    ensures
        is_kept(stays_asked(a, b, total), any_row(), total),
{
    let p = stays_asked(a, b, total);
    let scope = Scope { kb_id: 0, holder: 0, predicate_id: 0, side: Uniqueness::SubjectSide };
    assert forall|d: Desk, n: int, kb_id: u128, x: u128, y: u128, reason: Seq<char>|
        #![trigger p(d, n), d.raise(kb_id, x, y, reason)]
        p(d, n) && n > 0 implies p(d.raise(kb_id, x, y, reason), n - 1) by {
        lemma_raise(d, scope, kb_id, x, y, reason);
    }
    assert forall|d: Desk, n: int, row: RowModel, next: RowModel|
        #![trigger p(d, n), d.close_at(row, next)]
        p(d, n) && n > 0 implies p(d.close_at(row, next), n - 1) by {
        lemma_first(d.ledger.facts, alive_with_id(row.id));
        if let Some(f) = d.ledger.alive(row.id) {
            let m = choose|m: int| 0 <= m < d.ledger.facts.len() && d.ledger.facts[m] == f;
            lemma_close_at(d, scope, m, next);
            assert(d.close_at(row, next) == d.close_at(d.ledger.row(m), next));
            assert(d.close_at(row, next).ledger.conflicts == d.ledger.conflicts);
        }
    }
}

/// Facts that have come to other holders are reconciled as they were recorded: the one that was
/// recorded first meets all others as they are. Where it cannot be placed in time, it is with a
/// person together with each open fact of the same timeline that says something else, whatever
/// becomes of these later.
pub proof fn law_moved_facts_are_reconciled_as_they_were_recorded(
    d: Desk,
    kb_id: u128,
    ids: Seq<u128>,
    k: int,
    side: Uniqueness,
    holder: u128,
    i: int,
    j: int,
)
    requires
        d.supplied(
            2 * d.ledger.facts.len() + enough_for(
                d.ledger.facts.len(),
                3 * d.ledger.facts.len() as int,
            ),
        ),
        is_unique_relation(d.ledger, k),
        0 <= i < d.ledger.facts.len(),
        ids.contains(d.ledger.facts[i].id),
        d.ledger.facts[i].kb_id == kb_id,
        d.ledger.facts[i].predicate_id == Some(d.ledger.relations[k].id),
        d.ledger.facts[i].invalidated_at is None,
        has_no_end(d.ledger, i),
        d.ledger.facts[i].object_id is Some || d.ledger.facts[i].object_value is Some,
        !has_time(d.ledger, i),
        forall|m: int|
            0 <= m < d.ledger.facts.len() && m != i && ids.contains(
                (#[trigger] d.ledger.facts[m]).id,
            ) ==> d.ledger.facts[i].recorded_at < d.ledger.facts[m].recorded_at,
        side is SubjectSide ==> d.ledger.relations[k].functional && holder
            == d.ledger.facts[i].subject_id,
        side is ObjectSide ==> d.ledger.relations[k].inverse_functional && Some(holder)
            == d.ledger.facts[i].object_id,
        is_on(
            d.ledger,
            (Scope { kb_id, holder, predicate_id: d.ledger.relations[k].id, side }),
            j,
        ),
        i != j,
        has_no_end(d.ledger, j),
        !says_same(side, d.ledger.row(j), d.ledger.row(i)),
    ensures
        with_person(
            d.reconcile_moved(kb_id, ids).ledger,
            d.ledger.facts[j].id,
            d.ledger.facts[i].id,
        ),
{
    let l = d.ledger;
    let f = l.facts[i];
    let facts = l.facts.len();
    let p = to_reconcile(l, kb_id, ids);
    let kept = l.facts.filter(p);
    let list = arrange(kept, replay_key(ReplayOrder::Recorded));
    law_what_is_open_is_reconciled_again(l, kb_id, ids, f);
    assert(is_unique_relation(l, k) && p(f));
    assert(l.facts.contains(f));
    lemma_filter_contains(l.facts, p, f);
    lemma_arrange(kept, replay_key(ReplayOrder::Recorded));
    assert(list.contains(f));
    lemma_filter_len(l.facts, p);
    let q = choose|q: int| 0 <= q < list.len() && list[q] == f;
    assert(list[0] == f) by {
        assert(list.contains(list[0]));
        lemma_filter_contains(l.facts, p, list[0]);
        let m = choose|m: int| 0 <= m < l.facts.len() && l.facts[m] == list[0];
        if q > 0 && m != i {
            law_facts_are_reconciled_in_their_order(kept, ReplayOrder::Recorded, 0, q);
        }
    }
    let rest = list.skip(1);
    let one = seq![f];
    assert(list =~= one + rest);
    lemma_each_both(d, kb_id, one, rest);
    let d1 = d.reconcile_again(kb_id, f);
    assert(d.reconcile_each(kb_id, one) == d1) by {
        assert(one.drop_last() =~= Seq::<FactModel>::empty());
        assert(d.reconcile_each(kb_id, one.drop_last()) == d);
    }
    lemma_enough_more(0, facts, 3 * facts as int);
    law_a_fact_is_reconciled_on_each_side(d, kb_id, k, side, holder, i, j);
    let n = enough_for(rest.len(), 3 * facts as int);
    lemma_enough_more(rest.len(), facts, 3 * facts as int);
    let total = 3 * facts + n;
    let a = l.facts[j].id;
    let b = f.id;
    lemma_stays_asked(a, b, total as int);
    assert(d1.supplied(n)) by {
        lemma_again_supplied(d, kb_id, k, i);
    }
    let s = stays_asked(a, b, total as int);
    assert(s(d1, n));
    lemma_each(s, any_row(), total as int, d1, n, kb_id, rest);
}

/// How many identifiers are left when a fact that cannot be placed in time was reconciled.
proof fn lemma_again_supplied(d: Desk, kb_id: u128, k: int, i: int)
    requires
        d.supplied(2 * d.ledger.facts.len() as int),
        is_unique_relation(d.ledger, k),
        0 <= i < d.ledger.facts.len(),
        d.ledger.facts[i].kb_id == kb_id,
        d.ledger.facts[i].predicate_id == Some(d.ledger.relations[k].id),
        d.ledger.facts[i].invalidated_at is None,
        has_no_end(d.ledger, i),
        d.ledger.facts[i].object_id is Some || d.ledger.facts[i].object_value is Some,
        !has_time(d.ledger, i),
    ensures
        d.reconcile_again(kb_id, d.ledger.facts[i]).supplied(
            d.ids.len() - 2 * d.ledger.facts.len(),
        ),
{
    let l = d.ledger;
    let f = l.facts[i];
    let r = l.relations[k];
    let on_subject = Scope {
        kb_id,
        holder: f.subject_id,
        predicate_id: r.id,
        side: Uniqueness::SubjectSide,
    };
    lemma_unique_relation(l, f);
    lemma_found(l, i);
    let one = if r.functional {
        d.place(on_subject, f.id)
    } else {
        d
    };
    crate::walk::lemma_timeline_len(l, on_subject);
    lemma_asked_on(d, on_subject, i);
    assert(one.supplied(d.ids.len() - l.facts.len()));
    let end = d.reconcile_again(kb_id, f);
    if r.inverse_functional && f.object_id is Some {
        let on_object = Scope {
            kb_id,
            holder: f.object_id->0,
            predicate_id: r.id,
            side: Uniqueness::ObjectSide,
        };
        crate::walk::lemma_timeline_len(one.ledger, on_object);
        lemma_same_timeline(l, one.ledger, on_object);
        assert(one.ledger.row(i) == l.row(i));
        lemma_has_time(l, i);
        lemma_has_time(one.ledger, i);
        lemma_asked_on(one, on_object, i);
        assert(end == one.place(on_object, f.id));
    } else {
        assert(end == one);
    }
}

/// The facts of a relation that are reconciled are those of the knowledge base that are present and
/// have no end, if the relation is a state and unique on some side.
pub proof fn law_a_relation_reconciles_its_open_facts(
    l: LedgerModel,
    kb_id: u128,
    predicate_id: u128,
    i: int,
)
    requires
        l.distinct(),
        0 <= i < l.facts.len(),
    ensures
        to_reconcile(l, kb_id, open_ids(l, kb_id, predicate_id))(l.facts[i]) <==> {
            &&& l.facts[i].kb_id == kb_id
            &&& l.facts[i].predicate_id == Some(predicate_id)
            &&& l.facts[i].invalidated_at is None
            &&& has_no_end(l, i)
            &&& exists|k: int| #[trigger]
                is_unique_relation(l, k) && l.relations[k].id == predicate_id
        },
{
    let f = l.facts[i];
    let under = open_under(kb_id, predicate_id);
    let opened = l.facts.filter(under);
    let ids = open_ids(l, kb_id, predicate_id);
    law_what_is_open_is_reconciled_again(l, kb_id, ids, f);
    assert(l.facts.contains(f));
    lemma_filter_contains(l.facts, under, f);
    if under(f) {
        let k = choose|k: int| 0 <= k < opened.len() && opened[k] == f;
        assert(ids[k] == f.id);
    }
    if ids.contains(f.id) {
        let k = choose|k: int| 0 <= k < ids.len() && ids[k] == f.id;
        assert(opened.contains(opened[k]));
        lemma_filter_contains(l.facts, under, opened[k]);
        let m = choose|m: int| 0 <= m < l.facts.len() && l.facts[m] == opened[k];
        if m != i {
            lemma_apart(l, m, i);
        }
    }
}

/// A chain of sure values that start one after another falls into sequence when its relation is
/// reconciled, however long it is and in whatever order it was recorded.
pub proof fn law_a_relation_is_reconciled_in_the_order_of_time(d: Desk, scope: Scope)
    requires
        is_chain(d.ledger, scope),
        timeline(d.ledger, scope).len() > 0,
        d.supplied(MAX_TIDY_ROUNDS * timeline(d.ledger, scope).len()),
    ensures
        ({
            let n = timeline(d.ledger, scope).len();
            let end = d.reconcile_relation(scope.kb_id, scope.predicate_id);
            &&& end.report.corrected.len() - d.report.corrected.len() == n - 1
            &&& end.report.conflicts == d.report.conflicts
            &&& end.ledger.conflicts == d.ledger.conflicts
            &&& timeline(end.ledger, scope).len() == n
            &&& in_sequence(scope.side, timeline(end.ledger, scope))
        }),
{
    law_a_chain_comes_to_its_estimate(d, scope);
}

/// What cannot be told is left to a person pair by pair when its relation is reconciled.
pub proof fn law_a_relation_asks_in_pairs(d: Desk, scope: Scope)
    requires
        cannot_be_told(d.ledger, scope),
        unique_here(d.ledger, scope),
        all_here(d.ledger, scope),
        forall|i: int, j: int| #[trigger]
            d.ledger.stands(scope, i) && #[trigger] d.ledger.stands(scope, j) && i != j
                ==> !is_raised(d.ledger, d.ledger.facts[i].id, d.ledger.facts[j].id),
        d.report.conflicts + pairs(timeline(d.ledger, scope).len()) <= u32::MAX,
    ensures
        ({
            let n = timeline(d.ledger, scope).len();
            let end = d.reconcile_relation(scope.kb_id, scope.predicate_id);
            &&& 2 * (end.report.conflicts - d.report.conflicts) == n * (n - 1)
            &&& end.report.corrected == d.report.corrected
            &&& end.ledger.facts == d.ledger.facts
        }),
{
    law_what_cannot_be_told_is_asked_in_pairs(d, scope, ReplayOrder::Chronological);
}

} // verus!
