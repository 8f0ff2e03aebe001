//! What a candidate says, counted holder by holder and fact by fact.

use crate::candidates::{
    as_holder, can_list, candidate, candidates, capped, closes_of, could_be_unique, crowded,
    has_holders, has_values, holders, literal, meeting, open_at, open_values, plan, reviews_of,
    same_key, total, unplanned, value_of, values_of, HolderModel, ValueModel,
};
use crate::engine::Desk;
use crate::estimate::{lemma_pairs, pairs};
use crate::history::{lemma_filter_all, lemma_filter_none};
use crate::identity::lemma_filter_contains;
use crate::ledger::{FactModel, LedgerModel, RelationType};
use crate::order::{arrange, lemma_arrange, no_later};
use crate::outside::{json_compact, json_member, json_str};
use crate::pairing::{
    all_here, are_listed, cannot_be_told, is_raised, law_what_cannot_be_told_is_asked_in_pairs,
    open_ids, unique_here,
};
use crate::questions::{is_named, lemma_named};
use crate::replay::{by_start, ReplayOrder};
use crate::rest::{one_if, sum};
use crate::timeline::{timeline, Scope, Uniqueness};
use vstd::prelude::*;

verus! {

/// The open values of the entity at a position, under a relation.
pub open spec fn values_at(
    l: LedgerModel,
    kb_id: u128,
    side: Uniqueness,
    predicate_id: u128,
    i: int,
) -> Seq<ValueModel> {
    open_values(l, kb_id, side, predicate_id, l.entities[i].id)
}

/// The total over the holders is the sum over all entities: those without values add nothing.
proof fn lemma_total(
    l: LedgerModel,
    kb_id: u128,
    side: Uniqueness,
    predicate_id: u128,
    count: spec_fn(HolderModel) -> nat,
    of: spec_fn(int) -> nat,
    n: int,
)
    requires
        0 <= n <= l.entities.len(),
        forall|i: int|
            0 <= i < n ==> #[trigger] of(i) == if values_at(l, kb_id, side, predicate_id, i).len()
                > 0 {
                count(as_holder(l, kb_id, side, predicate_id)(l.entities[i]))
            } else {
                0
            },
    ensures
        total(
            l.entities.take(n).map_values(as_holder(l, kb_id, side, predicate_id)).filter(
                has_values(),
            ),
            count,
        ) == sum(of, n),
    decreases n,
{
    let f = as_holder(l, kb_id, side, predicate_id);
    let all = l.entities.take(n).map_values(f);
    reveal(Seq::filter);
    if n == 0 {
        assert(all =~= Seq::<HolderModel>::empty());
    } else {
        lemma_total(l, kb_id, side, predicate_id, count, of, n - 1);
        let head = l.entities.take(n - 1).map_values(f);
        assert(all.drop_last() =~= head);
        assert(all.last() == f(l.entities[n - 1]));
        let kept = head.filter(has_values());
        if has_values()(all.last()) {
            assert(all.filter(has_values()) == kept.push(all.last()));
            assert(kept.push(all.last()).drop_last() =~= kept);
        }
        assert(of(n - 1) == if values_at(l, kb_id, side, predicate_id, n - 1).len() > 0 {
            count(f(l.entities[n - 1]))
        } else {
            0
        });
    }
}

proof fn lemma_total_len(s: Seq<HolderModel>)
    ensures
        total(s, |h: HolderModel| 1nat) == s.len(),
    decreases s.len(),
{
    if s.len() > 0 {
        lemma_total_len(s.drop_last());
    }
}

/// A candidate adds up: over all entities, it counts those with values to be listed, their values,
/// the values that would be closed, and the pairs that would be left to a person, each as the plan
/// of that entity's values tells. It bears the names of its relation, and tells the side, and
/// whether the relation is declared unique there.
pub proof fn law_a_candidate_adds_up(
    l: LedgerModel,
    kb_id: u128,
    side: Uniqueness,
    r: RelationType,
)
    ensures
        ({
            let c = candidate(l, kb_id, side)(r);
            let n = l.entities.len() as int;
            &&& c.predicate_id == r.id
            &&& c.key == r.key@
            &&& c.label == r.label@
            &&& c.kind == r.kind@
            &&& side is SubjectSide ==> c.side == "subject"@ && c.declared == r.functional
            &&& side is ObjectSide ==> c.side == "object"@ && c.declared == r.inverse_functional
            &&& c.holders == capped(
                sum(|i: int| one_if(values_at(l, kb_id, side, r.id, i).len() > 0), n),
            )
            &&& c.open_facts == capped(sum(|i: int| values_at(l, kb_id, side, r.id, i).len(), n))
            &&& c.would_close == capped(
                sum(|i: int| plan(values_at(l, kb_id, side, r.id, i)).close, n),
            )
            &&& c.would_review == capped(
                sum(|i: int| plan(values_at(l, kb_id, side, r.id, i)).review, n),
            )
        }),
{
    let n = l.entities.len() as int;
    let found = holders(l, kb_id, side, r.id);
    assert(l.entities.take(n) =~= l.entities);
    assert forall|i: int| values_at(l, kb_id, side, r.id, i).len() == 0 implies {
        &&& (#[trigger] plan(values_at(l, kb_id, side, r.id, i))).close == 0
        &&& plan(values_at(l, kb_id, side, r.id, i)).review == 0
    } by {}
    lemma_total_len(found);
    lemma_total(
        l,
        kb_id,
        side,
        r.id,
        |h: HolderModel| 1nat,
        |i: int| one_if(values_at(l, kb_id, side, r.id, i).len() > 0),
        n,
    );
    lemma_total(
        l,
        kb_id,
        side,
        r.id,
        values_of(),
        |i: int| values_at(l, kb_id, side, r.id, i).len(),
        n,
    );
    lemma_total(
        l,
        kb_id,
        side,
        r.id,
        closes_of(),
        |i: int| plan(values_at(l, kb_id, side, r.id, i)).close,
        n,
    );
    lemma_total(
        l,
        kb_id,
        side,
        r.id,
        reviews_of(),
        |i: int| plan(values_at(l, kb_id, side, r.id, i)).review,
        n,
    );
}

/// A sum of which one term is left.
proof fn lemma_sum_single(f: spec_fn(int) -> nat, n: int, k: int)
    requires
        0 <= k,
        forall|i: int| 0 <= i < n && i != k ==> #[trigger] f(i) == 0,
    ensures
        sum(f, n) == if k < n {
            f(k)
        } else {
            0
        },
    decreases n,
{
    if n > 0 {
        lemma_sum_single(f, n - 1, k);
    }
}

/// Where all open facts of a relation are of one holder, no other entity has open values under it.
proof fn lemma_no_other_values(l: LedgerModel, scope: Scope, holder: u128)
    requires
        all_here(l, scope),
        holder != scope.holder,
    ensures
        open_values(l, scope.kb_id, scope.side, scope.predicate_id, holder).len() == 0,
{
    let p = open_at(scope.kb_id, scope.side, scope.predicate_id, holder);
    assert forall|i: int| 0 <= i < l.facts.len() implies !p(#[trigger] l.facts[i]) by {
        if p(l.facts[i]) {
            assert(l.stands(scope, i));
        }
    }
    lemma_filter_none(l.facts, p);
}

/// The estimate of what cannot be told: where a relation has one holder, of whose `n` open values
/// none can be told to succeed another, the candidate counts all their pairs, and these are the
/// conflicts that reconciling the relation reports.
pub proof fn law_what_cannot_be_told_is_estimated_in_pairs(
    d: Desk,
    scope: Scope,
    order: ReplayOrder,
    r: RelationType,
    e: int,
)
    requires
        cannot_be_told(d.ledger, scope),
        unique_here(d.ledger, scope),
        all_here(d.ledger, scope),
        are_listed(d.ledger, scope),
        forall|i: int, j: int| #[trigger]
            d.ledger.stands(scope, i) && #[trigger] d.ledger.stands(scope, j) && i != j
                ==> !is_raised(d.ledger, d.ledger.facts[i].id, d.ledger.facts[j].id),
        d.report.conflicts + pairs(timeline(d.ledger, scope).len()) <= u32::MAX,
        r.id == scope.predicate_id,
        0 <= e < d.ledger.entities.len(),
        d.ledger.entities[e].id == scope.holder,
        forall|k: int|
            0 <= k < d.ledger.entities.len() && k != e ==> (#[trigger] d.ledger.entities[k]).id
                != scope.holder,
    ensures
        ({
            let n = timeline(d.ledger, scope).len();
            let c = candidate(d.ledger, scope.kb_id, scope.side)(r);
            let end = d.reconcile_open(
                scope.kb_id,
                open_ids(d.ledger, scope.kb_id, scope.predicate_id),
                order,
            );
            &&& pairs(n) <= usize::MAX ==> 2 * c.would_review == n * (n - 1)
            &&& pairs(n) <= usize::MAX ==> c.would_review == end.report.conflicts
                - d.report.conflicts
            &&& c.would_close == 0
            &&& c.holders == 1
        }),
{
    let l = d.ledger;
    let n = timeline(l, scope).len();
    let m = l.entities.len() as int;
    let at = |i: int| values_at(l, scope.kb_id, scope.side, r.id, i);
    law_what_cannot_be_told_is_asked_in_pairs(d, scope, order);
    law_a_candidate_adds_up(l, scope.kb_id, scope.side, r);
    lemma_pairs(n);
    let values = crate::pairing::values_of(l, scope);
    assert(at(e) == values);
    assert forall|i: int| 0 <= i < m && i != e implies (#[trigger] at(i)).len() == 0 by {
        lemma_no_other_values(l, scope, l.entities[i].id);
    }
    let review = |i: int| plan(values_at(l, scope.kb_id, scope.side, r.id, i)).review;
    let close = |i: int| plan(values_at(l, scope.kb_id, scope.side, r.id, i)).close;
    let some = |i: int| one_if(values_at(l, scope.kb_id, scope.side, r.id, i).len() > 0);
    assert forall|i: int| 0 <= i < m && i != e implies #[trigger] review(i) == 0 by {
        assert(at(i).len() == 0);
    }
    assert forall|i: int| 0 <= i < m && i != e implies #[trigger] close(i) == 0 by {
        assert(at(i).len() == 0);
    }
    assert forall|i: int| 0 <= i < m && i != e implies #[trigger] some(i) == 0 by {
        assert(at(i).len() == 0);
    }
    lemma_sum_single(review, m, e);
    lemma_sum_single(close, m, e);
    lemma_sum_single(some, m, e);
    lemma_listed_not_empty(l, scope);
    lemma_untold(l, scope);
}

/// The values of a holder that is listed.
proof fn lemma_listed_not_empty(l: LedgerModel, scope: Scope)
    requires
        l.distinct(),
        are_listed(l, scope),
        forall|i: int| #[trigger]
            l.stands(scope, i) ==> l.facts[i].is_open() && (l.facts[i].object_id is Some
                || l.facts[i].object_value is Some),
    ensures
        crate::pairing::values_of(l, scope).len() > 0,
{
    let p = open_at(scope.kb_id, scope.side, scope.predicate_id, scope.holder);
    let facts = l.facts.filter(p);
    let q = can_list(l, scope.side);
    assert forall|k: int| 0 <= k < facts.len() implies q(#[trigger] facts[k]) by {
        assert(facts.contains(facts[k]));
        lemma_filter_contains(l.facts, p, facts[k]);
        let i = choose|i: int| 0 <= i < l.facts.len() && l.facts[i] == facts[k];
        assert(l.stands(scope, i));
    }
    lemma_filter_all(facts, q);
    lemma_arrange(facts, by_start());
    let (i, j) = choose|i: int, j: int|
        0 <= i < facts.len() && 0 <= j < facts.len() && !same_key(
            scope.side,
            #[trigger] facts[i],
            #[trigger] facts[j],
        );
    assert(facts.len() > 0);
}

/// What cannot be told is not closed.
proof fn lemma_untold(l: LedgerModel, scope: Scope)
    requires
        cannot_be_told(l, scope),
        are_listed(l, scope),
    ensures
        plan(crate::pairing::values_of(l, scope)).close == 0,
{
    let values = crate::pairing::values_of(l, scope);
    crate::pairing::lemma_open_values(l, scope);
    let kept = l.facts.filter(crate::timeline::on_timeline(scope));
    let sorted = arrange(kept, by_start());
    lemma_arrange(kept, by_start());
    assert forall|a: int, b: int| 0 <= a < b < values.len() implies meeting(
        #[trigger] values[b],
        #[trigger] values[a],
    ) is Review by {
        assert(sorted.contains(sorted[a]) && sorted.contains(sorted[b]));
        lemma_filter_contains(l.facts, crate::timeline::on_timeline(scope), sorted[a]);
        lemma_filter_contains(l.facts, crate::timeline::on_timeline(scope), sorted[b]);
        let i = choose|i: int| 0 <= i < l.facts.len() && l.facts[i] == sorted[a];
        let j = choose|j: int| 0 <= j < l.facts.len() && l.facts[j] == sorted[b];
        assert(l.stands(scope, i) && l.stands(scope, j));
        if i != j {
            assert(l.row(i).valid_from == l.row(j).valid_from);
        }
    }
    crate::estimate::law_what_cannot_be_told_is_reviewed_in_pairs(values);
}

/// What happens to two values, the first of which is taken for the new observation. Where it has no
/// start, where both start together, or where the confidence in it is low, the pair is left to a
/// person. Else the earlier one is closed, and one without a start counts as the later value that
/// is closed.
pub proof fn law_two_values_meet_once(a: ValueModel, b: ValueModel)
    ensures
        ({
            let p = plan(seq![a, b]);
            let unsure = a.valid_from is None || a.valid_from == b.valid_from
                || a.confidence.is_low();
            &&& unsure ==> p.close == 0 && p.review == 1 && p.open[0] && p.open[1]
            &&& !unsure ==> p.close == 1 && p.review == 0
            &&& !unsure && b.valid_from is Some && a.valid_from->0 < b.valid_from->0 ==> !p.open[0]
                && p.open[1]
            &&& !unsure && (b.valid_from is None || b.valid_from->0 < a.valid_from->0)
                ==> p.open[0] && !p.open[1]
        }),
{
    let values = seq![a, b];
    let start = unplanned(2);
    assert(start.open.len() == 2);
    let met = start.met(values, 0, 1);
    assert(start.met_from(values, 0, 1) == met.met_from(values, 0, 2));
    assert(met.met_from(values, 0, 2) == met);
    assert(plan(values) == met.ran_from(values, 1));
    assert(met.met_from(values, 1, 2) == met);
    assert(met.ran_from(values, 1) == met.ran_from(values, 2));
    assert(met.ran_from(values, 2) == met);
}

/// A single value meets none, and none closes it.
pub proof fn law_a_single_value_stays(a: ValueModel)
    ensures
        plan(seq![a]).close == 0,
        plan(seq![a]).review == 0,
{
    let values = seq![a];
    let start = unplanned(1);
    assert(start.met_from(values, 0, 1) == start);
    assert(start.ran_from(values, 0) == start.ran_from(values, 1));
}

/// A present and open fact of a holder under a relation, which says something.
pub open spec fn is_open_value(
    l: LedgerModel,
    kb_id: u128,
    side: Uniqueness,
    predicate_id: u128,
    holder: u128,
    i: int,
) -> bool {
    &&& 0 <= i < l.facts.len()
    &&& l.facts[i].kb_id == kb_id
    &&& l.facts[i].predicate_id == Some(predicate_id)
    &&& l.facts[i].invalidated_at is None
    &&& l.facts[i].valid_to is None
    &&& l.facts[i].valid_to_precision is None
    &&& side is SubjectSide ==> l.facts[i].subject_id == holder && (l.facts[i].object_id is Some
        || l.facts[i].object_value is Some)
    &&& side is ObjectSide ==> l.facts[i].object_id == Some(holder)
}

/// Two facts have different values: on the subject side other entities, or, where there is none,
/// other literal texts; on the object side other subjects.
pub open spec fn values_differ(side: Uniqueness, f: FactModel, g: FactModel) -> bool {
    match side {
        Uniqueness::SubjectSide => f.object_id != g.object_id || (f.object_id is None
            && f.object_value != g.object_value),
        Uniqueness::ObjectSide => f.subject_id != g.subject_id,
    }
}

/// `v` is the value of the fact `i`: its identifier, its start, its confidence, and its name, which
/// is that of the other entity, or else how the literal reads.
pub open spec fn is_value_of(l: LedgerModel, side: Uniqueness, i: int, v: ValueModel) -> bool {
    let f = l.facts[i];
    &&& v.fact_id == f.id
    &&& v.valid_from == f.valid_from
    &&& v.confidence == f.confidence
    &&& side is ObjectSide ==> is_named(l, f.subject_id, Some(v.name))
    &&& side is SubjectSide && f.object_id is Some && !is_named(l, f.object_id->0, None)
        ==> is_named(l, f.object_id->0, Some(v.name))
    &&& side is SubjectSide && (f.object_id is None || is_named(l, f.object_id->0, None)) ==> {
        &&& f.object_value is Some ==> v.name == literal(f.object_value->0).reads()
        &&& f.object_value is None ==> v.name == "?"@
    }
}

/// A present and open fact of a holder is among what is looked at.
proof fn lemma_looked_at(
    l: LedgerModel,
    kb_id: u128,
    side: Uniqueness,
    predicate_id: u128,
    holder: u128,
    i: int,
)
    requires
        is_open_value(l, kb_id, side, predicate_id, holder, i),
    ensures
        l.facts.filter(open_at(kb_id, side, predicate_id, holder)).contains(l.facts[i]),
{
    let p = open_at(kb_id, side, predicate_id, holder);
    assert(l.facts.contains(l.facts[i]));
    lemma_filter_contains(l.facts, p, l.facts[i]);
}

/// What is looked at is a present and open fact of the holder.
proof fn lemma_looked_at_only(
    l: LedgerModel,
    kb_id: u128,
    side: Uniqueness,
    predicate_id: u128,
    holder: u128,
    f: FactModel,
) -> (i: int)
    requires
        l.facts.filter(open_at(kb_id, side, predicate_id, holder)).contains(f),
    ensures
        is_open_value(l, kb_id, side, predicate_id, holder, i),
        l.facts[i] == f,
{
    let p = open_at(kb_id, side, predicate_id, holder);
    lemma_filter_contains(l.facts, p, f);
    choose|i: int| 0 <= i < l.facts.len() && l.facts[i] == f
}

/// The value of a fact that can be listed is its value.
proof fn lemma_value(l: LedgerModel, side: Uniqueness, i: int)
    requires
        0 <= i < l.facts.len(),
        can_list(l, side)(l.facts[i]),
    ensures
        is_value_of(l, side, i, value_of(l, side)(l.facts[i])),
{
    let f = l.facts[i];
    lemma_named(l, f.subject_id);
    if f.object_id is Some {
        lemma_named(l, f.object_id->0);
    }
}

/// Each value of a holder is that of a present and open fact, and two of these facts differ in
/// their values.
pub proof fn law_a_value_is_that_of_an_open_fact(
    l: LedgerModel,
    kb_id: u128,
    side: Uniqueness,
    predicate_id: u128,
    holder: u128,
    k: int,
)
    requires
        0 <= k < open_values(l, kb_id, side, predicate_id, holder).len(),
    ensures
        ({
            let v = open_values(l, kb_id, side, predicate_id, holder)[k];
            exists|i: int|
                is_open_value(l, kb_id, side, predicate_id, holder, i) && #[trigger] is_value_of(
                    l,
                    side,
                    i,
                    v,
                )
        }),
        exists|i: int, j: int|
            is_open_value(l, kb_id, side, predicate_id, holder, i) && is_open_value(
                l,
                kb_id,
                side,
                predicate_id,
                holder,
                j,
            ) && values_differ(side, #[trigger] l.facts[i], #[trigger] l.facts[j]),
{
    let facts = l.facts.filter(open_at(kb_id, side, predicate_id, holder));
    let q = can_list(l, side);
    let kept = facts.filter(q);
    let sorted = arrange(kept, by_start());
    let v = open_values(l, kb_id, side, predicate_id, holder)[k];
    lemma_arrange(kept, by_start());
    let f = sorted[k];
    assert(sorted.contains(f));
    assert(kept.contains(f));
    lemma_filter_contains(facts, q, f);
    let i = lemma_looked_at_only(l, kb_id, side, predicate_id, holder, f);
    lemma_value(l, side, i);
    assert(is_value_of(l, side, i, v));
    let (a, b) = choose|a: int, b: int|
        0 <= a < facts.len() && 0 <= b < facts.len() && !same_key(
            side,
            #[trigger] facts[a],
            #[trigger] facts[b],
        );
    assert(facts.contains(facts[a]) && facts.contains(facts[b]));
    let m = lemma_looked_at_only(l, kb_id, side, predicate_id, holder, facts[a]);
    let n = lemma_looked_at_only(l, kb_id, side, predicate_id, holder, facts[b]);
    assert(values_differ(side, l.facts[m], l.facts[n]));
}

/// Where two present and open facts of a holder differ in their values, each of its present and
/// open facts is among them. On the object side one is passed over of which the subject has no
/// name.
pub proof fn law_every_open_fact_is_a_value(
    l: LedgerModel,
    kb_id: u128,
    side: Uniqueness,
    predicate_id: u128,
    holder: u128,
    m: int,
    n: int,
    i: int,
)
    requires
        is_open_value(l, kb_id, side, predicate_id, holder, m),
        is_open_value(l, kb_id, side, predicate_id, holder, n),
        values_differ(side, l.facts[m], l.facts[n]),
        is_open_value(l, kb_id, side, predicate_id, holder, i),
        side is SubjectSide || !is_named(l, l.facts[i].subject_id, None),
    ensures
        exists|k: int|
            0 <= k < open_values(l, kb_id, side, predicate_id, holder).len() && is_value_of(
                l,
                side,
                i,
                #[trigger] open_values(l, kb_id, side, predicate_id, holder)[k],
            ),
{
    let facts = l.facts.filter(open_at(kb_id, side, predicate_id, holder));
    let q = can_list(l, side);
    let kept = facts.filter(q);
    let sorted = arrange(kept, by_start());
    lemma_arrange(kept, by_start());
    lemma_looked_at(l, kb_id, side, predicate_id, holder, m);
    lemma_looked_at(l, kb_id, side, predicate_id, holder, n);
    lemma_looked_at(l, kb_id, side, predicate_id, holder, i);
    let a = choose|a: int| 0 <= a < facts.len() && facts[a] == l.facts[m];
    let b = choose|b: int| 0 <= b < facts.len() && facts[b] == l.facts[n];
    assert(!same_key(side, facts[a], facts[b]));
    assert(crowded(side, facts));
    let f = l.facts[i];
    lemma_named(l, f.subject_id);
    assert(q(f));
    lemma_filter_contains(facts, q, f);
    assert(sorted.contains(f));
    let k = choose|k: int| 0 <= k < sorted.len() && sorted[k] == f;
    lemma_value(l, side, i);
    assert(open_values(l, kb_id, side, predicate_id, holder)[k] == value_of(l, side)(f));
}

/// The values of a holder come in the order of their starts, those without one last.
pub proof fn law_values_come_in_the_order_of_time(
    l: LedgerModel,
    kb_id: u128,
    side: Uniqueness,
    predicate_id: u128,
    holder: u128,
    a: int,
    b: int,
)
    requires
        0 <= a < b < open_values(l, kb_id, side, predicate_id, holder).len(),
        open_values(l, kb_id, side, predicate_id, holder)[b].valid_from is Some,
    ensures
        ({
            let values = open_values(l, kb_id, side, predicate_id, holder);
            &&& values[a].valid_from is Some
            &&& values[a].valid_from->0 <= values[b].valid_from->0
        }),
{
    let kept = l.facts.filter(open_at(kb_id, side, predicate_id, holder)).filter(
        can_list(l, side),
    );
    let sorted = arrange(kept, by_start());
    lemma_arrange(kept, by_start());
    assert(no_later(by_start()(sorted[a]), by_start()(sorted[b])));
}

/// A relation of which one side could be unique: a state; on the subject side any but the built-in
/// names of an entity, on the object side one between entities.
pub open spec fn is_possible(side: Uniqueness, r: RelationType) -> bool {
    &&& r.temporal@ == "state"@
    &&& side is SubjectSide ==> !(r.builtin && r.key@ == "known_as"@)
    &&& side is ObjectSide ==> r.kind@ == "relation"@
}

/// Each candidate is what is said of a relation that could be unique, and has a holder with values
/// to be listed.
pub proof fn law_a_candidate_has_a_holder(l: LedgerModel, kb_id: u128, side: Uniqueness, k: int)
    requires
        0 <= k < candidates(l, kb_id, side).len(),
    ensures
        exists|r: int, e: int|
            0 <= r < l.relations.len() && 0 <= e < l.entities.len() && is_possible(
                side,
                #[trigger] l.relations[r],
            ) && (#[trigger] values_at(l, kb_id, side, l.relations[r].id, e)).len() > 0
                && candidates(l, kb_id, side)[k] == candidate(l, kb_id, side)(l.relations[r]),
{
    let p = could_be_unique(side);
    let f = candidate(l, kb_id, side);
    let kept = l.relations.filter(p);
    let said = kept.map_values(f);
    let all = said.filter(has_holders());
    let c = all[k];
    assert(all.contains(c));
    lemma_filter_contains(said, has_holders(), c);
    let j = choose|j: int| 0 <= j < said.len() && said[j] == c;
    assert(kept.contains(kept[j]));
    lemma_filter_contains(l.relations, p, kept[j]);
    let r = choose|r: int| 0 <= r < l.relations.len() && l.relations[r] == kept[j];
    let h = as_holder(l, kb_id, side, l.relations[r].id);
    let mapped = l.entities.map_values(h);
    let found = mapped.filter(has_values());
    assert(found.len() > 0);
    assert(found.contains(found[0]));
    lemma_filter_contains(mapped, has_values(), found[0]);
    let e = choose|e: int| 0 <= e < mapped.len() && mapped[e] == found[0];
    assert(values_at(l, kb_id, side, l.relations[r].id, e).len() > 0);
}

/// Each relation that could be unique and has a holder with values to be listed is a candidate.
pub proof fn law_a_relation_with_a_holder_is_a_candidate(
    l: LedgerModel,
    kb_id: u128,
    side: Uniqueness,
    r: int,
    e: int,
)
    requires
        0 <= r < l.relations.len(),
        0 <= e < l.entities.len(),
        is_possible(side, l.relations[r]),
        values_at(l, kb_id, side, l.relations[r].id, e).len() > 0,
    ensures
        candidates(l, kb_id, side).contains(candidate(l, kb_id, side)(l.relations[r])),
{
    let p = could_be_unique(side);
    let f = candidate(l, kb_id, side);
    let kept = l.relations.filter(p);
    let said = kept.map_values(f);
    assert(l.relations.contains(l.relations[r]));
    lemma_filter_contains(l.relations, p, l.relations[r]);
    let j = choose|j: int| 0 <= j < kept.len() && kept[j] == l.relations[r];
    assert(said[j] == f(l.relations[r]));
    let h = as_holder(l, kb_id, side, l.relations[r].id);
    let mapped = l.entities.map_values(h);
    assert(mapped.contains(mapped[e]));
    lemma_filter_contains(mapped, has_values(), mapped[e]);
    assert(mapped.filter(has_values()).len() > 0);
    assert(said.contains(said[j]));
    lemma_filter_contains(said, has_holders(), said[j]);
}

/// The examples of a candidate are its first holders, up to three: each with its name and its
/// values.
pub proof fn law_examples_are_the_first_holders(
    l: LedgerModel,
    kb_id: u128,
    side: Uniqueness,
    r: RelationType,
)
    ensures
        ({
            let c = candidate(l, kb_id, side)(r);
            &&& c.examples.len() == if c.holders < 3 {
                c.holders as int
            } else {
                3
            }
            &&& forall|k: int|
                0 <= k < c.examples.len() ==> is_holder(
                    l,
                    kb_id,
                    side,
                    r.id,
                    #[trigger] c.examples[k],
                )
        }),
        forall|e: int|
            0 <= e < l.entities.len() && (#[trigger] values_at(l, kb_id, side, r.id, e)).len() > 0
                && (forall|j: int|
                0 <= j < e ==> (#[trigger] values_at(l, kb_id, side, r.id, j)).len() == 0)
                ==> candidate(l, kb_id, side)(r).examples[0].holder
                == l.entities[e].canonical_name@,
{
    let h = as_holder(l, kb_id, side, r.id);
    let mapped = l.entities.map_values(h);
    let found = mapped.filter(has_values());
    let c = candidate(l, kb_id, side)(r);
    assert forall|k: int| 0 <= k < c.examples.len() implies is_holder(
        l,
        kb_id,
        side,
        r.id,
        #[trigger] c.examples[k],
    ) by {
        assert(c.examples[k] == found[k]);
        assert(found.contains(found[k]));
        lemma_filter_contains(mapped, has_values(), found[k]);
        let e = choose|e: int| 0 <= e < mapped.len() && mapped[e] == found[k];
        assert(values_at(l, kb_id, side, r.id, e) == found[k].values);
    }
    assert forall|e: int|
        0 <= e < l.entities.len() && (#[trigger] values_at(l, kb_id, side, r.id, e)).len() > 0 && (
        forall|j: int| 0 <= j < e ==> (#[trigger] values_at(l, kb_id, side, r.id, j)).len() == 0)
        implies c.examples[0].holder == l.entities[e].canonical_name@ by {
        assert forall|j: int| 0 <= j < e implies !has_values()(#[trigger] mapped[j]) by {
            assert(values_at(l, kb_id, side, r.id, j).len() == 0);
        }
        lemma_first_kept(mapped, has_values(), e);
    }
}

/// What a filter keeps first.
proof fn lemma_first_kept<A>(s: Seq<A>, p: spec_fn(A) -> bool, e: int)
    requires
        0 <= e < s.len(),
        p(s[e]),
        forall|j: int| 0 <= j < e ==> !p(#[trigger] s[j]),
    ensures
        s.filter(p).len() > 0,
        s.filter(p)[0] == s[e],
    decreases s.len(),
{
    reveal(Seq::filter);
    let head = s.drop_last();
    if e == s.len() - 1 {
        assert forall|j: int| 0 <= j < head.len() implies !p(#[trigger] head[j]) by {
            assert(head[j] == s[j]);
        }
        lemma_filter_none(head, p);
    } else {
        assert forall|j: int| 0 <= j < e implies !p(#[trigger] head[j]) by {
            assert(head[j] == s[j]);
        }
        lemma_first_kept(head, p, e);
    }
}

/// An entity with values to be listed, its name and its values.
pub open spec fn is_holder(
    l: LedgerModel,
    kb_id: u128,
    side: Uniqueness,
    predicate_id: u128,
    h: HolderModel,
) -> bool {
    exists|e: int|
        0 <= e < l.entities.len() && h.holder == l.entities[e].canonical_name@ && h.values
            == #[trigger] values_at(l, kb_id, side, predicate_id, e) && h.values.len() > 0
}

/// How a literal reads: a string as itself; a value with its unit, where that is a string and not
/// empty; a value without one as it is; anything else as JSON, and what is no JSON as it stands.
pub proof fn law_a_literal_reads_as_a_value_with_its_unit(json: Seq<char>)
    ensures
        ({
            let reads = literal(json).reads();
            let value = json_member(json, "value"@);
            let unit = json_member(json, "unit"@);
            let text = if value is Some && json_str(value->0) is Some {
                json_str(value->0)->0
            } else {
                value->0
            };
            &&& json_str(json) is Some ==> reads == json_str(json)->0
            &&& json_str(json) is None && value is Some ==> {
                &&& unit is Some && json_str(unit->0) is Some && json_str(unit->0)->0.len() > 0
                    ==> reads == text + " "@ + json_str(unit->0)->0
                &&& unit is None || json_str(unit->0) is None || json_str(unit->0)->0.len() == 0
                    ==> reads == text
            }
            &&& json_str(json) is None && value is None && json_compact(json) is Some ==> reads
                == json_compact(json)->0
            &&& json_str(json) is None && value is None && json_compact(json) is None ==> reads
                == json
        }),
{
}

/// A count is exact as far as a machine word goes.
pub proof fn law_a_count_is_exact(n: nat)
    ensures
        n <= usize::MAX ==> capped(n) == n,
        n > usize::MAX ==> capped(n) == usize::MAX,
{
}

proof fn lemma_kept_count(
    l: LedgerModel,
    kb_id: u128,
    side: Uniqueness,
    predicate_id: u128,
    holder: u128,
    n: int,
)
    requires
        0 <= n <= l.facts.len(),
    ensures
        l.facts.take(n).filter(open_at(kb_id, side, predicate_id, holder)).filter(
            can_list(l, side),
        ).len() == sum(
            |i: int| one_if(is_listed_value(l, kb_id, side, predicate_id, holder, i)),
            n,
        ),
    decreases n,
{
    let p = open_at(kb_id, side, predicate_id, holder);
    let q = can_list(l, side);
    reveal(Seq::filter);
    if n == 0 {
        assert(l.facts.take(0).filter(p) =~= Seq::<FactModel>::empty());
    } else {
        lemma_kept_count(l, kb_id, side, predicate_id, holder, n - 1);
        let f = l.facts[n - 1];
        assert(l.facts.take(n).drop_last() =~= l.facts.take(n - 1));
        assert(l.facts.take(n).last() == f);
        let before = l.facts.take(n - 1).filter(p);
        lemma_named(l, f.subject_id);
        if p(f) {
            assert(l.facts.take(n).filter(p) == before.push(f));
            assert(before.push(f).drop_last() =~= before);
        }
    }
}

/// A present and open fact of a holder that can be listed: on the object side its subject has a
/// name.
pub open spec fn is_listed_value(
    l: LedgerModel,
    kb_id: u128,
    side: Uniqueness,
    predicate_id: u128,
    holder: u128,
    i: int,
) -> bool {
    is_open_value(l, kb_id, side, predicate_id, holder, i) && (side is SubjectSide || !is_named(
        l,
        l.facts[i].subject_id,
        None,
    ))
}

/// A holder that is listed has as many values as it has present and open facts that can be listed.
pub proof fn law_values_are_as_many_as_open_facts(
    l: LedgerModel,
    kb_id: u128,
    side: Uniqueness,
    predicate_id: u128,
    holder: u128,
)
    ensures
        ({
            let values = open_values(l, kb_id, side, predicate_id, holder);
            values.len() == 0 || values.len() == sum(
                |i: int| one_if(is_listed_value(l, kb_id, side, predicate_id, holder, i)),
                l.facts.len() as int,
            )
        }),
{
    let n = l.facts.len() as int;
    let kept = l.facts.filter(open_at(kb_id, side, predicate_id, holder)).filter(
        can_list(l, side),
    );
    assert(l.facts.take(n) =~= l.facts);
    lemma_kept_count(l, kb_id, side, predicate_id, holder, n);
    lemma_arrange(kept, by_start());
}

/// A filter keeps the order.
proof fn lemma_filter_order<A>(s: Seq<A>, p: spec_fn(A) -> bool, a: int, b: int) -> (r: (int, int))
    requires
        0 <= a < b < s.filter(p).len(),
    ensures
        0 <= r.0 < r.1 < s.len(),
        s[r.0] == s.filter(p)[a],
        s[r.1] == s.filter(p)[b],
        p(s[r.0]),
        p(s[r.1]),
    decreases s.len(),
{
    reveal(Seq::filter);
    let head = s.drop_last();
    let kept = head.filter(p);
    if b < kept.len() {
        let r = lemma_filter_order(head, p, a, b);
        assert(head[r.0] == s[r.0] && head[r.1] == s[r.1]);
        r
    } else {
        assert(kept.contains(kept[a]));
        lemma_filter_contains(head, p, kept[a]);
        let i = choose|i: int| 0 <= i < head.len() && head[i] == kept[a];
        assert(s[i] == head[i]);
        (i, s.len() - 1)
    }
}

/// Candidates come in the order of their relations.
pub proof fn law_candidates_come_as_their_relations(
    l: LedgerModel,
    kb_id: u128,
    side: Uniqueness,
    a: int,
    b: int,
)
    requires
        0 <= a < b < candidates(l, kb_id, side).len(),
    ensures
        exists|r: int, q: int|
            0 <= r < q < l.relations.len() && candidates(l, kb_id, side)[a].predicate_id == (
            #[trigger] l.relations[r]).id && candidates(l, kb_id, side)[b].predicate_id == (
            #[trigger] l.relations[q]).id,
{
    let kept = l.relations.filter(could_be_unique(side));
    let said = kept.map_values(candidate(l, kb_id, side));
    let (m, n) = lemma_filter_order(said, has_holders(), a, b);
    let (r, q) = lemma_filter_order(l.relations, could_be_unique(side), m, n);
    assert(said[m].predicate_id == l.relations[r].id);
    assert(said[n].predicate_id == l.relations[q].id);
}

/// Examples come in the order of the entities.
pub proof fn law_examples_come_as_their_entities(
    l: LedgerModel,
    kb_id: u128,
    side: Uniqueness,
    r: RelationType,
    a: int,
    b: int,
)
    requires
        0 <= a < b < candidate(l, kb_id, side)(r).examples.len(),
    ensures
        exists|e: int, f: int|
            0 <= e < f < l.entities.len() && candidate(l, kb_id, side)(r).examples[a].values
                == #[trigger] values_at(l, kb_id, side, r.id, e) && candidate(l, kb_id, side)(
                r,
            ).examples[b].values == #[trigger] values_at(l, kb_id, side, r.id, f),
{
    let mapped = l.entities.map_values(as_holder(l, kb_id, side, r.id));
    let found = mapped.filter(has_values());
    let c = candidate(l, kb_id, side)(r);
    assert(c.examples[a] == found[a] && c.examples[b] == found[b]);
    let (e, f) = lemma_filter_order(mapped, has_values(), a, b);
    assert(values_at(l, kb_id, side, r.id, e) == mapped[e].values);
    assert(values_at(l, kb_id, side, r.id, f) == mapped[f].values);
}

} // verus!
