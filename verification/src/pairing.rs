//! What cannot be told is left to a person pair by pair, each pair once.

use crate::candidates::{
    can_list, crowded, meeting, open_at, open_values, plan, value_of, ValueModel,
};
use crate::engine::{open_rival, row_with_id, simultaneous_rival, undated_rival, Desk};
use crate::estimate::{law_what_cannot_be_told_is_reviewed_in_pairs, lemma_pairs, pairs};
use crate::handover::{
    at_rest, lemma_asked, lemma_rows_identified, lemma_same_timeline, lemma_successor, with_person,
};
use crate::history::{lemma_filter_all, lemma_filter_none};
use crate::identity::{lemma_apart, lemma_filter_contains, lemma_found, lemma_timeline};
use crate::laws::{
    law_a_pair_is_left_to_a_person_once, law_what_is_tidy_stays, pairs_differ, row_on,
};
use crate::ledger::{
    conflict_between, pending_between, ChangeModel, ConflictModel, FactModel, LedgerModel,
};
use crate::order::{arrange, first, lemma_arrange, lemma_first};
use crate::placing::{
    facts_apart, lemma_arrange_apart, lemma_facts_apart, lemma_filter_apart, lemma_timeline_apart,
    tell_apart,
};
use crate::replay::{id_of, open_under, replay_key, to_reconcile, unique_state, ReplayOrder};
use crate::rewrite::{raised, relation_with_id};
use crate::timeline::{by_recorded, on_timeline, says_same, successor, timeline, RowModel, Scope};
use vstd::prelude::*;

verus! {

/// There is a conflict of the two facts, in this order.
pub open spec fn is_raised(l: LedgerModel, old_fact_id: u128, new_fact_id: u128) -> bool {
    first(l.conflicts, conflict_between(old_fact_id, new_fact_id)) is Some
}

/// Some row has that identifier.
pub open spec fn has_row(rows: Seq<RowModel>, id: u128) -> bool {
    exists|k: int| 0 <= k < rows.len() && (#[trigger] rows[k]).id == id
}

/// A row that is not with a person yet together with the fact `new_id`, in the other order.
pub open spec fn unasked(l: LedgerModel, new_id: u128) -> spec_fn(RowModel) -> bool {
    |o: RowModel| !l.is_pending(new_id, o.id)
}

/// A row with another identifier.
pub open spec fn other_than(id: u128) -> spec_fn(RowModel) -> bool {
    |o: RowModel| o.id != id
}

/// A row of none of some facts.
pub open spec fn not_of(facts: Seq<FactModel>) -> spec_fn(RowModel) -> bool {
    |o: RowModel| forall|k: int| 0 <= k < facts.len() ==> (#[trigger] facts[k]).id != o.id
}

proof fn lemma_first_pushed(s: Seq<ConflictModel>, c: ConflictModel, p: spec_fn(ConflictModel) -> bool)
    ensures
        first(s.push(c), p) is Some <==> first(s, p) is Some || p(c),
{
    assert(s.push(c).drop_last() =~= s);
    assert(s.push(c).last() == c);
}

/// Two filters that agree on what they are given.
pub proof fn lemma_filter_same<A>(s: Seq<A>, p: spec_fn(A) -> bool, q: spec_fn(A) -> bool)
    requires
        forall|i: int| 0 <= i < s.len() ==> p(#[trigger] s[i]) == q(s[i]),
    ensures
        s.filter(p) == s.filter(q),
    decreases s.len(),
{
    reveal(Seq::filter);
    if s.len() > 0 {
        let head = s.drop_last();
        assert forall|i: int| 0 <= i < head.len() implies p(#[trigger] head[i]) == q(head[i]) by {
            assert(head[i] == s[i]);
        }
        lemma_filter_same(head, p, q);
        assert(p(s[s.len() - 1]) == q(s[s.len() - 1]));
    }
}

/// Two filters, one after the other.
proof fn lemma_filter_twice<A>(
    s: Seq<A>,
    p: spec_fn(A) -> bool,
    q: spec_fn(A) -> bool,
    both: spec_fn(A) -> bool,
)
    requires
        forall|i: int| 0 <= i < s.len() ==> both(#[trigger] s[i]) == (p(s[i]) && q(s[i])),
    ensures
        s.filter(p).filter(q) == s.filter(both),
    decreases s.len(),
{
    reveal(Seq::filter);
    if s.len() > 0 {
        let head = s.drop_last();
        assert forall|i: int| 0 <= i < head.len() implies both(#[trigger] head[i]) == (p(head[i])
            && q(head[i])) by {
            assert(head[i] == s[i]);
        }
        lemma_filter_twice(head, p, q, both);
        assert(both(s[s.len() - 1]) == (p(s[s.len() - 1]) && q(s[s.len() - 1])));
        let kept = head.filter(p);
        if p(s.last()) {
            assert(s.filter(p) == kept.push(s.last()));
            assert(kept.push(s.last()).drop_last() =~= kept);
        }
    }
}

/// A filter that passes over one row more keeps one less.
proof fn lemma_filter_one_less(
    rows: Seq<RowModel>,
    p: spec_fn(RowModel) -> bool,
    q: spec_fn(RowModel) -> bool,
    k: int,
)
    requires
        tell_apart(rows),
        0 <= k < rows.len(),
        p(rows[k]),
        forall|i: int|
            0 <= i < rows.len() ==> q(#[trigger] rows[i]) == (p(rows[i]) && rows[i].id
                != rows[k].id),
    ensures
        rows.filter(q).len() + 1 == rows.filter(p).len(),
    decreases rows.len(),
{
    reveal(Seq::filter);
    let n = rows.len() - 1;
    let head = rows.drop_last();
    assert(q(rows[n]) == (p(rows[n]) && rows[n].id != rows[k].id));
    if k == n {
        assert forall|i: int| 0 <= i < head.len() implies p(#[trigger] head[i]) == q(head[i]) by {
            assert(head[i] == rows[i]);
            assert(rows[i].id != rows[n].id);
        }
        lemma_filter_same(head, p, q);
    } else {
        assert forall|i: int, j: int| 0 <= i < j < head.len() implies (#[trigger] head[i]).id != (
        #[trigger] head[j]).id by {
            assert(head[i] == rows[i] && head[j] == rows[j]);
        }
        assert forall|i: int| 0 <= i < head.len() implies q(#[trigger] head[i]) == (p(head[i])
            && head[i].id != head[k].id) by {
            assert(head[i] == rows[i]);
        }
        lemma_filter_one_less(head, p, q, k);
        assert(rows[k].id != rows[n].id);
    }
}

/// How many rows are of none of some facts.
proof fn lemma_rows_left(rows: Seq<RowModel>, facts: Seq<FactModel>)
    requires
        tell_apart(rows),
        facts_apart(facts),
        forall|k: int| 0 <= k < facts.len() ==> has_row(rows, (#[trigger] facts[k]).id),
    ensures
        rows.filter(not_of(facts)).len() + facts.len() == rows.len(),
    decreases facts.len(),
{
    if facts.len() == 0 {
        lemma_filter_all(rows, not_of(facts));
    } else {
        let head = facts.drop_last();
        let x = facts.last();
        let n = facts.len() - 1;
        assert forall|k: int| 0 <= k < head.len() implies has_row(rows, (#[trigger] head[k]).id) by {
            assert(head[k] == facts[k]);
        }
        assert forall|i: int, j: int| 0 <= i < j < head.len() implies (#[trigger] head[i]).id != (
        #[trigger] head[j]).id by {
            assert(head[i] == facts[i] && head[j] == facts[j]);
        }
        lemma_rows_left(rows, head);
        assert(has_row(rows, facts[n].id));
        let k = choose|k: int| 0 <= k < rows.len() && (#[trigger] rows[k]).id == x.id;
        assert(not_of(head)(rows[k])) by {
            assert forall|j: int| 0 <= j < head.len() implies (#[trigger] head[j]).id
                != rows[k].id by {
                assert(facts[j].id != facts[n].id);
            }
        }
        assert forall|i: int| 0 <= i < rows.len() implies not_of(facts)(#[trigger] rows[i]) == (
        not_of(head)(rows[i]) && rows[i].id != rows[k].id) by {
            let o = rows[i];
            if not_of(facts)(o) {
                assert forall|j: int| 0 <= j < head.len() implies (#[trigger] head[j]).id
                    != o.id by {
                    assert(facts[j].id != o.id);
                }
                assert(facts[n].id != o.id);
            }
            if not_of(head)(o) && o.id != x.id {
                assert forall|j: int| 0 <= j < facts.len() implies (#[trigger] facts[j]).id
                    != o.id by {
                    if j < n {
                        assert(head[j].id != o.id);
                    }
                }
            }
        }
        lemma_filter_one_less(rows, not_of(head), not_of(facts), k);
    }
}

/// What is left to a person of some rows and a fact: those that are not with one already, in the
/// other order.
proof fn lemma_raise_unasked(
    d: Desk,
    kb_id: u128,
    rows: Seq<RowModel>,
    new_id: u128,
    reason: Seq<char>,
)
    requires
        tell_apart(rows),
        forall|k: int| 0 <= k < rows.len() ==> (#[trigger] rows[k]).id != new_id,
        forall|k: int|
            0 <= k < rows.len() ==> d.ledger.is_pending(new_id, (#[trigger] rows[k]).id)
                || !is_raised(d.ledger, rows[k].id, new_id),
        d.report.conflicts + rows.filter(unasked(d.ledger, new_id)).len() <= u32::MAX,
    ensures
        ({
            let end = d.raise_all(kb_id, rows, new_id, reason);
            let n = rows.filter(unasked(d.ledger, new_id)).len();
            &&& end.ledger == (LedgerModel {
                conflicts: end.ledger.conflicts,
                changes: end.ledger.changes,
                ..d.ledger
            })
            &&& end.ledger.conflicts.len() == d.ledger.conflicts.len() + n
            &&& end.report.conflicts == d.report.conflicts + n
            &&& end.report.corrected == d.report.corrected
            &&& pairs_differ(d.ledger) ==> pairs_differ(end.ledger)
            &&& forall|a: u128, b: u128| #[trigger]
                end.ledger.is_pending(a, b) <==> d.ledger.is_pending(a, b) || (b == new_id
                    && has_row(rows, a) && !d.ledger.is_pending(new_id, a))
            &&& forall|a: u128, b: u128| #[trigger]
                is_raised(end.ledger, a, b) <==> is_raised(d.ledger, a, b) || (b == new_id
                    && has_row(rows, a) && !d.ledger.is_pending(new_id, a))
        }),
    decreases rows.len(),
{
    reveal(Seq::filter);
    if rows.len() > 0 {
        let n = rows.len() - 1;
        let head = rows.drop_last();
        let o = rows.last();
        assert(o == rows[n]);
        assert forall|k: int| 0 <= k < head.len() implies (#[trigger] head[k]).id != new_id && (
        d.ledger.is_pending(new_id, head[k].id) || !is_raised(d.ledger, head[k].id, new_id)) by {
            assert(head[k] == rows[k]);
        }
        assert forall|i: int, j: int| 0 <= i < j < head.len() implies (#[trigger] head[i]).id != (
        #[trigger] head[j]).id by {
            assert(head[i] == rows[i] && head[j] == rows[j]);
        }
        lemma_raise_unasked(d, kb_id, head, new_id, reason);
        let mid = d.raise_all(kb_id, head, new_id, reason);
        let end = d.raise_all(kb_id, rows, new_id, reason);
        assert(end == mid.raise(kb_id, o.id, new_id, reason));
        assert(rows[n].id != new_id);
        assert(mid.ledger.is_pending(new_id, o.id) == d.ledger.is_pending(new_id, o.id));
        assert forall|a: u128| has_row(rows, a) <==> #[trigger] has_row(head, a) || a == o.id by {
            if has_row(rows, a) {
                let k = choose|k: int| 0 <= k < rows.len() && (#[trigger] rows[k]).id == a;
                if k < n {
                    assert(head[k].id == a);
                }
            }
            if has_row(head, a) {
                let k = choose|k: int| 0 <= k < head.len() && (#[trigger] head[k]).id == a;
                assert(rows[k].id == a);
            }
        }
        if !d.ledger.is_pending(new_id, o.id) {
            let c = raised(mid.ids[0], kb_id, o.id, new_id, reason, mid.now);
            assert(!has_row(head, o.id)) by {
                if has_row(head, o.id) {
                    let k = choose|k: int| 0 <= k < head.len() && (#[trigger] head[k]).id == o.id;
                    assert(rows[k].id != rows[n].id);
                }
            }
            assert(!is_raised(mid.ledger, o.id, new_id));
            if mid.ledger.is_asked(o.id, new_id, mid.now) {
                lemma_asked(mid.ledger, o.id, new_id, mid.now);
            }
            assert(end.ledger.conflicts == mid.ledger.conflicts.push(c));
            if pairs_differ(d.ledger) {
                law_a_pair_is_left_to_a_person_once(
                    mid.ledger,
                    ChangeModel::Raise { conflict: c },
                );
            }
            assert forall|a: u128, b: u128| #[trigger]
                end.ledger.is_pending(a, b) <==> mid.ledger.is_pending(a, b) || (b == new_id && a
                    == o.id) by {
                lemma_first_pushed(mid.ledger.conflicts, c, pending_between(a, b));
            }
            assert forall|a: u128, b: u128| #[trigger]
                is_raised(end.ledger, a, b) <==> is_raised(mid.ledger, a, b) || (b == new_id && a
                    == o.id) by {
                lemma_first_pushed(mid.ledger.conflicts, c, conflict_between(a, b));
            }
        }
        assert forall|a: u128, b: u128| #[trigger]
            end.ledger.is_pending(a, b) <==> d.ledger.is_pending(a, b) || (b == new_id
                && has_row(rows, a) && !d.ledger.is_pending(new_id, a)) by {
            assert(has_row(rows, a) <==> has_row(head, a) || a == o.id);
            assert(mid.ledger.is_pending(a, b) <==> d.ledger.is_pending(a, b) || (b == new_id
                && has_row(head, a) && !d.ledger.is_pending(new_id, a)));
        }
        assert forall|a: u128, b: u128| #[trigger]
            is_raised(end.ledger, a, b) <==> is_raised(d.ledger, a, b) || (b == new_id && has_row(
                rows,
                a,
            ) && !d.ledger.is_pending(new_id, a)) by {
            assert(has_row(rows, a) <==> has_row(head, a) || a == o.id);
            assert(is_raised(mid.ledger, a, b) <==> is_raised(d.ledger, a, b) || (b == new_id
                && has_row(head, a) && !d.ledger.is_pending(new_id, a)));
        }
    }
}

/// The relation of a timeline is a state, and unique on the side of the timeline alone.
pub open spec fn unique_here(l: LedgerModel, scope: Scope) -> bool {
    match l.relation(scope.predicate_id) {
        Some(r) => {
            &&& unique_state(r)
            &&& r.functional == (scope.side is SubjectSide)
            &&& r.inverse_functional == (scope.side is ObjectSide)
        },
        None => false,
    }
}

/// The rows of a timeline are all open, no two say the same, and which of them succeeds which
/// cannot be told: all start together, or none has a time at all.
pub open spec fn cannot_be_told(l: LedgerModel, scope: Scope) -> bool {
    &&& l.distinct()
    &&& forall|i: int| #[trigger]
        l.stands(scope, i) ==> l.facts[i].is_open() && (l.facts[i].object_id is Some
            || l.facts[i].object_value is Some)
    &&& forall|i: int, j: int| #[trigger]
        l.stands(scope, i) && #[trigger] l.stands(scope, j) && i != j ==> {
            &&& !says_same(scope.side, l.row(i), l.row(j))
            &&& l.row(i).key() == l.row(j).key()
            &&& l.row(i).valid_from == l.row(j).valid_from
        }
}

/// Reconciling one of the facts leaves it to a person with each of the others.
proof fn lemma_meets_all(d: Desk, scope: Scope, i: int) -> (reason: Seq<char>)
    requires
        cannot_be_told(d.ledger, scope),
        unique_here(d.ledger, scope),
        d.ledger.stands(scope, i),
    ensures
        d.reconcile_again(scope.kb_id, d.ledger.facts[i]) == d.raise_all(
            scope.kb_id,
            timeline(d.ledger, scope).filter(other_than(d.ledger.facts[i].id)),
            d.ledger.facts[i].id,
            reason,
        ),
{
    let l = d.ledger;
    let f = l.facts[i];
    let x = l.row(i);
    let side = scope.side;
    let rows = timeline(l, scope);
    let none = Seq::<(u128, u128)>::empty();
    lemma_found(l, i);
    lemma_timeline(l, scope);
    lemma_first(l.relations, relation_with_id(scope.predicate_id));
    lemma_rows_identified(l, scope);
    assert(rows.contains(x));
    assert(row_on(l, scope, f.id) == Some(x)) by {
        lemma_first(rows, row_with_id(f.id));
        let k = choose|k: int| 0 <= k < rows.len() && rows[k] == x;
        assert(row_with_id(f.id)(rows[k]));
    }
    assert forall|r: RowModel| #[trigger] rows.contains(r) implies {
        &&& r.is_open()
        &&& r.key() == x.key()
        &&& r.id != x.id ==> !says_same(side, r, x)
    } by {
        let j = choose|j: int| #[trigger] l.stands(scope, j) && l.row(j) == r;
        if j != i {
            assert(l.stands(scope, i));
        }
    }
    assert(d.reconcile_again(scope.kb_id, f) == d.place(scope, f.id)) by {
        let r = l.relation(scope.predicate_id)->0;
        assert(l.unique_relation(f) == Some(r));
        assert(r.id == scope.predicate_id);
        assert(l.alive_open(f.id) is Some);
    }
    assert forall|k: int| 0 <= k < rows.len() implies {
        &&& open_rival(side, x)(#[trigger] rows[k]) == other_than(f.id)(rows[k])
        &&& x.key() is Some ==> simultaneous_rival(side, x)(rows[k]) == other_than(f.id)(rows[k])
        &&& x.key() is Some ==> !undated_rival(side, x)(rows[k])
    } by {
        assert(rows.contains(rows[k]));
    }
    if x.key() is None {
        lemma_filter_same(rows, open_rival(side, x), other_than(f.id));
        "no_time"@
    } else {
        lemma_filter_same(rows, simultaneous_rival(side, x), other_than(f.id));
        lemma_filter_none(rows, undated_rival(side, x));
        let mid = d.raise_all(scope.kb_id, rows.filter(other_than(f.id)), f.id, "simultaneous"@);
        assert(d.receive(scope, x) == mid);
        lemma_raise_all_facts(d, scope.kb_id, rows.filter(other_than(f.id)), f.id, "simultaneous"@);
        lemma_same_timeline(l, mid.ledger, scope);
        assert(at_rest(side, rows, none)) by {
            assert forall|r: RowModel| #[trigger] rows.contains(r) implies successor(
                side,
                rows,
                r,
            ) is None by {
                lemma_successor(side, rows, r);
            }
        }
        law_what_is_tidy_stays(mid, scope);
        "simultaneous"@
    }
}

/// Leaving rows to a person changes no fact.
proof fn lemma_raise_all_facts(
    d: Desk,
    kb_id: u128,
    rows: Seq<RowModel>,
    new_id: u128,
    reason: Seq<char>,
)
    ensures
        d.raise_all(kb_id, rows, new_id, reason).ledger.facts == d.ledger.facts,
        d.raise_all(kb_id, rows, new_id, reason).ledger.evidence == d.ledger.evidence,
        d.raise_all(kb_id, rows, new_id, reason).ledger.documents == d.ledger.documents,
    decreases rows.len(),
{
    if rows.len() > 0 {
        lemma_raise_all_facts(d, kb_id, rows.drop_last(), new_id, reason);
    }
}

/// What is known once some of the facts were reconciled: each of them is with a person together
/// with each other row, and nothing else was asked.
pub open spec fn asked_of(rows: Seq<RowModel>, l: LedgerModel, done: Seq<FactModel>) -> bool {
    forall|a: u128, b: u128|
        #![trigger l.is_pending(a, b)]
        #![trigger is_raised(l, a, b)]
        has_row(rows, a) && has_row(rows, b) && a != b ==> {
            &&& !is_among(done, b) ==> !is_raised(l, a, b) && !l.is_pending(a, b)
            &&& is_among(done, b) && !is_among(done, a) ==> l.is_pending(a, b)
            &&& is_among(done, b) ==> is_raised(l, a, b) || is_raised(l, b, a)
        }
}

/// Some fact has that identifier.
pub open spec fn is_among(facts: Seq<FactModel>, id: u128) -> bool {
    exists|k: int| 0 <= k < facts.len() && (#[trigger] facts[k]).id == id
}

/// What is known once one more of the facts was reconciled.
proof fn lemma_asked_on(
    rows: Seq<RowModel>,
    l: LedgerModel,
    after: LedgerModel,
    facts: Seq<FactModel>,
)
    requires
        facts.len() > 0,
        facts_apart(facts),
        asked_of(rows, l, facts.drop_last()),
        has_row(rows, facts.last().id),
        forall|a: u128, b: u128| #[trigger]
            after.is_pending(a, b) <==> l.is_pending(a, b) || (b == facts.last().id && has_row(
                rows,
                a,
            ) && a != b && !l.is_pending(b, a)),
        forall|a: u128, b: u128| #[trigger]
            is_raised(after, a, b) <==> is_raised(l, a, b) || (b == facts.last().id && has_row(
                rows,
                a,
            ) && a != b && !l.is_pending(b, a)),
    ensures
        asked_of(rows, after, facts),
{
    let n = facts.len() - 1;
    let head = facts.drop_last();
    let x = facts.last().id;
    assert forall|a: u128| #[trigger] is_among(facts, a) <==> is_among(head, a) || a == x by {
        if is_among(facts, a) {
            let k = choose|k: int| 0 <= k < facts.len() && (#[trigger] facts[k]).id == a;
            if k < n {
                assert(head[k].id == a);
            }
        }
        if is_among(head, a) {
            let k = choose|k: int| 0 <= k < head.len() && (#[trigger] head[k]).id == a;
            assert(facts[k].id == a);
        }
        assert(facts[n].id == x);
    }
    assert(!is_among(head, x)) by {
        if is_among(head, x) {
            let k = choose|k: int| 0 <= k < head.len() && (#[trigger] head[k]).id == x;
            assert(facts[k].id != facts[n].id);
        }
    }
    assert forall|a: u128, b: u128|
        #![trigger after.is_pending(a, b)]
        #![trigger is_raised(after, a, b)]
        has_row(rows, a) && has_row(rows, b) && a != b implies {
        &&& !is_among(facts, b) ==> !is_raised(after, a, b) && !after.is_pending(a, b)
        &&& is_among(facts, b) && !is_among(facts, a) ==> after.is_pending(a, b)
        &&& is_among(facts, b) ==> is_raised(after, a, b) || is_raised(after, b, a)
    } by {
        assert(is_among(facts, a) <==> is_among(head, a) || a == x);
        assert(is_among(facts, b) <==> is_among(head, b) || b == x);
        if l.is_pending(b, a) {
            lemma_pending_raised(l, b, a);
        }
    }
}

/// What is pending was raised.
proof fn lemma_pending_raised(l: LedgerModel, a: u128, b: u128)
    requires
        l.is_pending(a, b),
    ensures
        is_raised(l, a, b),
{
    let p = pending_between(a, b);
    let q = conflict_between(a, b);
    lemma_first(l.conflicts, p);
    lemma_first(l.conflicts, q);
    let k = choose|k: int| 0 <= k < l.conflicts.len() && l.conflicts[k] == first(l.conflicts, p)->0;
    assert(q(l.conflicts[k]));
}

/// How many pairs have one of `done` values in them, of `n` values.
pub open spec fn pairs_with(n: nat, done: nat) -> int {
    pairs(n) - pairs((n - done) as nat)
}

/// What is asked when one more of the facts is reconciled: each row of none of them.
proof fn lemma_ask_one(rows: Seq<RowModel>, l: LedgerModel, facts: Seq<FactModel>)
    requires
        facts.len() > 0,
        tell_apart(rows),
        facts_apart(facts),
        forall|k: int| 0 <= k < facts.len() ==> has_row(rows, (#[trigger] facts[k]).id),
        asked_of(rows, l, facts.drop_last()),
    ensures
        ({
            let id = facts.last().id;
            let others = rows.filter(other_than(id));
            &&& tell_apart(others)
            &&& forall|a: u128| #[trigger] has_row(others, a) <==> has_row(rows, a) && a != id
            &&& forall|k: int|
                0 <= k < others.len() ==> (#[trigger] others[k]).id != id && (l.is_pending(
                    id,
                    others[k].id,
                ) || !is_raised(l, others[k].id, id))
            &&& others.filter(unasked(l, id)) == rows.filter(not_of(facts))
        }),
{
    let head = facts.drop_last();
    let last = facts.len() - 1;
    let f = facts.last();
    let others = rows.filter(other_than(f.id));
    assert(facts[last] == f);
    lemma_filter_apart(rows, other_than(f.id));
    assert(!is_among(head, f.id)) by {
        if is_among(head, f.id) {
            let k = choose|k: int| 0 <= k < head.len() && (#[trigger] head[k]).id == f.id;
            assert(facts[k].id != facts[last].id);
        }
    }
    assert(has_row(rows, f.id));
    assert forall|a: u128| #[trigger] has_row(others, a) <==> has_row(rows, a) && a != f.id by {
        lemma_other_rows(rows, f.id, a);
    }
    assert forall|k: int| 0 <= k < others.len() implies (#[trigger] others[k]).id != f.id && (
    l.is_pending(f.id, others[k].id) || !is_raised(
        l,
        others[k].id,
        f.id,
    )) by {
        assert(has_row(others, others[k].id));
    }
    assert forall|k: int| 0 <= k < rows.len() implies not_of(facts)(#[trigger] rows[k]) == (
    other_than(f.id)(rows[k]) && unasked(l, f.id)(rows[k])) by {
        let o = rows[k];
        assert(has_row(rows, o.id));
        if not_of(facts)(o) {
            assert(facts[last].id != o.id);
            assert(!is_among(head, o.id)) by {
                if is_among(head, o.id) {
                    let j = choose|j: int|
                        0 <= j < head.len() && (#[trigger] head[j]).id == o.id;
                    assert(facts[j].id == o.id);
                }
            }
        } else if o.id != f.id {
            let j = choose|j: int| 0 <= j < facts.len() && (#[trigger] facts[j]).id == o.id;
            assert(head[j].id == o.id);
            assert(is_among(head, o.id));
        }
    }
    lemma_filter_twice(rows, other_than(f.id), unasked(l, f.id), not_of(facts));
}

/// Reconciling some of the facts that cannot be told apart.
proof fn lemma_ask_each(d: Desk, scope: Scope, facts: Seq<FactModel>)
    requires
        cannot_be_told(d.ledger, scope),
        unique_here(d.ledger, scope),
        facts_apart(facts),
        forall|k: int|
            0 <= k < facts.len() ==> d.ledger.facts.contains(#[trigger] facts[k]) && on_timeline(
                scope,
            )(facts[k]),
        asked_of(timeline(d.ledger, scope), d.ledger, Seq::empty()),
        d.report.conflicts + pairs_with(timeline(d.ledger, scope).len(), facts.len()) <= u32::MAX,
    ensures
        ({
            let rows = timeline(d.ledger, scope);
            let end = d.reconcile_each(scope.kb_id, facts);
            let n = pairs_with(rows.len(), facts.len());
            &&& facts.len() <= rows.len()
            &&& end.ledger == (LedgerModel {
                conflicts: end.ledger.conflicts,
                changes: end.ledger.changes,
                ..d.ledger
            })
            &&& end.ledger.conflicts.len() == d.ledger.conflicts.len() + n
            &&& end.report.conflicts == d.report.conflicts + n
            &&& end.report.corrected == d.report.corrected
            &&& pairs_differ(d.ledger) ==> pairs_differ(end.ledger)
            &&& asked_of(rows, end.ledger, facts)
        }),
    decreases facts.len(),
{
    let rows = timeline(d.ledger, scope);
    lemma_timeline_apart(d.ledger, scope);
    lemma_timeline(d.ledger, scope);
    assert forall|k: int| 0 <= k < facts.len() implies has_row(rows, (#[trigger] facts[k]).id) by {
        assert(d.ledger.facts.contains(facts[k]));
        let i = choose|i: int| 0 <= i < d.ledger.facts.len() && d.ledger.facts[i] == facts[k];
        assert(d.ledger.stands(scope, i));
        assert(rows.contains(d.ledger.row(i)));
        let j = choose|j: int| 0 <= j < rows.len() && rows[j] == d.ledger.row(i);
        assert(rows[j].id == facts[k].id);
    }
    lemma_rows_left(rows, facts);
    if facts.len() > 0 {
        let head = facts.drop_last();
        let last = facts.len() - 1;
        let f = facts.last();
        assert(facts[last] == f);
        assert forall|k: int| 0 <= k < head.len() implies d.ledger.facts.contains(
            #[trigger] head[k],
        ) && on_timeline(scope)(head[k]) by {
            assert(head[k] == facts[k]);
        }
        assert forall|i: int, j: int| 0 <= i < j < head.len() implies (#[trigger] head[i]).id != (
        #[trigger] head[j]).id by {
            assert(head[i] == facts[i] && head[j] == facts[j]);
        }
        let left = (rows.len() - facts.len()) as nat;
        assert(pairs(left + 1) == pairs(left) + left);
        assert(pairs_with(rows.len(), facts.len()) == pairs_with(rows.len(), head.len()) + left);
        lemma_ask_each(d, scope, head);
        let mid = d.reconcile_each(scope.kb_id, head);
        lemma_same_timeline(d.ledger, mid.ledger, scope);
        assert(cannot_be_told(mid.ledger, scope)) by {
            assert forall|i: int| #[trigger] mid.ledger.stands(scope, i) == d.ledger.stands(
                scope,
                i,
            ) by {}
        }
        let i = choose|i: int| 0 <= i < d.ledger.facts.len() && d.ledger.facts[i] == facts[last];
        assert(mid.ledger.stands(scope, i));
        let reason = lemma_meets_all(mid, scope, i);
        let others = rows.filter(other_than(f.id));
        let end = d.reconcile_each(scope.kb_id, facts);
        assert(end == mid.raise_all(scope.kb_id, others, f.id, reason));
        lemma_ask_one(rows, mid.ledger, facts);
        lemma_raise_unasked(mid, scope.kb_id, others, f.id, reason);
        assert forall|a: u128, b: u128| #[trigger]
            end.ledger.is_pending(a, b) <==> mid.ledger.is_pending(a, b) || (b == f.id && has_row(
                rows,
                a,
            ) && a != b && !mid.ledger.is_pending(b, a)) by {
            assert(has_row(others, a) <==> has_row(rows, a) && a != f.id);
        }
        assert forall|a: u128, b: u128| #[trigger]
            is_raised(end.ledger, a, b) <==> is_raised(mid.ledger, a, b) || (b == f.id && has_row(
                rows,
                a,
            ) && a != b && !mid.ledger.is_pending(b, a)) by {
            assert(has_row(others, a) <==> has_row(rows, a) && a != f.id);
        }
        lemma_asked_on(rows, mid.ledger, end.ledger, facts);
    } else {
        assert(facts =~= Seq::<FactModel>::empty());
    }
}

/// The rows other than one.
proof fn lemma_other_rows(rows: Seq<RowModel>, id: u128, a: u128)
    ensures
        has_row(rows.filter(other_than(id)), a) <==> has_row(rows, a) && a != id,
{
    let others = rows.filter(other_than(id));
    if has_row(others, a) {
        let k = choose|k: int| 0 <= k < others.len() && (#[trigger] others[k]).id == a;
        assert(others.contains(others[k]));
        lemma_filter_contains(rows, other_than(id), others[k]);
        let j = choose|j: int| 0 <= j < rows.len() && rows[j] == others[k];
        assert(rows[j].id == a);
    }
    if has_row(rows, a) && a != id {
        let k = choose|k: int| 0 <= k < rows.len() && (#[trigger] rows[k]).id == a;
        assert(rows.contains(rows[k]));
        lemma_filter_contains(rows, other_than(id), rows[k]);
        let j = choose|j: int| 0 <= j < others.len() && others[j] == rows[k];
        assert(others[j].id == a);
    }
}

/// All present and open facts of the relation stand on the timeline.
pub open spec fn all_here(l: LedgerModel, scope: Scope) -> bool {
    forall|i: int|
        0 <= i < l.facts.len() && open_under(scope.kb_id, scope.predicate_id)(
            #[trigger] l.facts[i],
        ) ==> l.stands(scope, i)
}

/// The identifiers of the present and open facts of a relation.
pub open spec fn open_ids(l: LedgerModel, kb_id: u128, predicate_id: u128) -> Seq<u128> {
    l.facts.filter(open_under(kb_id, predicate_id)).map_values(id_of())
}

/// The facts of a timeline, in the order in which they are reconciled.
pub open spec fn replayed(l: LedgerModel, scope: Scope, order: ReplayOrder) -> Seq<FactModel> {
    arrange(l.facts.filter(on_timeline(scope)), replay_key(order))
}

/// Where all rows of a timeline are open, and all open facts of the relation stand on it, they are
/// what is reconciled when the relation is.
pub proof fn lemma_replayed(l: LedgerModel, scope: Scope, order: ReplayOrder)
    requires
        l.distinct(),
        unique_here(l, scope),
        all_here(l, scope),
        forall|i: int| #[trigger] l.stands(scope, i) ==> l.facts[i].is_open(),
    ensures
        l.facts.filter(
            to_reconcile(l, scope.kb_id, open_ids(l, scope.kb_id, scope.predicate_id)),
        ) == l.facts.filter(on_timeline(scope)),
        facts_apart(replayed(l, scope, order)),
        replayed(l, scope, order).len() == timeline(l, scope).len(),
        forall|k: int|
            0 <= k < replayed(l, scope, order).len() ==> l.facts.contains(
                #[trigger] replayed(l, scope, order)[k],
            ) && on_timeline(scope)(replayed(l, scope, order)[k]),
        forall|i: int| #[trigger]
            l.stands(scope, i) ==> replayed(l, scope, order).contains(l.facts[i]),
{
    let under = open_under(scope.kb_id, scope.predicate_id);
    let opened = l.facts.filter(under);
    let ids = open_ids(l, scope.kb_id, scope.predicate_id);
    let p = to_reconcile(l, scope.kb_id, ids);
    let q = on_timeline(scope);
    let kept = l.facts.filter(q);
    let list = replayed(l, scope, order);
    assert forall|i: int| 0 <= i < l.facts.len() implies p(#[trigger] l.facts[i]) == q(
        l.facts[i],
    ) by {
        let f = l.facts[i];
        assert(l.facts.contains(f));
        if q(f) {
            assert(l.stands(scope, i));
            assert(under(f));
            lemma_filter_contains(l.facts, under, f);
            let k = choose|k: int| 0 <= k < opened.len() && opened[k] == f;
            assert(ids[k] == f.id);
        }
        if p(f) {
            let k = choose|k: int| 0 <= k < ids.len() && ids[k] == f.id;
            let g = opened[k];
            assert(opened.contains(g));
            lemma_filter_contains(l.facts, under, g);
            let j = choose|j: int| 0 <= j < l.facts.len() && l.facts[j] == g;
            if i != j {
                lemma_apart(l, i, j);
            }
            assert(l.stands(scope, i));
        }
    }
    lemma_filter_same(l.facts, p, q);
    lemma_facts_apart(l.facts, q);
    lemma_arrange_apart(kept, replay_key(order));
    lemma_arrange(kept, replay_key(order));
    lemma_arrange(kept, by_recorded());
    assert forall|k: int| 0 <= k < list.len() implies l.facts.contains(#[trigger] list[k]) && q(
        list[k],
    ) by {
        assert(list.contains(list[k]));
        assert(kept.contains(list[k]));
        lemma_filter_contains(l.facts, q, list[k]);
    }
    assert forall|i: int| #[trigger] l.stands(scope, i) implies list.contains(l.facts[i]) by {
        assert(l.facts.contains(l.facts[i]));
        lemma_filter_contains(l.facts, q, l.facts[i]);
    }
}

/// Where the open values of a holder are listed, and all have a name, they are the facts of the
/// timeline by their start.
pub proof fn lemma_open_values(l: LedgerModel, scope: Scope)
    requires
        l.distinct(),
        forall|i: int| #[trigger]
            l.stands(scope, i) ==> l.facts[i].is_open() && (l.facts[i].object_id is Some
                || l.facts[i].object_value is Some),
        are_listed(l, scope),
    ensures
        values_of(l, scope) == replayed(l, scope, ReplayOrder::Chronological).map_values(
            value_of(l, scope.side),
        ),
{
    let at = open_at(scope.kb_id, scope.side, scope.predicate_id, scope.holder);
    let q = on_timeline(scope);
    assert forall|i: int| 0 <= i < l.facts.len() implies at(#[trigger] l.facts[i]) == q(
        l.facts[i],
    ) by {
        if q(l.facts[i]) {
            assert(l.stands(scope, i));
        }
    }
    lemma_filter_same(l.facts, at, q);
    let kept = l.facts.filter(q);
    assert forall|k: int| 0 <= k < kept.len() implies can_list(l, scope.side)(#[trigger] kept[k]) by {
        assert(kept.contains(kept[k]));
        lemma_filter_contains(l.facts, q, kept[k]);
        let i = choose|i: int| 0 <= i < l.facts.len() && l.facts[i] == kept[k];
        assert(l.stands(scope, i));
    }
    lemma_filter_all(kept, can_list(l, scope.side));
}

/// The open values of the holder of a timeline.
pub open spec fn values_of(l: LedgerModel, scope: Scope) -> Seq<ValueModel> {
    open_values(l, scope.kb_id, scope.side, scope.predicate_id, scope.holder)
}

/// The holder of a timeline is listed with two or more values, and each of them has a name.
pub open spec fn are_listed(l: LedgerModel, scope: Scope) -> bool {
    &&& crowded(
        scope.side,
        l.facts.filter(open_at(scope.kb_id, scope.side, scope.predicate_id, scope.holder)),
    )
    &&& forall|i: int| #[trigger]
        l.stands(scope, i) ==> can_list(l, scope.side)(l.facts[i])
}

/// A pair is one question: where of the open values of a holder none can be told to succeed
/// another, reconciling their relation leaves each pair of them to a person, once. The report
/// counts `n * (n - 1) / 2` conflicts of `n` values, which is what the estimate said; no fact is
/// changed.
pub proof fn law_what_cannot_be_told_is_asked_in_pairs(d: Desk, scope: Scope, order: ReplayOrder)
    requires
        cannot_be_told(d.ledger, scope),
        unique_here(d.ledger, scope),
        all_here(d.ledger, scope),
        forall|i: int, j: int| #[trigger]
            d.ledger.stands(scope, i) && #[trigger] d.ledger.stands(scope, j) && i != j
                ==> !is_raised(d.ledger, d.ledger.facts[i].id, d.ledger.facts[j].id),
        d.report.conflicts + pairs(timeline(d.ledger, scope).len()) <= u32::MAX,
    ensures
        ({
            let n = timeline(d.ledger, scope).len();
            let end = d.reconcile_open(
                scope.kb_id,
                open_ids(d.ledger, scope.kb_id, scope.predicate_id),
                order,
            );
            &&& 2 * (end.report.conflicts - d.report.conflicts) == n * (n - 1)
            &&& end.report.corrected == d.report.corrected
            &&& end.ledger.facts == d.ledger.facts
            &&& end.ledger.conflicts.len() - d.ledger.conflicts.len() == end.report.conflicts
                - d.report.conflicts
            &&& forall|i: int, j: int| #[trigger]
                d.ledger.stands(scope, i) && #[trigger] d.ledger.stands(scope, j) && i != j
                    ==> with_person(end.ledger, d.ledger.facts[i].id, d.ledger.facts[j].id)
            &&& pairs_differ(d.ledger) ==> pairs_differ(end.ledger)
            &&& are_listed(d.ledger, scope) ==> plan(values_of(d.ledger, scope)).review
                == end.report.conflicts - d.report.conflicts
        }),
{
    let l = d.ledger;
    let rows = timeline(l, scope);
    let n = rows.len();
    let list = replayed(l, scope, order);
    lemma_replayed(l, scope, order);
    lemma_timeline(l, scope);
    assert forall|a: u128| #[trigger] has_row(rows, a) implies exists|i: int| #[trigger]
        l.stands(scope, i) && l.facts[i].id == a by {
        let k = choose|k: int| 0 <= k < rows.len() && (#[trigger] rows[k]).id == a;
        assert(rows.contains(rows[k]));
        let i = choose|i: int| #[trigger] l.stands(scope, i) && l.row(i) == rows[k];
        assert(l.facts[i].id == a);
    }
    assert(asked_of(rows, l, Seq::empty())) by {
        assert forall|a: u128, b: u128|
            #![trigger l.is_pending(a, b)]
            #![trigger is_raised(l, a, b)]
            has_row(rows, a) && has_row(rows, b) && a != b implies !is_raised(l, a, b)
            && !l.is_pending(a, b) by {
            let i = choose|i: int| #[trigger] l.stands(scope, i) && l.facts[i].id == a;
            let j = choose|j: int| #[trigger] l.stands(scope, j) && l.facts[j].id == b;
            assert(l.stands(scope, i) && l.stands(scope, j));
            if l.is_pending(a, b) {
                lemma_pending_raised(l, a, b);
            }
        }
    }
    assert(pairs_with(n, list.len()) == pairs(n)) by {
        assert(pairs(0) == 0);
    }
    lemma_ask_each(d, scope, list);
    lemma_pairs(n);
    let end = d.reconcile_each(scope.kb_id, list);
    assert forall|i: int, j: int| #[trigger]
        l.stands(scope, i) && #[trigger] l.stands(scope, j) && i != j implies with_person(
        end.ledger,
        l.facts[i].id,
        l.facts[j].id,
    ) by {
        let a = l.facts[i].id;
        let b = l.facts[j].id;
        lemma_apart(l, i, j);
        assert(rows.contains(l.row(i)) && rows.contains(l.row(j)));
        let p = choose|p: int| 0 <= p < rows.len() && rows[p] == l.row(i);
        let q = choose|q: int| 0 <= q < rows.len() && rows[q] == l.row(j);
        assert(rows[p].id == a && rows[q].id == b);
        assert(list.contains(l.facts[j]));
        let k = choose|k: int| 0 <= k < list.len() && list[k] == l.facts[j];
        assert(list[k].id == b);
        assert(is_among(list, b) && has_row(rows, a) && has_row(rows, b) && a != b);
        assert(is_raised(end.ledger, a, b) || is_raised(end.ledger, b, a));
    }
    if are_listed(l, scope) {
        let values = values_of(l, scope);
        let sorted = replayed(l, scope, ReplayOrder::Chronological);
        lemma_open_values(l, scope);
        lemma_replayed(l, scope, ReplayOrder::Chronological);
        assert forall|a: int, b: int| 0 <= a < b < values.len() implies meeting(
            #[trigger] values[b],
            #[trigger] values[a],
        ) is Review by {
            assert(l.facts.contains(sorted[a]) && l.facts.contains(sorted[b]));
            let i = choose|i: int| 0 <= i < l.facts.len() && l.facts[i] == sorted[a];
            let j = choose|j: int| 0 <= j < l.facts.len() && l.facts[j] == sorted[b];
            assert(sorted[a].id != sorted[b].id);
            assert(l.stands(scope, i) && l.stands(scope, j) && i != j);
            assert(l.row(i).valid_from == l.row(j).valid_from);
        }
        law_what_cannot_be_told_is_reviewed_in_pairs(values);
    }
}

} // verus!
