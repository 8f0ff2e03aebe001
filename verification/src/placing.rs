//! Placing a fact: what happens to a timeline before it is tidied.

use crate::engine::Desk;
use crate::handover::{
    is_said, is_sharp, lemma_raise, lemma_replaced, lemma_rows_identified, replaced, says,
    with_person,
};
use crate::identity::{lemma_close_at, lemma_filter_contains, lemma_timeline};
use crate::ledger::{FactModel, LedgerModel};
use crate::order::{arrange, lemma_arrange, lemma_slot, slot};
use crate::rest::{
    lemma_same_needs, lemma_sum_le, lemma_sum_moved, lemma_sum_zero, meets, nearest, one_if, sum,
};
use crate::timeline::{
    another_at, by_recorded, follows, on_timeline, timeline, RowModel, Scope, Uniqueness,
};
use vstd::prelude::*;

verus! {

/// Two timelines have the same rows that can be placed in time.
pub open spec fn same_dated(rows: Seq<RowModel>, after: Seq<RowModel>) -> bool {
    forall|r: RowModel|
        r.key() is Some ==> (#[trigger] after.contains(r) <==> rows.contains(r))
}

/// Rows that differ in their identifiers.
pub open spec fn tell_apart(rows: Seq<RowModel>) -> bool {
    forall|i: int, j: int|
        0 <= i < j < rows.len() ==> (#[trigger] rows[i]).id != (#[trigger] rows[j]).id
}

/// A filter keeps the order, and what tells rows apart.
pub proof fn lemma_filter_apart(rows: Seq<RowModel>, p: spec_fn(RowModel) -> bool)
    requires
        tell_apart(rows),
    ensures
        tell_apart(rows.filter(p)),
        rows.filter(p).len() <= rows.len(),
    decreases rows.len(),
{
    reveal(Seq::filter);
    if rows.len() > 0 {
        let head = rows.drop_last();
        assert forall|i: int, j: int| 0 <= i < j < head.len() implies (#[trigger] head[i]).id != (
        #[trigger] head[j]).id by {
            assert(head[i] == rows[i] && head[j] == rows[j]);
        }
        lemma_filter_apart(head, p);
        let kept = head.filter(p);
        if p(rows.last()) {
            let all = rows.filter(p);
            assert forall|i: int, j: int| 0 <= i < j < all.len() implies (#[trigger] all[i]).id != (
            #[trigger] all[j]).id by {
                if j == kept.len() {
                    assert(kept.contains(kept[i]));
                    lemma_filter_contains(head, p, kept[i]);
                    let k = choose|k: int| 0 <= k < head.len() && head[k] == kept[i];
                    assert(rows[k].id != rows[rows.len() - 1].id);
                } else {
                    assert(kept[i].id != kept[j].id);
                }
            }
        }
    }
}

/// The rows of a timeline differ in their identifiers.
pub proof fn lemma_timeline_apart(l: LedgerModel, scope: Scope)
    requires
        l.distinct(),
    ensures
        tell_apart(timeline(l, scope)),
{
    let on = on_timeline(scope);
    let key = by_recorded();
    lemma_facts_apart(l.facts, on);
    let kept = l.facts.filter(on);
    lemma_arrange_apart(kept, key);
    let sorted = arrange(kept, key);
    let rows = timeline(l, scope);
    assert forall|i: int, j: int| 0 <= i < j < rows.len() implies (#[trigger] rows[i]).id != (
    #[trigger] rows[j]).id by {
        assert(sorted[i].id != sorted[j].id);
    }
}

/// Facts that differ in their identifiers.
pub open spec fn facts_apart(facts: Seq<FactModel>) -> bool {
    forall|i: int, j: int|
        0 <= i < j < facts.len() ==> (#[trigger] facts[i]).id != (#[trigger] facts[j]).id
}

/// A filter keeps what tells facts apart.
pub proof fn lemma_facts_apart(
    facts: Seq<FactModel>,
    p: spec_fn(FactModel) -> bool,
)
    requires
        facts_apart(facts),
    ensures
        facts_apart(facts.filter(p)),
    decreases facts.len(),
{
    reveal(Seq::filter);
    if facts.len() > 0 {
        let head = facts.drop_last();
        assert forall|i: int, j: int| 0 <= i < j < head.len() implies (#[trigger] head[i]).id != (
        #[trigger] head[j]).id by {
            assert(head[i] == facts[i] && head[j] == facts[j]);
        }
        lemma_facts_apart(head, p);
        let kept = head.filter(p);
        if p(facts.last()) {
            let all = facts.filter(p);
            assert forall|i: int, j: int| 0 <= i < j < all.len() implies (#[trigger] all[i]).id != (
            #[trigger] all[j]).id by {
                if j == kept.len() {
                    assert(kept.contains(kept[i]));
                    lemma_filter_contains(head, p, kept[i]);
                    let k = choose|k: int| 0 <= k < head.len() && head[k] == kept[i];
                    assert(facts[k].id != facts[facts.len() - 1].id);
                } else {
                    assert(kept[i].id != kept[j].id);
                }
            }
        }
    }
}

/// Sorting keeps what tells facts apart.
pub proof fn lemma_arrange_apart(
    facts: Seq<FactModel>,
    key: spec_fn(FactModel) -> (int, int),
)
    requires
        facts_apart(facts),
    ensures
        facts_apart(arrange(facts, key)),
    decreases facts.len(),
{
    if facts.len() > 0 {
        let head = facts.drop_last();
        let x = facts.last();
        assert forall|i: int, j: int| 0 <= i < j < head.len() implies (#[trigger] head[i]).id != (
        #[trigger] head[j]).id by {
            assert(head[i] == facts[i] && head[j] == facts[j]);
        }
        lemma_arrange_apart(head, key);
        let rest = arrange(head, key);
        lemma_arrange(head, key);
        let p = slot(rest, key, key(x));
        lemma_slot(rest, key, key(x));
        let all = rest.insert(p, x);
        assert forall|i: int| 0 <= i < rest.len() implies (#[trigger] rest[i]).id != x.id by {
            assert(rest.contains(rest[i]));
            assert(head.contains(rest[i]));
            let k = choose|k: int| 0 <= k < head.len() && head[k] == rest[i];
            assert(facts[k].id != facts[facts.len() - 1].id);
        }
        assert forall|i: int, j: int| 0 <= i < j < all.len() implies (#[trigger] all[i]).id != (
        #[trigger] all[j]).id by {
            let a = if i < p {
                i
            } else {
                i - 1
            };
            let b = if j < p {
                j
            } else {
                j - 1
            };
            if i != p && j != p {
                assert(all[i] == rest[a] && all[j] == rest[b]);
                assert(rest[a].id != rest[b].id);
            }
        }
    }
}

/// Leaving rows to a person changes no timeline.
pub proof fn lemma_raise_all(
    d: Desk,
    scope: Scope,
    kb_id: u128,
    rows: Seq<RowModel>,
    new_id: u128,
    reason: Seq<char>,
)
    requires
        d.supplied(rows.len() as int),
    ensures
        ({
            let after = d.raise_all(kb_id, rows, new_id, reason);
            &&& after.supplied(d.ids.len() - rows.len())
            &&& after.now == d.now
            &&& after.ledger.facts == d.ledger.facts
            &&& after.ledger.evidence == d.ledger.evidence
            &&& after.ledger.documents == d.ledger.documents
            &&& timeline(after.ledger, scope) == timeline(d.ledger, scope)
            &&& forall|k: int|
                0 <= k < rows.len() ==> with_person(
                    after.ledger,
                    (#[trigger] rows[k]).id,
                    new_id,
                )
            &&& forall|a: u128, b: u128|
                with_person(d.ledger, a, b)
                    ==> #[trigger] with_person(after.ledger, a, b)
        }),
    decreases rows.len(),
{
    if rows.len() > 0 {
        let head = rows.drop_last();
        lemma_raise_all(d, scope, kb_id, head, new_id, reason);
        let mid = d.raise_all(kb_id, head, new_id, reason);
        lemma_raise(mid, scope, kb_id, rows.last().id, new_id, reason);
        let after = d.raise_all(kb_id, rows, new_id, reason);
        assert forall|k: int| 0 <= k < rows.len() implies with_person(
            after.ledger,
            (#[trigger] rows[k]).id,
            new_id,
        ) by {
            if k < head.len() {
                assert(head[k] == rows[k]);
                assert(with_person(mid.ledger, head[k].id, new_id));
            }
        }
    }
}

/// What rows meet depends on the rows that can be placed in time.
proof fn lemma_same_meets(
    side: Uniqueness,
    rows: Seq<RowModel>,
    after: Seq<RowModel>,
    r: RowModel,
    z: RowModel,
)
    requires
        same_dated(rows, after),
        meets(side, after, r, z),
    ensures
        z.key() is Some,
        r.key() is Some,
        meets(side, rows, r, z),
{
    if r.is_open() && nearest(side, after, r, z) {
        assert forall|y: RowModel| #[trigger] rows.contains(y) && follows(side, r)(y) implies
            z.key()->0 <= y.key()->0 by {
            assert(after.contains(y));
        }
    } else {
        lemma_same_another_at(rows, after, r.id, r.end()->0);
    }
}

/// Where rows start depends on the rows that can be placed in time.
pub proof fn lemma_same_another_at(rows: Seq<RowModel>, after: Seq<RowModel>, id: u128, t: i64)
    requires
        same_dated(rows, after),
    ensures
        another_at(rows, id, t) <==> another_at(after, id, t),
{
    if another_at(after, id, t) {
        let i = choose|i: int|
            0 <= i < after.len() && (#[trigger] after[i]).id != id && after[i].key() == Some(t);
        assert(after.contains(after[i]));
        assert(rows.contains(after[i]));
        let k = choose|k: int| 0 <= k < rows.len() && rows[k] == after[i];
        assert(rows[k].id != id && rows[k].key() == Some(t));
    }
    if another_at(rows, id, t) {
        let i = choose|i: int|
            0 <= i < rows.len() && (#[trigger] rows[i]).id != id && rows[i].key() == Some(t);
        assert(rows.contains(rows[i]));
        assert(after.contains(rows[i]));
        let k = choose|k: int| 0 <= k < after.len() && after[k] == rows[i];
        assert(after[k].id != id && after[k].key() == Some(t));
    }
}

/// Closing a row that cannot be placed in time leaves nothing more to be done.
proof fn lemma_undated_no_more(d: Desk, scope: Scope, i: int, next: RowModel)
    requires
        d.supplied(1),
        d.ledger.stands(scope, i),
        d.ledger.row(i).key() is None,
    ensures
        d.close_at(d.ledger.row(i), next).ledger.rounds_needed(scope) <= d.ledger.rounds_needed(
            scope,
        ),
{
    let l = d.ledger;
    let after = d.close_at(l.row(i), next).ledger;
    let n = l.facts.len() as int;
    let side = scope.side;
    let none = Seq::<(u128, u128)>::empty();
    let rows = timeline(l, scope);
    let between = timeline(after, scope);
    lemma_close_at(d, scope, i, next);
    lemma_replaced(d, scope, i, next);
    assert(same_dated(rows, between));
    let f = |k: int| one_if(l.is_due(scope, k));
    let g = |k: int| one_if(after.is_due(scope, k));
    assert forall|k: int| 0 <= k <= n && #[trigger] after.is_due(scope, k) implies k != i && k < n
        && l.is_due(scope, k) by {
        let r = after.row(k);
        let z = choose|z: RowModel| #[trigger]
            between.contains(z) && meets(side, between, r, z) && !z.confidence.is_low();
        lemma_same_meets(side, rows, between, r, z);
        assert(rows.contains(z));
        if k < n {
            assert(l.stands(scope, k));
            assert(after.row(k) == l.row(k));
        }
    }
    assert(!after.is_due(scope, i) && !after.is_due(scope, n));
    lemma_sum_moved(f, g, n, i);
    assert forall|a: int, b: int|
        0 <= a <= n && 0 <= b <= n && #[trigger] after.is_unsure(scope, a, b) implies a != i && a
        < n && b != i && b < n && l.is_unsure(scope, a, b) && after.rounds_of(scope, none, a, b)
        <= l.rounds_of(scope, none, a, b) by {
        lemma_same_meets(side, rows, between, after.row(a), after.row(b));
        if a < n && b < n {
            assert(l.stands(scope, a) && after.row(a) == l.row(a));
            assert(l.stands(scope, b) && after.row(b) == l.row(b));
        }
    }
    let p = |a: int| sum(|b: int| l.rounds_of(scope, none, a, b), n);
    let q = |a: int| sum(|b: int| after.rounds_of(scope, none, a, b), n + 1);
    assert forall|a: int| 0 <= a < n && a != i implies #[trigger] q(a) <= p(a) by {
        let s = |b: int| l.rounds_of(scope, none, a, b);
        let t = |b: int| after.rounds_of(scope, none, a, b);
        assert(!after.is_unsure(scope, a, i) && !after.is_unsure(scope, a, n));
        assert forall|b: int| 0 <= b < n && b != i implies #[trigger] t(b) <= s(b) by {
            if after.is_unsure(scope, a, b) {
                assert(l.is_unsure(scope, a, b));
            }
        }
        lemma_sum_moved(s, t, n, i);
    }
    assert forall|a: int| a == i || a == n implies #[trigger] q(a) == 0 by {
        let t = |b: int| after.rounds_of(scope, none, a, b);
        let zero = |b: int| 0nat;
        assert forall|b: int| 0 <= b < n + 1 implies #[trigger] t(b) <= zero(b) by {
            assert(!after.is_unsure(scope, a, b));
        }
        lemma_sum_le(zero, t, n + 1);
        lemma_sum_zero(n + 1);
    }
    lemma_sum_moved(p, q, n, i);
}

/// Two timelines say the same, but for identifiers and ends.
pub open spec fn same_said(rows: Seq<RowModel>, after: Seq<RowModel>) -> bool {
    &&& forall|r: RowModel| #[trigger] rows.contains(r) ==> is_said(after, r)
    &&& forall|r: RowModel| #[trigger] after.contains(r) ==> is_said(rows, r)
}

pub proof fn lemma_same_said(rows: Seq<RowModel>)
    ensures
        same_said(rows, rows),
{
    reveal(is_said);
}

pub proof fn lemma_same_said_further(
    rows: Seq<RowModel>,
    mid: Seq<RowModel>,
    after: Seq<RowModel>,
)
    requires
        same_said(rows, mid),
        same_said(mid, after),
    ensures
        same_said(rows, after),
{
    assert forall|r: RowModel| #[trigger] rows.contains(r) implies is_said(after, r) by {
        assert(is_said(mid, r));
        let m = lemma_said(mid, r);
        assert(is_said(after, m));
        reveal(is_said);
    }
    assert forall|r: RowModel| #[trigger] after.contains(r) implies is_said(rows, r) by {
        assert(is_said(mid, r));
        let m = lemma_said(mid, r);
        assert(is_said(rows, m));
        reveal(is_said);
    }
}

/// The row that says what is said.
pub proof fn lemma_said(rows: Seq<RowModel>, r: RowModel) -> (m: RowModel)
    requires
        is_said(rows, r),
    ensures
        rows.contains(m),
        says(m) == says(r),
{
    reveal(is_said);
    choose|m: RowModel| #[trigger] rows.contains(m) && says(m) == says(r)
}

/// Rewriting a row changes nothing of what is said.
pub proof fn lemma_replaced_said(
    rows: Seq<RowModel>,
    after: Seq<RowModel>,
    old: RowModel,
    new: RowModel,
)
    requires
        replaced(rows, after, old, new),
    ensures
        same_said(rows, after),
{
    assert forall|r: RowModel| #[trigger] rows.contains(r) implies is_said(after, r) by {
        reveal(is_said);
        let m = if r.id == old.id {
            new
        } else {
            r
        };
        assert(after.contains(m) && says(m) == says(r));
    }
    assert forall|r: RowModel| #[trigger] after.contains(r) implies is_said(rows, r) by {
        reveal(is_said);
        let m = if r == new {
            old
        } else {
            r
        };
        assert(rows.contains(m) && says(m) == says(r));
    }
}

/// A row is closed where another starts.
pub open spec fn closed_at(rows: Seq<RowModel>, r: RowModel, next: RowModel) -> bool {
    exists|s: RowModel|
        #[trigger] rows.contains(s) && says(s) == says(r) && !s.is_open() && (is_sharp(next)
            ==> s.end() == next.key())
}

/// Closing rows that cannot be placed in time changes no other row, and leaves nothing more due.
pub proof fn lemma_close_all(
    d: Desk,
    scope: Scope,
    kb_id: u128,
    rows: Seq<RowModel>,
    new: RowModel,
)
    requires
        d.supplied(rows.len() as int),
        tell_apart(rows),
        new.key() is Some,
        forall|k: int|
            0 <= k < rows.len() ==> timeline(d.ledger, scope).contains(#[trigger] rows[k])
                && rows[k].key() is None && rows[k].is_open(),
    ensures
        d.close_all(kb_id, rows, new).supplied(d.ids.len() - rows.len()),
        d.close_all(kb_id, rows, new).now == d.now,
        same_dated(
            timeline(d.ledger, scope),
            timeline(d.close_all(kb_id, rows, new).ledger, scope),
        ),
        same_said(
            timeline(d.ledger, scope),
            timeline(d.close_all(kb_id, rows, new).ledger, scope),
        ),
        d.close_all(kb_id, rows, new).ledger.rounds_needed(scope) <= d.ledger.rounds_needed(scope),
        forall|r: RowModel|
            timeline(d.ledger, scope).contains(r) && (forall|k: int|
                0 <= k < rows.len() ==> (#[trigger] rows[k]).id != r.id) ==> #[trigger] timeline(
                d.close_all(kb_id, rows, new).ledger,
                scope,
            ).contains(r),
        forall|a: u128, b: u128|
            with_person(d.ledger, a, b) ==> #[trigger] with_person(
                d.close_all(kb_id, rows, new).ledger,
                a,
                b,
            ),
        new.confidence.is_low() ==> forall|k: int|
            0 <= k < rows.len() ==> with_person(
                d.close_all(kb_id, rows, new).ledger,
                (#[trigger] rows[k]).id,
                new.id,
            ),
        !new.confidence.is_low() ==> forall|k: int|
            0 <= k < rows.len() ==> closed_at(
                timeline(d.close_all(kb_id, rows, new).ledger, scope),
                #[trigger] rows[k],
                new,
            ),
    decreases rows.len(),
{
    lemma_same_said(timeline(d.ledger, scope));
    if rows.len() > 0 {
        let head = rows.drop_last();
        let x = rows.last();
        assert(rows[rows.len() - 1] == x);
        assert forall|k: int| 0 <= k < head.len() implies timeline(d.ledger, scope).contains(
            #[trigger] head[k],
        ) && head[k].key() is None && head[k].is_open() by {
            assert(head[k] == rows[k]);
        }
        assert forall|i: int, j: int| 0 <= i < j < head.len() implies (#[trigger] head[i]).id != (
        #[trigger] head[j]).id by {
            assert(head[i] == rows[i] && head[j] == rows[j]);
        }
        lemma_close_all(d, scope, kb_id, head, new);
        let mid = d.close_all(kb_id, head, new);
        let between = timeline(mid.ledger, scope);
        let after = d.close_all(kb_id, rows, new);
        let end = timeline(after.ledger, scope);
        assert forall|k: int| 0 <= k < head.len() implies (#[trigger] head[k]).id != x.id by {
            assert(head[k] == rows[k]);
            assert(rows[k].id != rows[rows.len() - 1].id);
        }
        assert(between.contains(x));
        if new.confidence.is_low() {
            lemma_raise(mid, scope, kb_id, x.id, new.id, "low_confidence"@);
            lemma_same_needs(mid.ledger, after.ledger, scope);
            assert forall|k: int| 0 <= k < rows.len() implies with_person(
                after.ledger,
                (#[trigger] rows[k]).id,
                new.id,
            ) by {
                if k < head.len() {
                    assert(head[k] == rows[k]);
                    assert(with_person(mid.ledger, head[k].id, new.id));
                }
            }
            assert forall|r: RowModel|
                timeline(d.ledger, scope).contains(r) && (forall|k: int|
                    0 <= k < rows.len() ==> (#[trigger] rows[k]).id != r.id) implies
                #[trigger] end.contains(r) by {
                assert forall|k: int| 0 <= k < head.len() implies (#[trigger] head[k]).id
                    != r.id by {
                    assert(head[k] == rows[k]);
                }
                assert(between.contains(r));
            }
        } else {
            lemma_timeline(mid.ledger, scope);
            let i = choose|i: int|
                #[trigger] mid.ledger.stands(scope, i) && mid.ledger.row(i) == x;
            let n = mid.ledger.facts.len() as int;
            lemma_close_at(mid, scope, i, new);
            lemma_replaced(mid, scope, i, new);
            let fresh = after.ledger.row(n);
            assert(same_dated(between, end));
            lemma_undated_no_more(mid, scope, i, new);
            lemma_replaced_said(between, end, x, fresh);
            lemma_same_said_further(timeline(d.ledger, scope), between, end);
            assert(after.ledger.conflicts == mid.ledger.conflicts);
            assert forall|a: u128, b: u128| with_person(d.ledger, a, b) implies #[trigger]
                with_person(after.ledger, a, b) by {
                assert(with_person(mid.ledger, a, b));
            }
            assert forall|r: RowModel|
                timeline(d.ledger, scope).contains(r) && (forall|k: int|
                    0 <= k < rows.len() ==> (#[trigger] rows[k]).id != r.id) implies
                #[trigger] end.contains(r) by {
                assert forall|k: int| 0 <= k < head.len() implies (#[trigger] head[k]).id
                    != r.id by {
                    assert(head[k] == rows[k]);
                }
                assert(between.contains(r));
                assert(rows[rows.len() - 1].id != r.id);
            }
            assert forall|k: int| 0 <= k < rows.len() implies closed_at(
                end,
                #[trigger] rows[k],
                new,
            ) by {
                if k < head.len() {
                    assert(head[k] == rows[k]);
                    assert(closed_at(between, head[k], new));
                    let s = choose|s: RowModel|
                        #[trigger] between.contains(s) && says(s) == says(head[k]) && !s.is_open()
                            && (is_sharp(new) ==> s.end() == new.key());
                    lemma_rows_identified(mid.ledger, scope);
                    assert(s.id != x.id);
                    assert(end.contains(s));
                } else {
                    assert(end.contains(fresh));
                }
            }
        }
    }
}

} // verus!
