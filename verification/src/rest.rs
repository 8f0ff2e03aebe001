//! Tidying comes to rest: a row is rewritten once at most, and a pair that is left to a person is
//! left once for each version of its rows.

use crate::engine::Desk;
use crate::handover::{
    all_sharp, attended, is_sharp, lemma_due, lemma_held_attended, lemma_nothing_due, lemma_raise,
    lemma_replaced, lemma_rewritten_attended, lemma_rows_identified, lemma_same_timeline,
    lemma_sharp_kept, lemma_still_another_at, lemma_successor, replaced,
};
use crate::identity::{lemma_apart, lemma_close_at, lemma_timeline};
use crate::ledger::LedgerModel;
use crate::timeline::{change_due, covers, follows, timeline, RowModel, Scope, Uniqueness};
use vstd::prelude::*;

verus! {

/// `z` is one of the nearest later rows that say something else than `r`.
pub open spec fn nearest(
    side: Uniqueness,
    rows: Seq<RowModel>,
    r: RowModel,
    z: RowModel,
) -> bool {
    follows(side, r)(z) && forall|y: RowModel| #[trigger]
        rows.contains(y) && follows(side, r)(y) ==> z.key()->0 <= y.key()->0
}

/// `r` may have to end where `z` starts: it is open and `z` is next, or it covers the start of
/// `z`.
pub open spec fn meets(side: Uniqueness, rows: Seq<RowModel>, r: RowModel, z: RowModel) -> bool {
    (r.is_open() && nearest(side, rows, r, z)) || covers(side, rows, r, z)
}

/// `r` has to be rewritten to end where some row starts in which the confidence is not low.
pub open spec fn to_rewrite(side: Uniqueness, rows: Seq<RowModel>, r: RowModel) -> bool {
    exists|z: RowModel| #[trigger]
        rows.contains(z) && meets(side, rows, r, z) && !z.confidence.is_low()
}

/// One for what is so.
pub open spec fn one_if(b: bool) -> nat {
    if b {
        1
    } else {
        0
    }
}

/// The sum of a function over the numbers below `n`.
pub open spec fn sum(f: spec_fn(int) -> nat, n: int) -> nat
    decreases n,
{
    if n <= 0 {
        0
    } else {
        sum(f, n - 1) + f(n - 1)
    }
}

impl LedgerModel {
    /// The fact `i` has a row on a timeline that has to be rewritten.
    pub open spec fn is_due(self, scope: Scope, i: int) -> bool {
        self.stands(scope, i) && to_rewrite(scope.side, timeline(self, scope), self.row(i))
    }

    /// How many rows of a timeline have to be rewritten.
    pub open spec fn due_rows(self, scope: Scope) -> nat {
        sum(|i: int| one_if(self.is_due(scope, i)), self.facts.len() as int)
    }

    /// The facts `i` and `j` have rows on a timeline of which the first may have to end where the
    /// second starts, which only a person can tell.
    pub open spec fn is_unsure(self, scope: Scope, i: int, j: int) -> bool {
        &&& self.stands(scope, i)
        &&& self.stands(scope, j)
        &&& meets(scope.side, timeline(self, scope), self.row(i), self.row(j))
        &&& self.row(j).confidence.is_low()
    }

    /// How many rounds the facts `i` and `j` can take if only a person can decide on them: one if
    /// they are not held, and one more for each of the two that has to be rewritten.
    pub open spec fn rounds_of(
        self,
        scope: Scope,
        held: Seq<(u128, u128)>,
        i: int,
        j: int,
    ) -> nat {
        if self.is_unsure(scope, i, j) {
            one_if(!held.contains((self.row(i).id, self.row(j).id))) + one_if(
                self.is_due(scope, i),
            ) + one_if(self.is_due(scope, j))
        } else {
            0
        }
    }

    /// How many rounds all pairs of rows can take that only a person can decide on.
    pub open spec fn rounds_of_pairs(self, scope: Scope, held: Seq<(u128, u128)>) -> nat {
        sum(
            |i: int| sum(|j: int| self.rounds_of(scope, held, i, j), self.facts.len() as int),
            self.facts.len() as int,
        )
    }

    /// How many rounds of tidying a timeline needs at most where some pairs are held.
    pub open spec fn rounds_left(self, scope: Scope, held: Seq<(u128, u128)>) -> nat {
        self.due_rows(scope) + self.rounds_of_pairs(scope, held)
    }

    /// How many rounds of tidying a timeline needs at most: one for each row that has to be
    /// rewritten; and for each pair that only a person can decide on one, and one more for each of
    /// its two rows that has to be rewritten.
    pub open spec fn rounds_needed(self, scope: Scope) -> nat {
        self.rounds_left(scope, Seq::empty())
    }
}

/// A sum of no greater terms is no greater.
pub proof fn lemma_sum_le(f: spec_fn(int) -> nat, g: spec_fn(int) -> nat, n: int)
    requires
        forall|k: int| 0 <= k < n ==> #[trigger] g(k) <= f(k),
    ensures
        sum(g, n) <= sum(f, n),
    decreases n,
{
    if n > 0 {
        lemma_sum_le(f, g, n - 1);
        assert(g(n - 1) <= f(n - 1));
    }
}

/// A sum of no greater terms, one of them less, is less.
pub proof fn lemma_sum_lt(f: spec_fn(int) -> nat, g: spec_fn(int) -> nat, n: int, i: int)
    requires
        0 <= i < n,
        forall|k: int| 0 <= k < n ==> #[trigger] g(k) <= f(k),
        g(i) < f(i),
    ensures
        sum(g, n) < sum(f, n),
    decreases n,
{
    assert(g(n - 1) <= f(n - 1));
    if i == n - 1 {
        lemma_sum_le(f, g, n - 1);
    } else {
        lemma_sum_lt(f, g, n - 1, i);
    }
}

/// A sum is at least each of its terms.
proof fn lemma_sum_at_least(f: spec_fn(int) -> nat, n: int, i: int)
    requires
        0 <= i < n,
    ensures
        f(i) <= sum(f, n),
    decreases n,
{
    if i < n - 1 {
        lemma_sum_at_least(f, n - 1, i);
    }
}

/// A sum in which one term is gone loses that term.
proof fn lemma_sum_without(f: spec_fn(int) -> nat, g: spec_fn(int) -> nat, n: int, i: int)
    requires
        0 <= i < n,
        forall|k: int| 0 <= k < n && k != i ==> #[trigger] g(k) <= f(k),
        g(i) == 0,
    ensures
        sum(g, n) + f(i) <= sum(f, n),
    decreases n,
{
    if i == n - 1 {
        lemma_sum_le(f, g, n - 1);
    } else {
        assert(g(n - 1) <= f(n - 1));
        lemma_sum_without(f, g, n - 1, i);
    }
}

/// A sum in which one term moved to the end, and may have become less.
pub proof fn lemma_sum_moved(f: spec_fn(int) -> nat, g: spec_fn(int) -> nat, n: int, i: int)
    requires
        0 <= i < n,
        forall|k: int| 0 <= k < n && k != i ==> #[trigger] g(k) <= f(k),
        g(i) == 0,
    ensures
        sum(g, n + 1) + f(i) <= sum(f, n) + g(n),
{
    lemma_sum_without(f, g, n, i);
}

/// What rows meet is the same after another was rewritten.
proof fn lemma_still_meets(
    side: Uniqueness,
    rows: Seq<RowModel>,
    after: Seq<RowModel>,
    old: RowModel,
    new: RowModel,
    r: RowModel,
    z: RowModel,
)
    requires
        replaced(rows, after, old, new),
        rows.contains(r),
        r.id != old.id,
        after.contains(z),
        meets(side, after, r, z),
    ensures
        meets(
            side,
            rows,
            r,
            if z == new {
                old
            } else {
                z
            },
        ),
{
    let y = if z == new {
        old
    } else {
        z
    };
    assert(rows.contains(y));
    if r.is_open() {
        assert(follows(side, r)(y));
        assert forall|x: RowModel| #[trigger] rows.contains(x) && follows(side, r)(x) implies
            y.key()->0 <= x.key()->0 by {
            let w = if x.id == old.id {
                new
            } else {
                x
            };
            assert(after.contains(w) && follows(side, r)(w));
        }
    } else {
        lemma_still_another_at(rows, after, old, new, r.id, r.end()->0);
    }
}

/// A row that was closed meets less than before.
proof fn lemma_meets_less(
    side: Uniqueness,
    rows: Seq<RowModel>,
    after: Seq<RowModel>,
    old: RowModel,
    new: RowModel,
    next: RowModel,
    z: RowModel,
)
    requires
        replaced(rows, after, old, new),
        !new.is_open(),
        next.key() is Some,
        new.end() == next.key(),
        meets(side, rows, old, next),
        after.contains(z),
        meets(side, after, new, z),
    ensures
        rows.contains(z),
        z != new,
        follows(side, old)(z),
        z.key()->0 < next.key()->0,
        meets(side, rows, old, z),
{
    assert(covers(side, after, new, z));
    assert(z != new);
    assert(follows(side, old)(z));
    if old.is_open() {
        assert(nearest(side, rows, old, next));
    } else {
        assert(covers(side, rows, old, next));
    }
}

/// What is due is that a row meets another.
proof fn lemma_due_meets(side: Uniqueness, rows: Seq<RowModel>, held: Seq<(u128, u128)>)
    requires
        change_due(side, rows, held) is Some,
    ensures
        ({
            let (row, next) = change_due(side, rows, held)->0;
            meets(side, rows, row, next)
        }),
{
    let (row, next) = change_due(side, rows, held)->0;
    lemma_due(side, rows, held);
    lemma_successor(side, rows, row);
}

/// Rewriting a row leaves none to be rewritten that was not before, and not that row.
proof fn lemma_no_more_due(
    d: Desk,
    scope: Scope,
    held: Seq<(u128, u128)>,
    i: int,
    next: RowModel,
)
    requires
        d.supplied(1),
        attended(d.ledger, held),
        change_due(scope.side, timeline(d.ledger, scope), held) == Some((d.ledger.row(i), next)),
        d.ledger.stands(scope, i),
        !next.confidence.is_low(),
        is_sharp(next),
    ensures
        d.ledger.is_due(scope, i),
        forall|k: int| #[trigger]
            d.close_at(d.ledger.row(i), next).ledger.is_due(scope, k) ==> 0 <= k
                < d.ledger.facts.len() && k != i && d.ledger.is_due(scope, k),
{
    let l = d.ledger;
    let after = d.close_at(l.row(i), next).ledger;
    let n = l.facts.len() as int;
    let side = scope.side;
    let rows = timeline(l, scope);
    let between = timeline(after, scope);
    let old = l.row(i);
    let new = after.row(n);
    lemma_due(side, rows, held);
    lemma_due_meets(side, rows, held);
    lemma_close_at(d, scope, i, next);
    lemma_replaced(d, scope, i, next);
    lemma_timeline(l, scope);
    assert(l.is_due(scope, i));
    assert(!after.is_due(scope, n)) by {
        if to_rewrite(side, between, new) {
            let z = choose|z: RowModel| #[trigger]
                between.contains(z) && meets(side, between, new, z) && !z.confidence.is_low();
            lemma_meets_less(side, rows, between, old, new, next, z);
            assert(held.contains((old.id, z.id)));
            let q = choose|q: int|
                0 <= q < l.facts.len() && (#[trigger] l.facts[q]).id == z.id
                    && l.facts[q].confidence.is_low();
            let m = choose|m: int| #[trigger] l.stands(scope, m) && l.row(m) == z;
            if q != m {
                lemma_apart(l, q, m);
            }
        }
    }
    assert forall|k: int| #[trigger] after.is_due(scope, k) implies 0 <= k < n && k != i
        && l.is_due(scope, k) by {
        assert(after.stands(scope, k));
        assert(l.stands(scope, k));
        assert(after.row(k) == l.row(k));
        let r = l.row(k);
        assert(rows.contains(r));
        lemma_apart(l, i, k);
        let z = choose|z: RowModel| #[trigger]
            between.contains(z) && meets(side, between, r, z) && !z.confidence.is_low();
        lemma_still_meets(side, rows, between, old, new, r, z);
        let y = if z == new {
            old
        } else {
            z
        };
        assert(rows.contains(y) && meets(side, rows, r, y) && !y.confidence.is_low());
    }
}

/// Each pair that only a person can decide on after a row was rewritten was one before, of the rows
/// that stood where these stand.
proof fn lemma_no_more_unsure(
    d: Desk,
    scope: Scope,
    held: Seq<(u128, u128)>,
    i: int,
    next: RowModel,
)
    requires
        d.supplied(1),
        change_due(scope.side, timeline(d.ledger, scope), held) == Some((d.ledger.row(i), next)),
        d.ledger.stands(scope, i),
        is_sharp(next),
    ensures
        ({
            let n = d.ledger.facts.len() as int;
            let after = d.close_at(d.ledger.row(i), next).ledger;
            forall|a: int, b: int| #[trigger]
                after.is_unsure(scope, a, b) ==> a != i && b != i && !(a == n && b == n)
                    && d.ledger.is_unsure(scope, before_of(n, i, a), before_of(n, i, b))
        }),
{
    let l = d.ledger;
    let after = d.close_at(l.row(i), next).ledger;
    let n = l.facts.len() as int;
    let side = scope.side;
    let rows = timeline(l, scope);
    let between = timeline(after, scope);
    let old = l.row(i);
    let new = after.row(n);
    lemma_due(side, rows, held);
    lemma_due_meets(side, rows, held);
    lemma_close_at(d, scope, i, next);
    lemma_replaced(d, scope, i, next);
    lemma_timeline(l, scope);
    lemma_timeline(after, scope);
    lemma_rows_identified(l, scope);
    assert forall|a: int, b: int| #[trigger] after.is_unsure(scope, a, b) implies a != i && b != i
        && !(a == n && b == n) && l.is_unsure(
        scope,
        before_of(n, i, a),
        before_of(n, i, b),
    ) by {
        assert(after.stands(scope, a) && after.stands(scope, b));
        assert(a != i && b != i);
        let r = after.row(a);
        let z = after.row(b);
        assert(between.contains(r) && between.contains(z));
        if a < n {
            assert(l.stands(scope, a) && after.row(a) == l.row(a));
        }
        if b < n {
            assert(l.stands(scope, b) && after.row(b) == l.row(b));
        }
        if a == n {
            lemma_meets_less(side, rows, between, old, new, next, z);
            assert(b != n);
        } else {
            lemma_apart(l, i, a);
            assert(rows.contains(r));
            lemma_still_meets(side, rows, between, old, new, r, z);
            if b < n {
                assert(rows.contains(l.row(b)));
                assert(z != new);
            }
        }
    }
}

/// Where the fact stood that stands at `a`, after the fact `i` was rewritten to the fact `n`.
spec fn before_of(n: int, i: int, a: int) -> int {
    if a == n {
        i
    } else {
        a
    }
}

/// Rewriting a row leaves fewer rounds.
proof fn lemma_fewer_left(
    d: Desk,
    scope: Scope,
    held: Seq<(u128, u128)>,
    i: int,
    next: RowModel,
)
    requires
        d.supplied(1),
        attended(d.ledger, held),
        change_due(scope.side, timeline(d.ledger, scope), held) == Some((d.ledger.row(i), next)),
        d.ledger.stands(scope, i),
        !next.confidence.is_low(),
        is_sharp(next),
    ensures
        d.close_at(d.ledger.row(i), next).ledger.rounds_left(scope, held) < d.ledger.rounds_left(
            scope,
            held,
        ),
{
    let l = d.ledger;
    let after = d.close_at(l.row(i), next).ledger;
    let n = l.facts.len() as int;
    lemma_close_at(d, scope, i, next);
    lemma_no_more_due(d, scope, held, i, next);
    lemma_no_more_unsure(d, scope, held, i, next);
    let due = |k: int| one_if(l.is_due(scope, k));
    let still_due = |k: int| one_if(after.is_due(scope, k));
    assert forall|k: int| 0 <= k < n && k != i implies #[trigger] still_due(k) <= due(k) by {}
    lemma_sum_moved(due, still_due, n, i);
    assert forall|a: int, b: int|
        0 <= a <= n && 0 <= b <= n && a != i && b != i implies #[trigger] after.rounds_of(
        scope,
        held,
        a,
        b,
    ) <= l.rounds_of(scope, held, before_of(n, i, a), before_of(n, i, b)) by {
        if after.is_unsure(scope, a, b) {
            if a < n {
                assert(after.row(a) == l.row(a));
            }
            if b < n {
                assert(after.row(b) == l.row(b));
            }
        }
    }
    let f = |a: int| sum(|b: int| l.rounds_of(scope, held, a, b), n);
    let g = |a: int| sum(|b: int| after.rounds_of(scope, held, a, b), n + 1);
    assert forall|a: int| 0 <= a <= n && a != i implies #[trigger] g(a) <= f(
        before_of(n, i, a),
    ) by {
        let c = before_of(n, i, a);
        let p = |b: int| l.rounds_of(scope, held, c, b);
        let q = |b: int| after.rounds_of(scope, held, a, b);
        assert forall|b: int| 0 <= b < n && b != i implies #[trigger] q(b) <= p(b) by {
            assert(before_of(n, i, b) == b);
        }
        assert(q(i) == 0) by {
            assert(!after.is_unsure(scope, a, i));
        }
        assert(q(n) <= p(i)) by {
            assert(before_of(n, i, n) == i);
        }
        lemma_sum_moved(p, q, n, i);
    }
    assert(g(i) == 0) by {
        let q = |b: int| after.rounds_of(scope, held, i, b);
        let z = |b: int| 0nat;
        assert forall|b: int| 0 <= b < n + 1 implies #[trigger] q(b) <= z(b) by {
            assert(!after.is_unsure(scope, i, b));
        }
        lemma_sum_le(z, q, n + 1);
        lemma_sum_zero(n + 1);
    }
    assert forall|a: int| 0 <= a < n && a != i implies #[trigger] g(a) <= f(a) by {
        assert(before_of(n, i, a) == a);
    }
    assert(g(n) <= f(i)) by {
        assert(before_of(n, i, n) == i);
    }
    lemma_sum_moved(f, g, n, i);
}

pub proof fn lemma_sum_zero(n: int)
    ensures
        sum(|b: int| 0nat, n) == 0,
    decreases n,
{
    if n > 0 {
        lemma_sum_zero(n - 1);
    }
}

/// Holding one more pair leaves a round less.
proof fn lemma_one_less_left(
    l: LedgerModel,
    scope: Scope,
    held: Seq<(u128, u128)>,
    i: int,
    j: int,
)
    requires
        l.is_unsure(scope, i, j),
        !held.contains((l.row(i).id, l.row(j).id)),
    ensures
        l.rounds_left(scope, held.push((l.row(i).id, l.row(j).id))) < l.rounds_left(scope, held),
{
    let n = l.facts.len() as int;
    let pair = (l.row(i).id, l.row(j).id);
    let longer = held.push(pair);
    assert forall|x: (u128, u128)| held.contains(x) implies #[trigger] longer.contains(x) by {
        let k = choose|k: int| 0 <= k < held.len() && held[k] == x;
        assert(longer[k] == x);
    }
    assert(longer.contains(pair)) by {
        assert(longer[held.len() as int] == pair);
    }
    let f = |a: int| sum(|b: int| l.rounds_of(scope, held, a, b), n);
    let g = |a: int| sum(|b: int| l.rounds_of(scope, longer, a, b), n);
    assert forall|a: int| 0 <= a < n implies #[trigger] g(a) <= f(a) by {
        lemma_sum_le(
            |b: int| l.rounds_of(scope, held, a, b),
            |b: int| l.rounds_of(scope, longer, a, b),
            n,
        );
    }
    assert(g(i) < f(i)) by {
        lemma_sum_lt(
            |b: int| l.rounds_of(scope, held, i, b),
            |b: int| l.rounds_of(scope, longer, i, b),
            n,
            j,
        );
    }
    lemma_sum_lt(f, g, n, i);
}

/// What is due depends on the facts and their dates.
pub proof fn lemma_same_needs(l: LedgerModel, other: LedgerModel, scope: Scope)
    requires
        other.facts == l.facts,
        other.evidence == l.evidence,
        other.documents == l.documents,
    ensures
        forall|held: Seq<(u128, u128)>| #[trigger]
            other.rounds_left(scope, held) == l.rounds_left(scope, held),
{
    lemma_same_timeline(l, other, scope);
    let n = l.facts.len() as int;
    let f = |i: int| one_if(l.is_due(scope, i));
    let g = |i: int| one_if(other.is_due(scope, i));
    assert forall|i: int| #[trigger] other.is_due(scope, i) == l.is_due(scope, i) by {
        assert(other.row(i) == l.row(i));
    }
    lemma_sum_le(f, g, n);
    lemma_sum_le(g, f, n);
    assert forall|held: Seq<(u128, u128)>| #[trigger]
        other.rounds_left(scope, held) == l.rounds_left(scope, held) by {
        let p = |a: int| sum(|b: int| l.rounds_of(scope, held, a, b), n);
        let q = |a: int| sum(|b: int| other.rounds_of(scope, held, a, b), n);
        assert forall|a: int| 0 <= a < n implies #[trigger] q(a) == p(a) by {
            let s = |b: int| l.rounds_of(scope, held, a, b);
            let t = |b: int| other.rounds_of(scope, held, a, b);
            assert forall|b: int| 0 <= b < n implies #[trigger] t(b) == s(b) by {
                assert(other.row(a) == l.row(a));
                assert(other.row(b) == l.row(b));
            }
            lemma_sum_le(s, t, n);
            lemma_sum_le(t, s, n);
        }
        lemma_sum_le(p, q, n);
        lemma_sum_le(q, p, n);
    }
}

/// A timeline comes to rest once it had the rounds that it needs.
pub proof fn lemma_comes_to_rest(d: Desk, scope: Scope, held: Seq<(u128, u128)>, rounds: nat)
    requires
        d.supplied(rounds as int),
        all_sharp(timeline(d.ledger, scope)),
        attended(d.ledger, held),
        d.ledger.rounds_left(scope, held) <= rounds,
    ensures
        d.comes_to_rest(scope, held, rounds),
    decreases rounds,
{
    let side = scope.side;
    let rows = timeline(d.ledger, scope);
    lemma_nothing_due(side, rows, held);
    if change_due(side, rows, held) is Some {
        let (row, next) = change_due(side, rows, held)->0;
        lemma_due(side, rows, held);
        lemma_due_meets(side, rows, held);
        lemma_timeline(d.ledger, scope);
        let i = choose|i: int| #[trigger] d.ledger.stands(scope, i) && d.ledger.row(i) == row;
        let m = choose|m: int| #[trigger] d.ledger.stands(scope, m) && d.ledger.row(m) == next;
        if next.confidence.is_low() {
            assert(d.ledger.is_unsure(scope, i, m));
            lemma_one_less_left(d.ledger, scope, held, i, m);
            let longer = held.push((row.id, next.id));
            let mid = d.raise(scope.kb_id, row.id, next.id, "low_confidence"@);
            lemma_raise(d, scope, scope.kb_id, row.id, next.id, "low_confidence"@);
            lemma_same_needs(d.ledger, mid.ledger, scope);
            lemma_held_attended(d, scope, held, m, row);
            lemma_comes_to_rest(mid, scope, longer, (rounds - 1) as nat);
        } else {
            let mid = d.close_at(row, next);
            assert(d.ledger.is_due(scope, i));
            lemma_sum_at_least(
                |k: int| one_if(d.ledger.is_due(scope, k)),
                d.ledger.facts.len() as int,
                i,
            );
            lemma_fewer_left(d, scope, held, i, next);
            lemma_close_at(d, scope, i, next);
            lemma_rewritten_attended(d, scope, held, i, next);
            lemma_sharp_kept(d, scope, i, next);
            lemma_comes_to_rest(mid, scope, held, (rounds - 1) as nat);
        }
    }
}

} // verus!
