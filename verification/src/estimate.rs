//! What the estimate of a reconciliation comes to.

use crate::candidates::{meeting, plan, unplanned, Meeting, Plan, ValueModel};
use vstd::prelude::*;

verus! {

/// How many of some flags are set.
pub open spec fn count(flags: Seq<bool>) -> nat
    decreases flags.len(),
{
    if flags.len() == 0 {
        0
    } else {
        count(flags.drop_last()) + if flags.last() {
            1nat
        } else {
            0nat
        }
    }
}

/// How many pairs there are of so many values.
pub open spec fn pairs(n: nat) -> nat
    decreases n,
{
    if n == 0 {
        0
    } else {
        pairs((n - 1) as nat) + (n - 1) as nat
    }
}

/// The pairs of `n` values are `n * (n - 1) / 2`.
pub proof fn lemma_pairs(n: nat)
    ensures
        2 * pairs(n) == n * (n - 1),
    decreases n,
{
    if n > 0 {
        let m = (n - 1) as nat;
        lemma_pairs(m);
        assert(m * (m - 1) + 2 * m == n * (n - 1)) by (nonlinear_arith)
            requires
                m == n - 1,
        ;
    } else {
        assert(n * (n - 1) == 0) by (nonlinear_arith)
            requires
                n == 0,
        ;
    }
}

proof fn lemma_count_all(n: nat)
    ensures
        count(Seq::new(n, |i: int| true)) == n,
    decreases n,
{
    if n > 0 {
        lemma_count_all((n - 1) as nat);
        assert(Seq::new(n, |i: int| true).drop_last() =~= Seq::new(
            (n - 1) as nat,
            |i: int| true,
        ));
    }
}

proof fn lemma_count_unset(flags: Seq<bool>, k: int)
    requires
        0 <= k < flags.len(),
        flags[k],
    ensures
        count(flags) >= 1,
        count(flags.update(k, false)) == count(flags) - 1,
    decreases flags.len(),
{
    let head = flags.drop_last();
    let after = flags.update(k, false);
    if k == flags.len() - 1 {
        assert(after.drop_last() =~= head);
    } else {
        lemma_count_unset(head, k);
        assert(after.drop_last() =~= head.update(k, false));
    }
}

/// What one observation can come to: each value that it closes leaves another open, and each pair
/// is closed or reviewed at most once.
proof fn lemma_met_from(p: Plan, values: Seq<ValueModel>, i: int, j: int)
    requires
        0 <= i < j <= values.len(),
        p.open.len() == values.len(),
    ensures
        p.met_from(values, i, j).open.len() == values.len(),
        p.met_from(values, i, j).close + count(p.met_from(values, i, j).open) == p.close + count(
            p.open,
        ),
        count(p.open) >= 1 ==> count(p.met_from(values, i, j).open) >= 1,
        p.met_from(values, i, j).close + p.met_from(values, i, j).review <= p.close + p.review + (
        values.len() - j),
    decreases values.len() - j,
{
    if j < values.len() && p.open[i] {
        if p.open[j] {
            let q = p.met(values, i, j);
            match meeting(values[j], values[i]) {
                Meeting::Review => {},
                Meeting::EndsNew => {
                    lemma_count_unset(p.open, i);
                    assert(q.open[j]);
                    lemma_count_unset(q.open, j);
                },
                Meeting::EndsOld => {
                    lemma_count_unset(p.open, j);
                    assert(q.open[i]);
                    lemma_count_unset(q.open, i);
                },
            }
            lemma_met_from(q, values, i, j + 1);
        } else {
            lemma_met_from(p, values, i, j + 1);
        }
    }
}

proof fn lemma_ran_from(p: Plan, values: Seq<ValueModel>, i: int)
    requires
        0 <= i <= values.len(),
        p.open.len() == values.len(),
    ensures
        p.ran_from(values, i).open.len() == values.len(),
        p.ran_from(values, i).close + count(p.ran_from(values, i).open) == p.close + count(p.open),
        count(p.open) >= 1 ==> count(p.ran_from(values, i).open) >= 1,
        p.ran_from(values, i).close + p.ran_from(values, i).review <= p.close + p.review + pairs(
            (values.len() - i) as nat,
        ),
    decreases values.len() - i,
{
    if i < values.len() {
        lemma_met_from(p, values, i, i + 1);
        lemma_ran_from(p.met_from(values, i, i + 1), values, i + 1);
    }
}

/// A holder keeps at least one open value, and each pair of values is closed or reviewed at most
/// once.
pub proof fn law_an_estimate_is_bounded(values: Seq<ValueModel>)
    ensures
        values.len() > 0 ==> plan(values).close < values.len(),
        2 * (plan(values).close + plan(values).review) <= values.len() * (values.len() - 1),
        plan(values).close + count(plan(values).open) == values.len(),
{
    lemma_count_all(values.len());
    lemma_pairs(values.len());
    lemma_ran_from(unplanned(values.len()), values, 0);
}

proof fn lemma_chain(p: Plan, values: Seq<ValueModel>, i: int)
    requires
        0 <= i <= values.len(),
        p.open.len() == values.len(),
        forall|k: int| i <= k < values.len() ==> #[trigger] p.open[k],
        forall|k: int|
            0 <= k < values.len() ==> (#[trigger] values[k]).valid_from is Some
                && !values[k].confidence.is_low(),
        forall|a: int, b: int|
            0 <= a < b < values.len() ==> (#[trigger] values[a]).valid_from->0 < (
            #[trigger] values[b]).valid_from->0,
    ensures
        p.ran_from(values, i).review == p.review,
        p.ran_from(values, i).close == p.close + if i < values.len() {
            values.len() - 1 - i
        } else {
            0
        },
    decreases values.len() - i,
{
    if i < values.len() {
        let q = p.met_from(values, i, i + 1);
        if i + 1 < values.len() {
            assert(p.open[i] && p.open[i + 1]);
            let m = p.met(values, i, i + 1);
            assert(values[i].valid_from->0 < values[i + 1].valid_from->0);
            assert(m.open == p.open.update(i, false));
            assert(q == m.met_from(values, i, i + 2));
            assert(q == m);
            assert forall|k: int| i + 1 <= k < values.len() implies #[trigger] q.open[k] by {
                assert(p.open[k]);
            }
        }
        lemma_chain(q, values, i + 1);
    }
}

/// A chain of values that start one after another, in none of which the confidence is low, closes
/// all but the last, and leaves nothing to a person.
pub proof fn law_a_chain_closes_all_but_the_last(values: Seq<ValueModel>)
    requires
        values.len() > 0,
        forall|k: int|
            0 <= k < values.len() ==> (#[trigger] values[k]).valid_from is Some
                && !values[k].confidence.is_low(),
        forall|a: int, b: int|
            0 <= a < b < values.len() ==> (#[trigger] values[a]).valid_from->0 < (
            #[trigger] values[b]).valid_from->0,
    ensures
        plan(values).close == values.len() - 1,
        plan(values).review == 0,
{
    lemma_chain(unplanned(values.len()), values, 0);
}

proof fn lemma_all_reviewed_from(p: Plan, values: Seq<ValueModel>, i: int, j: int)
    requires
        0 <= i < j <= values.len(),
        p.open.len() == values.len(),
        forall|k: int| 0 <= k < values.len() ==> #[trigger] p.open[k],
        forall|a: int, b: int|
            0 <= a < b < values.len() ==> meeting(#[trigger] values[b], #[trigger] values[a])
                is Review,
    ensures
        p.met_from(values, i, j) == (Plan {
            review: p.review + (values.len() - j) as nat,
            ..p
        }),
    decreases values.len() - j,
{
    if j < values.len() {
        assert(p.open[i] && p.open[j]);
        assert(meeting(values[j], values[i]) is Review);
        lemma_all_reviewed_from(p.met(values, i, j), values, i, j + 1);
    }
}

proof fn lemma_all_reviewed(p: Plan, values: Seq<ValueModel>, i: int)
    requires
        0 <= i <= values.len(),
        p.open.len() == values.len(),
        forall|k: int| 0 <= k < values.len() ==> #[trigger] p.open[k],
        forall|a: int, b: int|
            0 <= a < b < values.len() ==> meeting(#[trigger] values[b], #[trigger] values[a])
                is Review,
    ensures
        p.ran_from(values, i) == (Plan {
            review: p.review + pairs((values.len() - i) as nat),
            ..p
        }),
    decreases values.len() - i,
{
    if i < values.len() {
        lemma_all_reviewed_from(p, values, i, i + 1);
        lemma_all_reviewed(p.met_from(values, i, i + 1), values, i + 1);
    }
}

/// Where of no two values can be told which succeeds which, each pair is left to a person: three
/// values without a start make three pairs.
pub proof fn law_what_cannot_be_told_is_reviewed_in_pairs(values: Seq<ValueModel>)
    requires
        forall|a: int, b: int|
            0 <= a < b < values.len() ==> meeting(#[trigger] values[b], #[trigger] values[a])
                is Review,
    ensures
        plan(values).close == 0,
        2 * plan(values).review == values.len() * (values.len() - 1),
{
    lemma_pairs(values.len());
    lemma_all_reviewed(unplanned(values.len()), values, 0);
}

} // verus!
