//! Facts that arrive by calls of the library, in whatever order.

use crate::arrival::{
    are_arrivals, in_sequence, is_arrival, is_own, is_told, law_arrivals_in_any_order_end_alike,
    lemma_arrivals, may_arrive, said_among, say_different, statement, tells_one, with_fact,
};
use crate::engine::{desk, nothing, worked, Desk, ReportModel, MAX_TIDY_ROUNDS};
use crate::ledger::{Evidence, FactModel, LedgerModel};
use crate::replay::since_start;
use crate::rewrite::Tx;
use crate::timeline::{timeline, RowModel, Scope};
use vstd::prelude::*;
use vstd::set_lib::{lemma_int_range, lemma_len_subset, set_int_range};

verus! {

/// Calls of [`reconcile_new_fact`], one after another: each is made once its fact was written to
/// the ledger with its evidence, in a transaction of its own. `ledgers` are the ledgers before and between the calls
/// and behind them, `before` and `after` the transactions as they were and as they became, and
/// `reports` what was returned.
///
/// [`reconcile_new_fact`]: crate::engine::reconcile_new_fact
pub struct Calls {
    pub ledgers: Seq<LedgerModel>,
    pub before: Seq<Tx>,
    pub after: Seq<Tx>,
    pub reports: Seq<ReportModel>,
}

impl Calls {
    /// The calls were made for these facts, and each returned.
    pub open spec fn were_made(
        self,
        scope: Scope,
        facts: Seq<FactModel>,
        told: spec_fn(u128) -> Seq<Evidence>,
    ) -> bool {
        &&& self.ledgers.len() == facts.len() + 1
        &&& self.before.len() == facts.len()
        &&& self.after.len() == facts.len()
        &&& self.reports.len() == facts.len()
        &&& forall|k: int| 0 <= k < facts.len() ==> #[trigger] self.was_made(scope, facts[k], told, k)
    }

    /// The call `k` was made for this fact, and returned.
    pub open spec fn was_made(
        self,
        scope: Scope,
        f: FactModel,
        told: spec_fn(u128) -> Seq<Evidence>,
        k: int,
    ) -> bool {
        &&& self.before[k].now == f.recorded_at
        &&& worked(
            self.before[k],
            with_fact(self.ledgers[k], f, told),
            nothing(),
            self.after[k],
            self.ledgers[k + 1],
            self.reports[k],
            |d: Desk|
                d.reconcile(
                    scope.kb_id,
                    f.id,
                    f.subject_id,
                    scope.predicate_id,
                    f.object_id,
                    scope.side,
                    since_start(f),
                ),
        )
    }

    /// All but the last of the calls.
    pub open spec fn but_last(self) -> Calls {
        Calls {
            ledgers: self.ledgers.drop_last(),
            before: self.before.drop_last(),
            after: self.after.drop_last(),
            reports: self.reports.drop_last(),
        }
    }

    /// The identifiers that were drawn.
    pub open spec fn drawn(self) -> Seq<u128>
        decreases self.before.len(),
    {
        if self.before.len() == 0 {
            Seq::empty()
        } else {
            self.but_last().drawn() + self.after.last().since(self.before.last())
        }
    }
}

/// What was returned is what the engine makes of the facts that arrive, with the identifiers that
/// were drawn.
proof fn lemma_calls(
    calls: Calls,
    scope: Scope,
    facts: Seq<FactModel>,
    told: spec_fn(u128) -> Seq<Evidence>,
    rest: Seq<u128>,
)
    requires
        calls.were_made(scope, facts, told),
    ensures
        ({
            let start = desk(calls.ledgers[0], calls.drawn() + rest, 0, nothing());
            let end = start.arrive_each(scope, facts, told);
            &&& end.ledger == calls.ledgers.last()
            &&& end.ids == rest
            &&& facts.len() > 0 ==> end.report == calls.reports.last()
        }),
    decreases facts.len(),
{
    let start = desk(calls.ledgers[0], calls.drawn() + rest, 0, nothing());
    if facts.len() == 0 {
        assert(start.ids =~= rest);
    } else {
        let n = facts.len() - 1;
        let head = calls.but_last();
        let f = facts.last();
        let since = calls.after[n].since(calls.before[n]);
        lemma_calls_before(calls, scope, facts, told);
        lemma_calls(head, scope, facts.drop_last(), told, since + rest);
        assert(calls.drawn() + rest =~= head.drawn() + (since + rest));
        let mid = start.arrive_each(scope, facts.drop_last(), told);
        assert(mid.ledger == calls.ledgers[n]);
        assert(mid.ids == since + rest);
        assert(calls.was_made(scope, facts[n], told, n));
        let here = desk(with_fact(calls.ledgers[n], f, told), since + rest, f.recorded_at, nothing());
        assert(here.reconcile(
            scope.kb_id,
            f.id,
            f.subject_id,
            scope.predicate_id,
            f.object_id,
            scope.side,
            since_start(f),
        ) == desk(calls.ledgers[n + 1], rest, f.recorded_at, calls.reports[n]));
        assert(start.arrive_each(scope, facts, told) == mid.arrive(scope, f, told));
    }
}

/// All but the last of some calls are calls.
proof fn lemma_calls_before(
    calls: Calls,
    scope: Scope,
    facts: Seq<FactModel>,
    told: spec_fn(u128) -> Seq<Evidence>,
)
    requires
        calls.were_made(scope, facts, told),
        facts.len() > 0,
    ensures
        calls.but_last().were_made(scope, facts.drop_last(), told),
        calls.but_last().ledgers[0] == calls.ledgers[0],
{
    let head = calls.but_last();
    assert forall|k: int| 0 <= k < facts.len() - 1 implies #[trigger] head.was_made(
        scope,
        facts.drop_last()[k],
        told,
        k,
    ) by {
        assert(calls.was_made(scope, facts[k], told, k));
        assert(head.ledgers[k] == calls.ledgers[k] && head.ledgers[k + 1] == calls.ledgers[k + 1]);
        assert(head.before[k] == calls.before[k] && head.after[k] == calls.after[k]);
        assert(head.reports[k] == calls.reports[k]);
    }
}

/// Calls for facts that may arrive in any order, of which the identifiers that were drawn are new:
/// no fact has one, and they differ. The ledger has room for more.
pub open spec fn are_new(
    calls: Calls,
    scope: Scope,
    facts: Seq<FactModel>,
    told: spec_fn(u128) -> Seq<Evidence>,
) -> bool {
    &&& is_own(told)
    &&& calls.were_made(scope, facts, told)
    &&& desk(calls.ledgers[0], calls.drawn(), 0, nothing()).supplied(0)
    &&& timeline(calls.ledgers[0], scope).len() == 0
    &&& may_arrive(calls.ledgers[0], calls.drawn(), scope, facts)
    &&& calls.ledgers[0].facts.len() + calls.ledgers[0].evidence.len() + calls.drawn().len() + (
    MAX_TIDY_ROUNDS + 1) * facts.len() <= u128::MAX
}

/// Facts that arrive by calls of the library fall into sequence, in whatever order they come: the
/// timeline says what they said, one row for each, and each row ends where the nearest later one
/// starts that says something else; the last one is open. No call reports a conflict, and none is
/// filed.
pub proof fn law_calls_fall_into_sequence(
    calls: Calls,
    scope: Scope,
    facts: Seq<FactModel>,
    told: spec_fn(u128) -> Seq<Evidence>,
)
    requires
        are_new(calls, scope, facts, told),
    ensures
        ({
            let rows = timeline(calls.ledgers.last(), scope);
            &&& rows.len() == facts.len()
            &&& forall|k: int| 0 <= k < facts.len() ==> is_told(rows, #[trigger] facts[k])
            &&& forall|r: RowModel| #[trigger] rows.contains(r) ==> tells_one(facts, r)
            &&& in_sequence(scope.side, rows)
            &&& calls.ledgers.last().conflicts == calls.ledgers[0].conflicts
            &&& forall|k: int|
                0 <= k < facts.len() ==> (#[trigger] calls.reports[k]).conflicts == 0
        }),
    decreases facts.len(),
{
    let spare = lemma_spare_for(calls, scope, facts, told);
    let start = desk(calls.ledgers[0], calls.drawn() + spare, 0, nothing());
    lemma_calls(calls, scope, facts, told, spare);
    lemma_arrivals(start, scope, facts, told);
    if facts.len() > 0 {
        lemma_calls_before(calls, scope, facts, told);
        lemma_new_before(calls, scope, facts, told);
        law_calls_fall_into_sequence(calls.but_last(), scope, facts.drop_last(), told);
        assert forall|k: int| 0 <= k < facts.len() implies (#[trigger] calls.reports[k]).conflicts
            == 0 by {
            if k < facts.len() - 1 {
                assert(calls.but_last().reports[k] == calls.reports[k]);
            }
        }
    }
}

/// The order of the calls does not matter: the same facts, arriving by calls in two orders, give
/// each value the same interval.
pub proof fn law_calls_in_any_order_end_alike(
    calls1: Calls,
    facts1: Seq<FactModel>,
    told1: spec_fn(u128) -> Seq<Evidence>,
    calls2: Calls,
    facts2: Seq<FactModel>,
    told2: spec_fn(u128) -> Seq<Evidence>,
    scope: Scope,
    a: RowModel,
    b: RowModel,
)
    requires
        are_new(calls1, scope, facts1, told1),
        are_new(calls2, scope, facts2, told2),
        said_among(facts1, facts2),
        said_among(facts2, facts1),
        timeline(calls1.ledgers.last(), scope).contains(a),
        timeline(calls2.ledgers.last(), scope).contains(b),
        statement(a) == statement(b),
    ensures
        a.valid_from == b.valid_from,
        a.valid_to == b.valid_to,
        a.is_open() == b.is_open(),
{
    let spare1 = lemma_spare_for(calls1, scope, facts1, told1);
    let spare2 = lemma_spare_for(calls2, scope, facts2, told2);
    lemma_calls(calls1, scope, facts1, told1, spare1);
    lemma_calls(calls2, scope, facts2, told2, spare2);
    law_arrivals_in_any_order_end_alike(
        desk(calls1.ledgers[0], calls1.drawn() + spare1, 0, nothing()),
        facts1,
        told1,
        desk(calls2.ledgers[0], calls2.drawn() + spare2, 0, nothing()),
        facts2,
        told2,
        scope,
        a,
        b,
    );
}

/// All but the last of some calls drew new identifiers if all did.
proof fn lemma_new_before(
    calls: Calls,
    scope: Scope,
    facts: Seq<FactModel>,
    told: spec_fn(u128) -> Seq<Evidence>,
)
    requires
        are_new(calls, scope, facts, told),
        facts.len() > 0,
    ensures
        are_new(calls.but_last(), scope, facts.drop_last(), told),
{
    let head = calls.but_last();
    let ids = calls.drawn();
    let n = facts.len() - 1;
    lemma_calls_before(calls, scope, facts, told);
    assert forall|i: int| 0 <= i < head.drawn().len() implies #[trigger] head.drawn()[i]
        == ids[i] by {}
    let l = calls.ledgers[0];
    assert forall|k: int| 0 <= k < head.drawn().len() implies l.unused(#[trigger] head.drawn()[k]) by {
        assert(l.unused(desk(l, ids, 0, nothing()).ids[k]));
    }
    assert(head.drawn().no_duplicates());
    let rest = facts.drop_last();
    assert forall|k: int| 0 <= k < rest.len() implies is_arrival(scope, #[trigger] rest[k])
        && l.unused(rest[k].id) && !head.drawn().contains(rest[k].id) by {
        assert(rest[k] == facts[k]);
        if head.drawn().contains(rest[k].id) {
            let i = choose|i: int| 0 <= i < head.drawn().len() && head.drawn()[i] == rest[k].id;
            assert(ids[i] == rest[k].id);
        }
    }
    assert(say_different(scope.side, facts) ==> say_different(scope.side, rest));
}

/// An identifier that is not among some.
proof fn lemma_spare_one(used: Seq<u128>) -> (id: u128)
    requires
        used.len() <= u128::MAX,
    ensures
        !used.contains(id),
{
    let range = set_int_range(0, u128::MAX + 1);
    let taken = used.map_values(|x: u128| x as int);
    lemma_int_range(0, u128::MAX + 1);
    taken.lemma_cardinality_of_set();
    if range.subset_of(taken.to_set()) {
        lemma_len_subset(range, taken.to_set());
    }
    let x = choose|x: int| range.contains(x) && !taken.to_set().contains(x);
    let id = x as u128;
    if used.contains(id) {
        let k = choose|k: int| 0 <= k < used.len() && used[k] == id;
        assert(taken[k] == x);
    }
    id
}

/// Identifiers that are not among some, and differ.
proof fn lemma_spare(used: Seq<u128>, n: nat) -> (ids: Seq<u128>)
    requires
        used.len() + n <= u128::MAX + 1,
    ensures
        ids.len() == n,
        ids.no_duplicates(),
        forall|k: int| 0 <= k < n ==> !used.contains(#[trigger] ids[k]),
    decreases n,
{
    if n == 0 {
        Seq::empty()
    } else {
        let ids = lemma_spare(used, (n - 1) as nat);
        let all = used + ids;
        let id = lemma_spare_one(all);
        assert forall|k: int| 0 <= k < used.len() implies used[k] != id by {
            assert(all[k] == used[k]);
        }
        assert forall|k: int| 0 <= k < ids.len() implies ids[k] != id by {
            assert(all[used.len() + k] == ids[k]);
        }
        ids.push(id)
    }
}

/// There are identifiers left for all that tidying could need.
proof fn lemma_spare_for(
    calls: Calls,
    scope: Scope,
    facts: Seq<FactModel>,
    told: spec_fn(u128) -> Seq<Evidence>,
) -> (spare: Seq<u128>)
    requires
        are_new(calls, scope, facts, told),
    ensures
        are_arrivals(
            desk(calls.ledgers[0], calls.drawn() + spare, 0, nothing()),
            scope,
            facts,
            told,
        ),
{
    let l = calls.ledgers[0];
    let ids = calls.drawn();
    let of_facts = l.facts.map_values(|f: FactModel| f.id);
    let of_evidence = l.evidence.map_values(|e: Evidence| e.fact_id);
    let of_arrivals = facts.map_values(|f: FactModel| f.id);
    let used = of_facts + of_evidence + ids + of_arrivals;
    let spare = lemma_spare(used, (MAX_TIDY_ROUNDS * facts.len()) as nat);
    let all = ids + spare;
    let start = desk(l, all, 0, nothing());
    assert forall|k: int| 0 <= k < spare.len() implies {
        &&& l.unused(#[trigger] spare[k])
        &&& !ids.contains(spare[k])
        &&& forall|j: int| 0 <= j < facts.len() ==> (#[trigger] facts[j]).id != spare[k]
    } by {
        let x = spare[k];
        assert(!used.contains(x));
        assert forall|i: int| 0 <= i < l.facts.len() implies (#[trigger] l.facts[i]).id != x by {
            assert(used[i] == l.facts[i].id);
        }
        assert forall|i: int| 0 <= i < l.evidence.len() implies (#[trigger] l.evidence[i]).fact_id
            != x by {
            assert(used[of_facts.len() + i] == l.evidence[i].fact_id);
        }
        if ids.contains(x) {
            let i = choose|i: int| 0 <= i < ids.len() && ids[i] == x;
            assert(used[of_facts.len() + of_evidence.len() + i] == x);
        }
        assert forall|j: int| 0 <= j < facts.len() implies (#[trigger] facts[j]).id != x by {
            assert(used[of_facts.len() + of_evidence.len() + ids.len() + j] == facts[j].id);
        }
    }
    assert forall|k: int| 0 <= k < all.len() implies l.unused(#[trigger] all[k]) by {
        if k < ids.len() {
            assert(l.unused(desk(l, ids, 0, nothing()).ids[k]));
        } else {
            assert(all[k] == spare[k - ids.len()]);
        }
    }
    assert(all.no_duplicates()) by {
        assert forall|i: int, j: int|
            0 <= i < all.len() && 0 <= j < all.len() && i != j implies all[i] != all[j] by {
            if i < ids.len() && j >= ids.len() {
                assert(!ids.contains(spare[j - ids.len()]));
            }
            if j < ids.len() && i >= ids.len() {
                assert(!ids.contains(spare[i - ids.len()]));
            }
        }
    }
    assert forall|k: int| 0 <= k < facts.len() implies !all.contains((#[trigger] facts[k]).id) by {
        assert(!ids.contains(facts[k].id));
        if all.contains(facts[k].id) {
            let i = choose|i: int| 0 <= i < all.len() && all[i] == facts[k].id;
            if i < ids.len() {
                assert(ids[i] == facts[k].id);
            } else {
                assert(all[i] == spare[i - ids.len()]);
            }
        }
    }
    spare
}

} // verus!
