//! Facts that arrive one after another, in whatever order.

use crate::engine::{
    desk, nothing, row_with_id, simultaneous_rival, undated_rival, Desk, MAX_TIDY_ROUNDS,
};
use crate::handover::{
    all_sharp, gives_way, in_place, is_said, lemma_rows_identified, lemma_successor, says,
};
use crate::history::lemma_filter_none;
use crate::identity::{lemma_apart, lemma_dated_both, lemma_timeline, lemma_undated};
use crate::laws::{
    identified, law_sure_rows_need_a_round_each, law_tidied_rows_have_their_place,
    law_tidying_comes_to_rest, law_tidying_keeps_what_is_said, none_low, row_on,
};
use crate::ledger::{Evidence, FactModel, LedgerModel};
use crate::order::{lemma_arrange, lemma_first};
use crate::placing::lemma_said;
use crate::replay::since_start;
use crate::rest::{meets, one_if, sum, to_rewrite};
use crate::sure::{all_sure, clash, is_sure, lemma_tidy_sure, none_clash, values_differ};
use crate::timeline::{
    by_recorded, follows, on_timeline, row_of, says_same, successor, timeline, RowModel, Scope,
    Uniqueness,
};
use vstd::prelude::*;

verus! {

/// The row of a fact that no evidence dates.
pub open spec fn bare(f: FactModel) -> RowModel {
    RowModel {
        id: f.id,
        subject_id: f.subject_id,
        object_id: f.object_id,
        object_value: f.object_value,
        valid_from: f.valid_from,
        valid_from_precision: f.valid_from_precision,
        valid_to: f.valid_to,
        valid_to_precision: f.valid_to_precision,
        attested_to: f.attested_to,
        confidence: f.confidence,
        dated_at: None,
    }
}

/// What a row says but for its identifier, its end and the date of its evidence.
pub open spec fn statement(r: RowModel) -> RowModel {
    RowModel { dated_at: None, ..says(r) }
}

/// A row says what a fact said when it arrived.
pub open spec fn tells(r: RowModel, f: FactModel) -> bool {
    statement(r) == statement(bare(f))
}

/// Some row says what a fact said.
#[verifier::opaque]
pub open spec fn is_told(rows: Seq<RowModel>, f: FactModel) -> bool {
    exists|r: RowModel| #[trigger] rows.contains(r) && tells(r, f)
}

/// A row says what some fact said.
#[verifier::opaque]
pub open spec fn tells_one(facts: Seq<FactModel>, r: RowModel) -> bool {
    exists|k: int| 0 <= k < facts.len() && tells(r, #[trigger] facts[k])
}

/// A row ends where its successor starts, and is open where it has none.
pub open spec fn has_its_end(side: Uniqueness, rows: Seq<RowModel>, r: RowModel) -> bool {
    match successor(side, rows, r) {
        None => r.is_open(),
        Some(s) => r.valid_to == s.valid_from,
    }
}

/// Each row ends where its successor starts, and is open where it has none.
pub open spec fn in_sequence(side: Uniqueness, rows: Seq<RowModel>) -> bool {
    forall|r: RowModel| #[trigger] rows.contains(r) ==> has_its_end(side, rows, r)
}

/// The ledger once a fact was written to it, with the evidence that is told of it.
pub open spec fn with_fact(
    l: LedgerModel,
    f: FactModel,
    told: spec_fn(u128) -> Seq<Evidence>,
) -> LedgerModel {
    LedgerModel { facts: l.facts.push(f), evidence: l.evidence + told(f.id), ..l }
}

/// What is told of a fact is evidence of that fact.
pub open spec fn is_own(told: spec_fn(u128) -> Seq<Evidence>) -> bool {
    forall|id: u128, i: int|
        0 <= i < told(id).len() ==> (#[trigger] told(id)[i]).fact_id == id
}

impl Desk {
    /// A fact is written to the ledger, with its evidence, and reconciled with the timeline of its holder, in a
    /// transaction of its own.
    pub open spec fn arrive(
        self,
        scope: Scope,
        f: FactModel,
        told: spec_fn(u128) -> Seq<Evidence>,
    ) -> Desk {
        desk(with_fact(self.ledger, f, told), self.ids, f.recorded_at, nothing()).reconcile(
            scope.kb_id,
            f.id,
            f.subject_id,
            scope.predicate_id,
            f.object_id,
            scope.side,
            since_start(f),
        )
    }

    /// Some facts arrive, one after another.
    pub open spec fn arrive_each(
        self,
        scope: Scope,
        facts: Seq<FactModel>,
        told: spec_fn(u128) -> Seq<Evidence>,
    ) -> Desk
        decreases facts.len(),
    {
        if facts.len() == 0 {
            self
        } else {
            self.arrive_each(scope, facts.drop_last(), told).arrive(scope, facts.last(), told)
        }
    }
}

/// A present and open fact of a timeline, with a known, sharp start and a sure value.
pub open spec fn is_arrival(scope: Scope, f: FactModel) -> bool {
    &&& on_timeline(scope)(f)
    &&& f.is_open()
    &&& is_sure(bare(f))
}

/// What a timeline gains when a fact is written to the ledger.
proof fn lemma_written(
    l: LedgerModel,
    scope: Scope,
    f: FactModel,
    told: spec_fn(u128) -> Seq<Evidence>,
)
    requires
        on_timeline(scope)(f),
        l.distinct(),
        l.unused(f.id),
        is_own(told),
    ensures
        ({
            let with_it = with_fact(l, f, told);
            let rows = timeline(l, scope);
            let after = timeline(with_it, scope);
            let x = row_of(with_fact(l, f, told))(f);
            &&& with_it.distinct()
            &&& with_it.row(l.facts.len() as int) == x
            &&& with_it.stands(scope, l.facts.len() as int)
            &&& forall|i: int| 0 <= i < l.facts.len() ==> #[trigger] with_it.row(i) == l.row(i)
            &&& forall|i: int|
                0 <= i < l.facts.len() ==> #[trigger] with_it.stands(scope, i) == l.stands(scope, i)
            &&& forall|r: RowModel| #[trigger] after.contains(r) <==> rows.contains(r) || r == x
            &&& forall|r: RowModel| #[trigger] rows.contains(r) ==> r.id != f.id
            &&& after.len() == rows.len() + 1
        }),
{
    let with_it = with_fact(l, f, told);
    let n = l.facts.len() as int;
    let rows = timeline(l, scope);
    let after = timeline(with_it, scope);
    let x = row_of(with_fact(l, f, told))(f);
    lemma_timeline(l, scope);
    lemma_timeline(with_it, scope);
    assert forall|i: int| 0 <= i < n implies #[trigger] with_it.row(i) == l.row(i)
        && with_it.stands(scope, i) == l.stands(scope, i) by {
        assert(with_it.facts[i] == l.facts[i]);
        let id = l.facts[i].id;
        lemma_dated_both(l.evidence, told(f.id), l.documents, id);
        lemma_undated(told(f.id), l.documents, id);
    }
    assert forall|r: RowModel| #[trigger] after.contains(r) <==> rows.contains(r) || r == x by {
        if after.contains(r) {
            let i = choose|i: int| #[trigger] with_it.stands(scope, i) && with_it.row(i) == r;
            if i < n {
                assert(with_it.row(i) == l.row(i));
                assert(l.stands(scope, i));
            }
        }
        if rows.contains(r) {
            let i = choose|i: int| #[trigger] l.stands(scope, i) && l.row(i) == r;
            assert(with_it.row(i) == l.row(i));
            assert(with_it.stands(scope, i));
        }
        assert(with_it.stands(scope, n));
    }
    assert forall|r: RowModel| #[trigger] rows.contains(r) implies r.id != f.id by {
        let i = choose|i: int| #[trigger] l.stands(scope, i) && l.row(i) == r;
        assert(l.facts[i].id != f.id);
    }
    reveal(Seq::filter);
    assert(with_it.facts.drop_last() =~= l.facts);
    lemma_arrange(l.facts.filter(on_timeline(scope)), by_recorded());
    lemma_arrange(with_it.facts.filter(on_timeline(scope)), by_recorded());
}

/// The rows of a timeline are the facts that stand on it.
proof fn lemma_due_at_most(l: LedgerModel, scope: Scope, n: int)
    requires
        0 <= n <= l.facts.len(),
    ensures
        sum(|i: int| one_if(l.is_due(scope, i)), n) <= l.facts.take(n).filter(
            on_timeline(scope),
        ).len(),
    decreases n,
{
    if n > 0 {
        lemma_due_at_most(l, scope, n - 1);
        reveal(Seq::filter);
        assert(l.facts.take(n).drop_last() =~= l.facts.take(n - 1));
        assert(l.facts.take(n).last() == l.facts[n - 1]);
    }
}

/// No more rows have to be rewritten than there are.
proof fn lemma_due_within(l: LedgerModel, scope: Scope)
    ensures
        l.due_rows(scope) <= timeline(l, scope).len(),
{
    lemma_due_at_most(l, scope, l.facts.len() as int);
    assert(l.facts.take(l.facts.len() as int) =~= l.facts);
    lemma_arrange(l.facts.filter(on_timeline(scope)), by_recorded());
}

/// A sum of ones and zeros in which no two terms are one.
proof fn lemma_sum_one(f: spec_fn(int) -> nat, n: int)
    requires
        n >= 0,
        forall|i: int| 0 <= i < n ==> #[trigger] f(i) <= 1,
        forall|i: int, j: int|
            0 <= i < n && 0 <= j < n && #[trigger] f(i) == 1 && #[trigger] f(j) == 1 ==> i == j,
    ensures
        sum(f, n) <= 1,
        (forall|i: int| 0 <= i < n ==> #[trigger] f(i) == 0) ==> sum(f, n) == 0,
    decreases n,
{
    if n > 0 {
        lemma_sum_one(f, n - 1);
        if f(n - 1) == 1 {
            assert forall|i: int| 0 <= i < n - 1 implies #[trigger] f(i) == 0 by {
                if f(i) == 1 {
                    assert(i == n - 1);
                }
            }
        }
    }
}

/// On a timeline in sequence a newcomer can only move the end of a row that holds where it starts.
proof fn lemma_moved_by_newcomer(
    side: Uniqueness,
    rows: Seq<RowModel>,
    after: Seq<RowModel>,
    x: RowModel,
    r: RowModel,
)
    requires
        all_sure(rows),
        in_sequence(side, rows),
        forall|y: RowModel| #[trigger] after.contains(y) <==> rows.contains(y) || y == x,
        rows.contains(r),
        to_rewrite(side, after, r),
    ensures
        follows(side, r)(x),
        r.is_open() || x.key()->0 < r.valid_to->0,
{
    let z = choose|z: RowModel| #[trigger]
        after.contains(z) && meets(side, after, r, z) && !z.confidence.is_low();
    lemma_successor(side, rows, r);
    assert(has_its_end(side, rows, r));
    if rows.contains(z) {
        assert(follows(side, r)(z));
        let s = successor(side, rows, r)->0;
        assert(rows.contains(s));
    }
}

/// Where no two rows say the same, a newcomer to a timeline in sequence makes two rows at most due:
/// the one that holds where it starts, and itself.
proof fn lemma_newcomer_due(
    l: LedgerModel,
    scope: Scope,
    f: FactModel,
    told: spec_fn(u128) -> Seq<Evidence>,
)
    requires
        l.distinct(),
        l.unused(f.id),
        is_own(told),
        is_arrival(scope, f),
        all_sure(timeline(l, scope)),
        in_sequence(scope.side, timeline(l, scope)),
        none_clash(scope.side, timeline(l, scope)),
        values_differ(scope.side, timeline(l, scope)),
    ensures
        with_fact(l, f, told).due_rows(scope) <= 2,
{
    let with_it = with_fact(l, f, told);
    let n = l.facts.len() as int;
    let side = scope.side;
    let rows = timeline(l, scope);
    let after = timeline(with_it, scope);
    let x = row_of(with_fact(l, f, told))(f);
    let g = |i: int| one_if(with_it.is_due(scope, i));
    lemma_written(l, scope, f, told);
    lemma_timeline(l, scope);
    assert forall|i: int, j: int|
        0 <= i < n && 0 <= j < n && #[trigger] g(i) == 1 && #[trigger] g(j) == 1 implies i
        == j by {
        let a = l.row(i);
        let b = l.row(j);
        assert(with_it.row(i) == a && with_it.row(j) == b);
        assert(l.stands(scope, i) && l.stands(scope, j));
        assert(rows.contains(a) && rows.contains(b));
        lemma_moved_by_newcomer(side, rows, after, x, a);
        lemma_moved_by_newcomer(side, rows, after, x, b);
        if i != j {
            lemma_apart(l, i, j);
            assert(is_sure(a) && is_sure(b));
            lemma_successor(side, rows, a);
            lemma_successor(side, rows, b);
            assert(has_its_end(side, rows, a));
            assert(has_its_end(side, rows, b));
            assert(a.valid_from != b.valid_from);
            if a.key()->0 < b.key()->0 {
                assert(follows(side, a)(b));
                assert(rows.contains(successor(side, rows, a)->0));
            } else {
                assert(follows(side, b)(a));
                assert(rows.contains(successor(side, rows, b)->0));
            }
        }
    }
    lemma_sum_one(g, n);
    assert(g(n) <= 1);
    assert(sum(g, n + 1) == sum(g, n) + g(n));
}

/// What one arrival does to a timeline in sequence.
proof fn lemma_arrive(
    d: Desk,
    scope: Scope,
    f: FactModel,
    told: spec_fn(u128) -> Seq<Evidence>,
)
    requires
        d.supplied(MAX_TIDY_ROUNDS as int),
        d.ledger.unused(f.id),
        !d.ids.contains(f.id),
        is_own(told),
        is_arrival(scope, f),
        all_sure(timeline(d.ledger, scope)),
        in_sequence(scope.side, timeline(d.ledger, scope)),
        none_clash(scope.side, timeline(d.ledger, scope)),
        forall|r: RowModel| #[trigger]
            timeline(d.ledger, scope).contains(r) ==> !clash(scope.side, r, bare(f)) && !clash(scope.side, bare(f), r),
        timeline(d.ledger, scope).len() < MAX_TIDY_ROUNDS || (values_differ(
            scope.side,
            timeline(d.ledger, scope),
        )),
    ensures
        ({
            let rows = timeline(d.ledger, scope);
            let end = d.arrive(scope, f, told);
            let after = timeline(end.ledger, scope);
            &&& all_sure(after)
            &&& in_sequence(scope.side, after)
            &&& none_clash(scope.side, after)
            &&& after.len() == rows.len() + 1
            &&& end.ledger.conflicts == d.ledger.conflicts
            &&& end.report.conflicts == 0
            &&& end.supplied(d.ids.len() - MAX_TIDY_ROUNDS)
            &&& forall|x: u128|
                #[trigger] d.ledger.unused(x) && !d.ids.contains(x) && x != f.id
                    ==> end.ledger.unused(x) && !end.ids.contains(x)
            &&& forall|r: RowModel| #[trigger] rows.contains(r) ==> is_said(after, r)
            &&& is_said(after, row_of(with_fact(d.ledger, f, told))(f))
            &&& forall|r: RowModel| #[trigger]
                after.contains(r) ==> is_said(rows, r) || says(r) == says(row_of(with_fact(d.ledger, f, told))(f))
            &&& values_differ(scope.side, rows) && (forall|r: RowModel| #[trigger]
                rows.contains(r) ==> !says_same(scope.side, r, bare(f)) && !says_same(
                    scope.side,
                    bare(f),
                    r,
                )) ==> values_differ(scope.side, after)
        }),
{
    let side = scope.side;
    let l = d.ledger;
    let rows = timeline(l, scope);
    let start = desk(with_fact(l, f, told), d.ids, f.recorded_at, nothing());
    let mid = timeline(start.ledger, scope);
    let x = row_of(with_fact(l, f, told))(f);
    lemma_written(l, scope, f, told);
    assert(x.key() == f.valid_from);
    assert(start.supplied(MAX_TIDY_ROUNDS as int)) by {
        assert forall|k: int| 0 <= k < start.ids.len() implies start.ledger.unused(
            #[trigger] start.ids[k],
        ) by {
            assert(l.unused(d.ids[k]));
            assert(d.ids.contains(d.ids[k]));
        }
    }
    assert forall|r: RowModel| #[trigger] mid.contains(r) implies is_sure(r) by {
        if r == x {
            assert(is_sure(bare(f)));
        }
    }
    // Nothing starts together with the fact, and everything can be placed in time.
    assert(row_on(start.ledger, scope, f.id) == Some(x)) by {
        lemma_first(mid, row_with_id(f.id));
        assert(mid.contains(x));
        let k = choose|k: int| 0 <= k < mid.len() && mid[k] == x;
        assert(row_with_id(f.id)(mid[k]));
    }
    assert forall|i: int| 0 <= i < mid.len() implies !simultaneous_rival(side, x)(
        #[trigger] mid[i],
    ) && !undated_rival(side, x)(mid[i]) by {
        assert(mid.contains(mid[i]));
        assert(is_sure(mid[i]));
        if mid[i] != x {
            assert(rows.contains(mid[i]));
        }
    }
    lemma_filter_none(mid, simultaneous_rival(side, x));
    lemma_filter_none(mid, undated_rival(side, x));
    let end = d.arrive(scope, f, told);
    assert(end == start.place(scope, f.id));
    assert(end == start.tidy(scope));
    // Few rows are due, so that tidying comes to rest.
    assert(none_low(mid));
    law_sure_rows_need_a_round_each(start.ledger, scope);
    if rows.len() < MAX_TIDY_ROUNDS {
        lemma_due_within(start.ledger, scope);
    } else {
        lemma_newcomer_due(l, scope, f, told);
    }
    assert(all_sharp(mid));
    law_tidying_comes_to_rest(start, scope);
    law_tidied_rows_have_their_place(start, scope);
    law_tidying_keeps_what_is_said(start, scope);
    lemma_tidy_sure(start, scope, MAX_TIDY_ROUNDS as nat);
    let after = timeline(end.ledger, scope);
    assert(none_clash(side, mid)) by {
        assert forall|r: RowModel, s: RowModel|
            #![trigger mid.contains(r), mid.contains(s)]
            mid.contains(r) && mid.contains(s) && r.id != s.id implies !clash(side, r, s) by {
            if r == x {
                assert(rows.contains(s));
            } else if s == x {
                assert(rows.contains(r));
            } else {
                assert(rows.contains(r) && rows.contains(s));
            }
        }
    }
    assert forall|r: RowModel| #[trigger] after.contains(r) implies has_its_end(side, after, r) by {
        assert(is_sure(r));
        lemma_successor(side, after, r);
        if !in_place(side, end.ledger, after, r) {
            assert(mid.contains(r) && !r.is_open() && !gives_way(side, mid, r));
            assert(rows.contains(r));
            lemma_successor(side, rows, r);
            assert(has_its_end(side, rows, r));
            let s = successor(side, rows, r)->0;
            assert(rows.contains(s) && is_sure(s));
            assert(mid.contains(s) && follows(side, r)(s) && s.key() == r.end());
        }
        if successor(side, after, r) is Some {
            assert(is_sure(successor(side, after, r)->0));
        }
    }
    assert forall|y: u128|
        #[trigger] l.unused(y) && !d.ids.contains(y) && y != f.id implies end.ledger.unused(y)
        && !end.ids.contains(y) by {
        assert(start.ledger.unused(y));
    }
    assert forall|r: RowModel| #[trigger] rows.contains(r) implies is_said(after, r) by {
        assert(mid.contains(r));
    }
    assert(mid.contains(x));
    assert forall|r: RowModel| #[trigger] after.contains(r) implies is_said(rows, r) || says(r)
        == says(x) by {
        assert(is_said(mid, r));
        reveal(is_said);
        let m = choose|m: RowModel| #[trigger] mid.contains(m) && says(m) == says(r);
        if m != x {
            assert(rows.contains(m));
        }
    }
    if values_differ(side, rows) && (forall|r: RowModel| #[trigger]
        rows.contains(r) ==> !says_same(side, r, bare(f)) && !says_same(side, bare(f), r)) {
        assert forall|r: RowModel, s: RowModel|
            #![trigger mid.contains(r), mid.contains(s)]
            mid.contains(r) && mid.contains(s) && r.id != s.id implies !says_same(side, r, s) by {
            if r == x {
                assert(rows.contains(s));
            } else if s == x {
                assert(rows.contains(r));
            } else {
                assert(rows.contains(r) && rows.contains(s));
            }
        }
    }
}

/// Facts of a timeline that may arrive in any order: those that start together say the same, and
/// none is in the ledger yet, nor among the identifiers to be drawn. If they are more than the
/// rounds for which a timeline is tidied, no two of them say the same.
pub open spec fn may_arrive(
    l: LedgerModel,
    ids: Seq<u128>,
    scope: Scope,
    facts: Seq<FactModel>,
) -> bool {
    &&& forall|k: int|
        0 <= k < facts.len() ==> is_arrival(scope, #[trigger] facts[k]) && l.unused(facts[k].id)
            && !ids.contains(facts[k].id)
    &&& forall|i: int, j: int|
        0 <= i < facts.len() && 0 <= j < facts.len() && i != j ==> {
            &&& (#[trigger] facts[i]).id != (#[trigger] facts[j]).id
            &&& !clash(scope.side, bare(facts[i]), bare(facts[j]))
        }
    &&& facts.len() <= MAX_TIDY_ROUNDS || say_different(scope.side, facts)
}

/// Facts of a timeline that is empty, which may arrive in any order, and enough identifiers.
pub open spec fn are_arrivals(
    d: Desk,
    scope: Scope,
    facts: Seq<FactModel>,
    told: spec_fn(u128) -> Seq<Evidence>,
) -> bool {
    &&& is_own(told)
    &&& d.supplied(MAX_TIDY_ROUNDS * facts.len())
    &&& timeline(d.ledger, scope).len() == 0
    &&& may_arrive(d.ledger, d.ids, scope, facts)
}

/// No two facts say the same.
pub open spec fn say_different(side: Uniqueness, facts: Seq<FactModel>) -> bool {
    forall|i: int, j: int|
        0 <= i < facts.len() && 0 <= j < facts.len() && i != j ==> !says_same(
            side,
            bare(#[trigger] facts[i]),
            bare(#[trigger] facts[j]),
        )
}

/// What a row told is told where it is said.
proof fn lemma_told_where_said(after: Seq<RowModel>, r: RowModel, f: FactModel)
    requires
        is_said(after, r),
        statement(r) == statement(bare(f)),
    ensures
        is_told(after, f),
{
    reveal(is_said);
    reveal(is_told);
    let s = choose|s: RowModel| #[trigger] after.contains(s) && says(s) == says(r);
    assert(tells(s, f));
}

/// What a row says that some fact of a shorter list said.
proof fn lemma_tells_one_of_more(facts: Seq<FactModel>, q: RowModel, r: RowModel)
    requires
        facts.len() > 0,
        tells_one(facts.drop_last(), q),
        says(q) == says(r),
    ensures
        tells_one(facts, r),
{
    reveal(tells_one);
    let head = facts.drop_last();
    let k = choose|k: int| 0 <= k < head.len() && tells(q, #[trigger] head[k]);
    assert(tells(r, facts[k]));
}

/// What the facts say is told once one more has arrived.
proof fn lemma_told_on(
    rows: Seq<RowModel>,
    after: Seq<RowModel>,
    facts: Seq<FactModel>,
    x: RowModel,
)
    requires
        facts.len() > 0,
        statement(x) == statement(bare(facts.last())),
        forall|k: int|
            0 <= k < facts.len() - 1 ==> is_told(rows, #[trigger] facts.drop_last()[k]),
        forall|r: RowModel| #[trigger] rows.contains(r) ==> tells_one(facts.drop_last(), r),
        forall|r: RowModel| #[trigger] rows.contains(r) ==> is_said(after, r),
        is_said(after, x),
        forall|r: RowModel| #[trigger]
            after.contains(r) ==> is_said(rows, r) || says(r) == says(x),
    ensures
        forall|k: int| 0 <= k < facts.len() ==> is_told(after, #[trigger] facts[k]),
        forall|r: RowModel| #[trigger] after.contains(r) ==> tells_one(facts, r),
{
    let n = facts.len() - 1;
    let head = facts.drop_last();
    assert forall|k: int| 0 <= k < facts.len() implies is_told(after, #[trigger] facts[k]) by {
        if k < n {
            assert(is_told(rows, head[k]));
            let r = lemma_teller(rows, head[k]);
            lemma_told_where_said(after, r, facts[k]);
        } else {
            lemma_told_where_said(after, x, facts[k]);
        }
    }
    assert forall|r: RowModel| #[trigger] after.contains(r) implies tells_one(facts, r) by {
        if says(r) == says(x) {
            reveal(tells_one);
            assert(tells(r, facts[n]));
        } else {
            let q = lemma_said(rows, r);
            lemma_tells_one_of_more(facts, q, r);
        }
    }
}

/// The row that says what a fact said.
proof fn lemma_teller(rows: Seq<RowModel>, f: FactModel) -> (r: RowModel)
    requires
        is_told(rows, f),
    ensures
        rows.contains(r),
        tells(r, f),
{
    reveal(is_told);
    choose|r: RowModel| #[trigger] rows.contains(r) && tells(r, f)
}

/// What holds once some facts have arrived.
pub proof fn lemma_arrivals(
    d: Desk,
    scope: Scope,
    facts: Seq<FactModel>,
    told: spec_fn(u128) -> Seq<Evidence>,
)
    requires
        are_arrivals(d, scope, facts, told),
    ensures
        ({
            let end = d.arrive_each(scope, facts, told);
            let rows = timeline(end.ledger, scope);
            &&& all_sure(rows)
            &&& in_sequence(scope.side, rows)
            &&& none_clash(scope.side, rows)
            &&& say_different(scope.side, facts) ==> values_differ(scope.side, rows)
            &&& rows.len() == facts.len()
            &&& end.ledger.conflicts == d.ledger.conflicts
            &&& facts.len() > 0 ==> end.report.conflicts == 0
            &&& end.supplied(d.ids.len() - MAX_TIDY_ROUNDS * facts.len())
            &&& forall|x: u128|
                #[trigger] d.ledger.unused(x) && !d.ids.contains(x) && (forall|k: int|
                    0 <= k < facts.len() ==> (#[trigger] facts[k]).id != x)
                    ==> end.ledger.unused(x) && !end.ids.contains(x)
            &&& forall|k: int| 0 <= k < facts.len() ==> is_told(rows, #[trigger] facts[k])
            &&& forall|r: RowModel| #[trigger] rows.contains(r) ==> tells_one(facts, r)
        }),
    decreases facts.len(),
{
    let side = scope.side;
    if facts.len() > 0 {
        let n = facts.len() - 1;
        let head = facts.drop_last();
        let f = facts.last();
        assert(f == facts[n]);
        assert forall|k: int| 0 <= k < head.len() implies #[trigger] head[k] == facts[k] by {}
        assert(are_arrivals(d, scope, head, told));
        assert(say_different(side, facts) ==> say_different(side, head));
        lemma_arrivals(d, scope, head, told);
        let mid = d.arrive_each(scope, head, told);
        let rows = timeline(mid.ledger, scope);
        let end = d.arrive_each(scope, facts, told);
        let after = timeline(end.ledger, scope);
        assert(end == mid.arrive(scope, f, told));
        assert(d.ledger.unused(facts[n].id));
        assert(mid.ledger.unused(f.id) && !mid.ids.contains(f.id)) by {
            assert forall|k: int| 0 <= k < head.len() implies (#[trigger] head[k]).id != f.id by {
                assert(facts[k].id != facts[n].id);
            }
        }
        assert forall|r: RowModel| #[trigger] rows.contains(r) implies !clash(side, r, bare(f))
            && !clash(side, bare(f), r) && (say_different(side, facts) ==> !says_same(side, r, bare(f))
            && !says_same(side, bare(f), r)) by {
            assert(tells_one(head, r));
            reveal(tells_one);
            let k = choose|k: int| 0 <= k < head.len() && tells(r, #[trigger] head[k]);
            assert(!clash(side, bare(facts[k]), bare(facts[n])));
            assert(!clash(side, bare(facts[n]), bare(facts[k])));
            assert(head[k] == facts[k]);
            if say_different(side, facts) {
                assert(!says_same(side, bare(facts[k]), bare(facts[n])));
                assert(!says_same(side, bare(facts[n]), bare(facts[k])));
            }
        }
        lemma_arrive(mid, scope, f, told);
        let x = row_of(with_fact(mid.ledger, f, told))(f);
        assert forall|y: u128|
            #[trigger] d.ledger.unused(y) && !d.ids.contains(y) && (forall|k: int|
                0 <= k < facts.len() ==> (#[trigger] facts[k]).id != y) implies end.ledger.unused(y)
            && !end.ids.contains(y) by {
            assert forall|k: int| 0 <= k < head.len() implies (#[trigger] head[k]).id != y by {
                assert(facts[k].id != y);
            }
            assert(facts[n].id != y);
            assert(mid.ledger.unused(y));
        }
        lemma_told_on(rows, after, facts, x);
    } else {
        assert forall|r: RowModel| !(#[trigger] timeline(d.ledger, scope).contains(r)) by {}
    }
}

/// Facts that arrive one after another fall into sequence, in whatever order they come: the
/// timeline says what they said, one row for each, and each row ends where the nearest later one
/// starts that says something else; the last one is open. Nothing is left to a person.
pub proof fn law_arrivals_fall_into_sequence(
    d: Desk,
    scope: Scope,
    facts: Seq<FactModel>,
    told: spec_fn(u128) -> Seq<Evidence>,
)
    requires
        are_arrivals(d, scope, facts, told),
    ensures
        ({
            let end = d.arrive_each(scope, facts, told);
            let rows = timeline(end.ledger, scope);
            &&& rows.len() == facts.len()
            &&& forall|k: int| 0 <= k < facts.len() ==> is_told(rows, #[trigger] facts[k])
            &&& forall|r: RowModel| #[trigger] rows.contains(r) ==> tells_one(facts, r)
            &&& in_sequence(scope.side, rows)
            &&& end.ledger.conflicts == d.ledger.conflicts
            &&& facts.len() > 0 ==> end.report.conflicts == 0
        }),
{
    lemma_arrivals(d, scope, facts, told);
}

/// Each fact of `a` says what some fact of `b` says.
#[verifier::opaque]
pub open spec fn said_among(a: Seq<FactModel>, b: Seq<FactModel>) -> bool {
    forall|i: int|
        0 <= i < a.len() ==> exists|j: int|
            0 <= j < b.len() && statement(bare(#[trigger] a[i])) == statement(bare(#[trigger] b[j]))
}

/// What follows a row on one timeline follows it on the other.
proof fn lemma_follower_told(
    side: Uniqueness,
    rows1: Seq<RowModel>,
    facts1: Seq<FactModel>,
    rows2: Seq<RowModel>,
    facts2: Seq<FactModel>,
    a: RowModel,
    b: RowModel,
    s: RowModel,
) -> (y: RowModel)
    requires
        identified(rows2),
        all_sure(rows1),
        all_sure(rows2),
        forall|r: RowModel| #[trigger] rows1.contains(r) ==> tells_one(facts1, r),
        forall|k: int| 0 <= k < facts2.len() ==> is_told(rows2, #[trigger] facts2[k]),
        said_among(facts1, facts2),
        rows1.contains(a),
        rows2.contains(b),
        statement(a) == statement(b),
        rows1.contains(s),
        follows(side, a)(s),
    ensures
        rows2.contains(y),
        follows(side, b)(y),
        y.valid_from == s.valid_from,
{
    assert(tells_one(facts1, s));
    reveal(is_told);
    reveal(tells_one);
    reveal(said_among);
    let i = choose|i: int| 0 <= i < facts1.len() && tells(s, #[trigger] facts1[i]);
    let j = choose|j: int|
        0 <= j < facts2.len() && statement(bare(facts1[i])) == statement(bare(#[trigger] facts2[j]));
    assert(is_told(rows2, facts2[j]));
    let y = choose|y: RowModel| #[trigger] rows2.contains(y) && tells(y, facts2[j]);
    assert(is_sure(a) && is_sure(s) && is_sure(b) && is_sure(y));
    assert(y != b);
    y
}

/// Where a row has a successor on one timeline, it has one on the other that starts no later.
proof fn lemma_ends_no_later(
    side: Uniqueness,
    rows1: Seq<RowModel>,
    facts1: Seq<FactModel>,
    rows2: Seq<RowModel>,
    facts2: Seq<FactModel>,
    a: RowModel,
    b: RowModel,
)
    requires
        identified(rows2),
        all_sure(rows1),
        all_sure(rows2),
        forall|r: RowModel| #[trigger] rows1.contains(r) ==> tells_one(facts1, r),
        forall|k: int| 0 <= k < facts2.len() ==> is_told(rows2, #[trigger] facts2[k]),
        said_among(facts1, facts2),
        rows1.contains(a),
        rows2.contains(b),
        statement(a) == statement(b),
        successor(side, rows1, a) is Some,
    ensures
        successor(side, rows2, b) is Some,
        is_sure(successor(side, rows1, a)->0),
        is_sure(successor(side, rows2, b)->0),
        successor(side, rows2, b)->0.valid_from->0 <= successor(side, rows1, a)->0.valid_from->0,
{
    let s = successor(side, rows1, a)->0;
    lemma_successor(side, rows1, a);
    lemma_successor(side, rows2, b);
    let y = lemma_follower_told(side, rows1, facts1, rows2, facts2, a, b, s);
    let t = successor(side, rows2, b)->0;
    assert(is_sure(s) && is_sure(t) && is_sure(y));
}

/// The order of arrival does not matter: the same facts, arriving in two orders, give each value
/// the same interval.
pub proof fn law_arrivals_in_any_order_end_alike(
    d1: Desk,
    facts1: Seq<FactModel>,
    told1: spec_fn(u128) -> Seq<Evidence>,
    d2: Desk,
    facts2: Seq<FactModel>,
    told2: spec_fn(u128) -> Seq<Evidence>,
    scope: Scope,
    a: RowModel,
    b: RowModel,
)
    requires
        are_arrivals(d1, scope, facts1, told1),
        are_arrivals(d2, scope, facts2, told2),
        said_among(facts1, facts2),
        said_among(facts2, facts1),
        timeline(d1.arrive_each(scope, facts1, told1).ledger, scope).contains(a),
        timeline(d2.arrive_each(scope, facts2, told2).ledger, scope).contains(b),
        statement(a) == statement(b),
    ensures
        a.valid_from == b.valid_from,
        a.valid_to == b.valid_to,
        a.is_open() == b.is_open(),
{
    let side = scope.side;
    let rows1 = timeline(d1.arrive_each(scope, facts1, told1).ledger, scope);
    let rows2 = timeline(d2.arrive_each(scope, facts2, told2).ledger, scope);
    lemma_arrivals(d1, scope, facts1, told1);
    lemma_arrivals(d2, scope, facts2, told2);
    lemma_rows_identified(d1.arrive_each(scope, facts1, told1).ledger, scope);
    lemma_rows_identified(d2.arrive_each(scope, facts2, told2).ledger, scope);
    assert(has_its_end(side, rows1, a) && has_its_end(side, rows2, b));
    assert(is_sure(a) && is_sure(b));
    assert(statement(a).valid_from == statement(b).valid_from);
    if successor(side, rows1, a) is Some {
        lemma_ends_no_later(side, rows1, facts1, rows2, facts2, a, b);
    }
    if successor(side, rows2, b) is Some {
        lemma_ends_no_later(side, rows2, facts2, rows1, facts1, b, a);
    }
}

} // verus!
