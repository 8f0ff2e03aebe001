//! What holds of timelines: where a late value takes its place, which ends are never moved, and
//! what is left to a person.

use crate::engine::{
    open_rival, row_with_id, simultaneous_rival, undated_rival, Desk, MAX_TIDY_ROUNDS,
};
use crate::handover::{
    all_in_place, all_sharp, at_rest, gives_way, in_place, is_said, is_sharp, keeps_rows, lemma_due,
    lemma_nothing_due, lemma_raise, lemma_replaced, lemma_rows_identified, lemma_successor,
    lemma_tidy_keeps, lemma_tidy_places, out_of_reach, says, with_person,
};
use crate::history::lemma_filter_none;
use crate::identity::{lemma_filter_contains, lemma_timeline};
use crate::ledger::{conflict_between, pending_between, ChangeModel, LedgerModel};
use crate::order::{first, lemma_first};
use crate::placing::{
    closed_at, lemma_close_all, lemma_filter_apart, lemma_raise_all, lemma_same_another_at,
    lemma_same_said, lemma_same_said_further, lemma_timeline_apart, same_dated, same_said,
};
use crate::rest::{
    lemma_comes_to_rest, lemma_same_needs, lemma_sum_le, lemma_sum_zero, meets, one_if, sum,
};
use crate::rewrite::alive_with_id;
use crate::timeline::{
    another_at, change_due, follows, says_same, successor, timeline, RowModel, Scope, Uniqueness,
};
use vstd::prelude::*;

verus! {

/// Tidying loses nothing and adds nothing: what the rows say, but for their ends, is the same
/// before and after. A row that cannot be placed in time stays as it is, and so does one that has
/// ended where no other row starts.
pub proof fn law_tidying_keeps_what_is_said(d: Desk, scope: Scope)
    requires
        d.supplied(MAX_TIDY_ROUNDS as int),
    ensures
        keeps_rows(timeline(d.ledger, scope), timeline(d.tidy(scope).ledger, scope)),
{
    lemma_tidy_keeps(d, scope, Seq::empty(), MAX_TIDY_ROUNDS as nat);
}

/// Tidying stops at rest or at its limit: if something was due in fewer rounds than there are,
/// nothing is due any more but what was left to a person. Each round in which something was due has
/// corrected a row, or left a pair to a person.
pub proof fn law_tidying_stops_at_rest_or_at_its_limit(d: Desk, scope: Scope)
    ensures
        ({
            let end = d.tidy(scope);
            let held = d.held_after(scope, Seq::empty(), MAX_TIDY_ROUNDS as nat);
            let taken = d.rounds_taken(scope, Seq::empty(), MAX_TIDY_ROUNDS as nat);
            &&& taken <= MAX_TIDY_ROUNDS
            &&& taken == end.report.corrected.len() - d.report.corrected.len() + held.len()
            &&& taken < MAX_TIDY_ROUNDS ==> change_due(
                scope.side,
                timeline(end.ledger, scope),
                held,
            ) is None
            &&& d.comes_to_rest(scope, Seq::empty(), MAX_TIDY_ROUNDS as nat) <==> change_due(
                scope.side,
                timeline(end.ledger, scope),
                held,
            ) is None
        }),
{
    lemma_taken(d, scope, Seq::empty(), MAX_TIDY_ROUNDS as nat);
    lemma_nothing_due(
        scope.side,
        timeline(d.tidy(scope).ledger, scope),
        d.held_after(scope, Seq::empty(), MAX_TIDY_ROUNDS as nat),
    );
}

proof fn lemma_taken(d: Desk, scope: Scope, held: Seq<(u128, u128)>, rounds: nat)
    ensures
        ({
            let end = d.tidy_rounds(scope, held, rounds);
            let taken = d.rounds_taken(scope, held, rounds);
            &&& taken <= rounds
            &&& taken == end.report.corrected.len() - d.report.corrected.len() + d.held_after(
                scope,
                held,
                rounds,
            ).len() - held.len()
            &&& taken < rounds ==> change_due(
                scope.side,
                timeline(end.ledger, scope),
                d.held_after(scope, held, rounds),
            ) is None
        }),
    decreases rounds,
{
    let rows = timeline(d.ledger, scope);
    if rounds > 0 && change_due(scope.side, rows, held) is Some {
        let (row, next) = change_due(scope.side, rows, held)->0;
        if next.confidence.is_low() {
            let mid = d.raise(scope.kb_id, row.id, next.id, "low_confidence"@);
            lemma_taken(mid, scope, held.push((row.id, next.id)), (rounds - 1) as nat);
        } else {
            lemma_due(scope.side, rows, held);
            lemma_timeline(d.ledger, scope);
            let i = choose|i: int| #[trigger] d.ledger.stands(scope, i) && d.ledger.row(i) == row;
            lemma_first(d.ledger.facts, alive_with_id(row.id));
            assert(alive_with_id(row.id)(d.ledger.facts[i]));
            lemma_taken(d.close_at(row, next), scope, held, (rounds - 1) as nat);
        }
    }
}

/// Tidying comes to rest if the timeline needs no more rounds than there are. Where the confidence
/// in no row is low, it needs one for each row that has to be rewritten: a row is rewritten once at
/// most.
pub proof fn law_tidying_comes_to_rest(d: Desk, scope: Scope)
    requires
        d.supplied(MAX_TIDY_ROUNDS as int),
        all_sharp(timeline(d.ledger, scope)),
        d.ledger.rounds_needed(scope) <= MAX_TIDY_ROUNDS,
    ensures
        d.comes_to_rest(scope, Seq::empty(), MAX_TIDY_ROUNDS as nat),
        change_due(
            scope.side,
            timeline(d.tidy(scope).ledger, scope),
            d.held_after(scope, Seq::empty(), MAX_TIDY_ROUNDS as nat),
        ) is None,
{
    lemma_comes_to_rest(d, scope, Seq::empty(), MAX_TIDY_ROUNDS as nat);
    law_tidying_stops_at_rest_or_at_its_limit(d, scope);
}

/// The confidence in no row that can be placed in time is low.
pub open spec fn none_low(rows: Seq<RowModel>) -> bool {
    forall|r: RowModel| #[trigger] rows.contains(r) && r.key() is Some ==> !r.confidence.is_low()
}

/// Where the confidence in no row is low, a timeline needs a round for each row that has to be
/// rewritten, and no more.
pub proof fn law_sure_rows_need_a_round_each(l: LedgerModel, scope: Scope)
    requires
        none_low(timeline(l, scope)),
    ensures
        l.rounds_needed(scope) == l.due_rows(scope),
        l.rounds_needed(scope) <= l.facts.len(),
{
    let n = l.facts.len() as int;
    let none = Seq::<(u128, u128)>::empty();
    let zero = |k: int| 0nat;
    let f = |a: int| sum(|b: int| l.rounds_of(scope, none, a, b), n);
    lemma_timeline(l, scope);
    lemma_sum_zero(n);
    assert forall|a: int| 0 <= a < n implies #[trigger] f(a) <= zero(a) by {
        let g = |b: int| l.rounds_of(scope, none, a, b);
        assert forall|b: int| 0 <= b < n implies #[trigger] g(b) <= zero(b) by {
            if l.is_unsure(scope, a, b) {
                assert(timeline(l, scope).contains(l.row(b)));
                assert(meets(scope.side, timeline(l, scope), l.row(a), l.row(b)));
            }
        }
        lemma_sum_le(zero, g, n);
    }
    lemma_sum_le(zero, f, n);
    lemma_sum_flags(l, scope, n);
}

proof fn lemma_sum_flags(l: LedgerModel, scope: Scope, n: int)
    requires
        n >= 0,
    ensures
        sum(|i: int| one_if(l.is_due(scope, i)), n) <= n,
    decreases n,
{
    if n > 0 {
        lemma_sum_flags(l, scope, n - 1);
    }
}

/// A timeline on which nothing is due is not changed by tidying it.
pub proof fn law_what_is_tidy_stays(d: Desk, scope: Scope)
    requires
        at_rest(scope.side, timeline(d.ledger, scope), Seq::empty()),
    ensures
        d.tidy(scope) == d,
{
    lemma_nothing_due(
        scope.side,
        timeline(d.ledger, scope),
        Seq::<(u128, u128)>::empty(),
    );
}

/// Tidying loses no row in which the confidence is low, and adds none: where there is none, nothing
/// is held.
proof fn lemma_none_held(d: Desk, scope: Scope, rounds: nat)
    requires
        d.supplied(rounds as int),
        none_low(timeline(d.ledger, scope)),
    ensures
        d.held_after(scope, Seq::empty(), rounds) == Seq::<(u128, u128)>::empty(),
    decreases rounds,
{
    let none = Seq::<(u128, u128)>::empty();
    let rows = timeline(d.ledger, scope);
    if rounds > 0 && change_due(scope.side, rows, none) is Some {
        let (row, next) = change_due(scope.side, rows, none)->0;
        lemma_due(scope.side, rows, none);
        lemma_timeline(d.ledger, scope);
        let i = choose|i: int| #[trigger] d.ledger.stands(scope, i) && d.ledger.row(i) == row;
        lemma_replaced(d, scope, i, next);
        let mid = d.close_at(row, next);
        let between = timeline(mid.ledger, scope);
        assert forall|r: RowModel| #[trigger] between.contains(r) && r.key() is Some implies
            !r.confidence.is_low() by {
            if r != mid.ledger.row(d.ledger.facts.len() as int) {
                assert(rows.contains(r));
            }
        }
        lemma_none_held(mid, scope, (rounds - 1) as nat);
    }
}

/// Tidying once more changes nothing and adds nothing to the report, where the confidence in no row
/// is low and tidying had come to rest. It had, if it corrected fewer rows than it has rounds.
pub proof fn law_tidying_again_changes_nothing(d: Desk, scope: Scope)
    requires
        d.supplied(MAX_TIDY_ROUNDS as int),
        none_low(timeline(d.ledger, scope)),
        d.comes_to_rest(scope, Seq::empty(), MAX_TIDY_ROUNDS as nat) || d.tidy(
            scope,
        ).report.corrected.len() < d.report.corrected.len() + MAX_TIDY_ROUNDS,
    ensures
        change_due(scope.side, timeline(d.tidy(scope).ledger, scope), Seq::empty()) is None,
        d.tidy(scope).tidy(scope) == d.tidy(scope),
{
    lemma_none_held(d, scope, MAX_TIDY_ROUNDS as nat);
    law_tidying_stops_at_rest_or_at_its_limit(d, scope);
}

/// Once tidying has come to rest, each row ends where the nearest later row starts that says
/// something else, and is open where there is none. Where the confidence in that later row is low,
/// the two may be with a person instead. A row that had ended elsewhere, as the text states it,
/// keeps its end.
pub proof fn law_tidied_rows_have_their_place(d: Desk, scope: Scope)
    requires
        d.supplied(MAX_TIDY_ROUNDS as int),
        all_sharp(timeline(d.ledger, scope)),
        d.comes_to_rest(scope, Seq::empty(), MAX_TIDY_ROUNDS as nat),
    ensures
        all_in_place(
            scope.side,
            timeline(d.ledger, scope),
            d.tidy(scope).ledger,
            timeline(d.tidy(scope).ledger, scope),
        ),
{
    lemma_tidy_places(d, scope, Seq::empty(), MAX_TIDY_ROUNDS as nat);
}

/// How many identifiers placing a fact on a timeline can take.
pub open spec fn supply(rows: Seq<RowModel>) -> int {
    2 * rows.len() + MAX_TIDY_ROUNDS
}

/// What happens to a timeline when it receives a row that can be placed in time, before it is
/// tidied.
proof fn lemma_received(d: Desk, scope: Scope, new: RowModel)
    requires
        d.supplied(supply(timeline(d.ledger, scope))),
        new.key() is Some,
    ensures
        d.receive(scope, new).supplied(MAX_TIDY_ROUNDS as int),
        same_dated(
            timeline(d.ledger, scope),
            timeline(d.receive(scope, new).ledger, scope),
        ),
        same_said(
            timeline(d.ledger, scope),
            timeline(d.receive(scope, new).ledger, scope),
        ),
        d.receive(scope, new).ledger.rounds_needed(scope) <= d.ledger.rounds_needed(scope),
        forall|o: RowModel|
            #[trigger] timeline(d.ledger, scope).contains(o) && simultaneous_rival(
                scope.side,
                new,
            )(o) ==> with_person(d.receive(scope, new).ledger, o.id, new.id),
        forall|o: RowModel|
            #[trigger] timeline(d.ledger, scope).contains(o) && undated_rival(scope.side, new)(o)
                ==> if new.confidence.is_low() {
                with_person(d.receive(scope, new).ledger, o.id, new.id)
            } else {
                closed_at(timeline(d.receive(scope, new).ledger, scope), o, new)
            },
        forall|o: RowModel|
            timeline(d.ledger, scope).contains(o) && !undated_rival(scope.side, new)(o)
                ==> #[trigger] timeline(d.receive(scope, new).ledger, scope).contains(o),
{
    let rows = timeline(d.ledger, scope);
    let p = simultaneous_rival(scope.side, new);
    let q = undated_rival(scope.side, new);
    let together = rows.filter(p);
    let undated = rows.filter(q);
    lemma_timeline_apart(d.ledger, scope);
    lemma_filter_apart(rows, p);
    lemma_filter_apart(rows, q);
    lemma_raise_all(d, scope, scope.kb_id, together, new.id, "simultaneous"@);
    let d1 = d.raise_all(scope.kb_id, together, new.id, "simultaneous"@);
    assert forall|k: int| 0 <= k < undated.len() implies rows.contains(#[trigger] undated[k])
        && undated[k].key() is None && undated[k].is_open() by {
        assert(undated.contains(undated[k]));
        lemma_filter_contains(rows, q, undated[k]);
    }
    lemma_close_all(d1, scope, scope.kb_id, undated, new);
    let d2 = d.receive(scope, new);
    lemma_same_needs(d.ledger, d1.ledger, scope);
    assert forall|o: RowModel| #[trigger] rows.contains(o) && p(o) implies with_person(
        d2.ledger,
        o.id,
        new.id,
    ) by {
        lemma_filter_contains(rows, p, o);
        let k = choose|k: int| 0 <= k < together.len() && together[k] == o;
        assert(with_person(d1.ledger, together[k].id, new.id));
    }
    assert forall|o: RowModel| #[trigger] rows.contains(o) && q(o) implies if new.confidence.is_low() {
        with_person(d2.ledger, o.id, new.id)
    } else {
        closed_at(timeline(d2.ledger, scope), o, new)
    } by {
        lemma_filter_contains(rows, q, o);
        let k = choose|k: int| 0 <= k < undated.len() && undated[k] == o;
    }
    assert forall|o: RowModel| rows.contains(o) && !q(o) implies #[trigger] timeline(
        d2.ledger,
        scope,
    ).contains(o) by {
        assert forall|k: int| 0 <= k < undated.len() implies (#[trigger] undated[k]).id != o.id by {
            assert(undated.contains(undated[k]));
            lemma_filter_contains(rows, q, undated[k]);
            lemma_rows_identified(d.ledger, scope);
        }
    }
}

/// The place of rows before a timeline received a row is their place after.
proof fn lemma_in_place_received(
    side: Uniqueness,
    rows: Seq<RowModel>,
    between: Seq<RowModel>,
    l: LedgerModel,
    after: Seq<RowModel>,
)
    requires
        same_dated(rows, between),
        all_in_place(side, between, l, after),
    ensures
        all_in_place(side, rows, l, after),
{
    assert forall|r: RowModel| #[trigger] after.contains(r) && r.key() is Some implies {
        ||| in_place(side, l, after, r)
        ||| rows.contains(r) && !r.is_open() && !gives_way(side, rows, r)
    } by {
        if !in_place(side, l, after, r) {
            assert(between.contains(r) && rows.contains(r));
            if gives_way(side, rows, r) {
                let y = choose|y: RowModel|
                    #[trigger] rows.contains(y) && follows(side, r)(y) && y.key() == r.end();
                assert(between.contains(y));
                assert(gives_way(side, between, r));
            }
        }
    }
}

/// The row of a fact on a timeline.
pub open spec fn row_on(l: LedgerModel, scope: Scope, fact_id: u128) -> Option<RowModel> {
    first(timeline(l, scope), row_with_id(fact_id))
}

/// A value that comes late takes its place: wherever in time the fact starts, once it is placed
/// each row of its timeline ends where the nearest later one starts that says something else, and
/// is open where there is none. Where the confidence in that later row is low, the two may be with
/// a person instead. Only a row that had ended elsewhere, as the text states it, keeps its end. It
/// is so whenever tidying came to rest.
pub proof fn law_a_late_value_takes_its_place(d: Desk, scope: Scope, fact_id: u128)
    requires
        d.supplied(supply(timeline(d.ledger, scope))),
        all_sharp(timeline(d.ledger, scope)),
        row_on(d.ledger, scope, fact_id) is Some,
        row_on(d.ledger, scope, fact_id)->0.key() is Some,
        d.receive(scope, row_on(d.ledger, scope, fact_id)->0).comes_to_rest(
            scope,
            Seq::empty(),
            MAX_TIDY_ROUNDS as nat,
        ),
    ensures
        all_in_place(
            scope.side,
            timeline(d.ledger, scope),
            d.place(scope, fact_id).ledger,
            timeline(d.place(scope, fact_id).ledger, scope),
        ),
{
    let new = row_on(d.ledger, scope, fact_id)->0;
    let rows = timeline(d.ledger, scope);
    lemma_received(d, scope, new);
    let mid = d.receive(scope, new);
    lemma_sharp_received(rows, timeline(mid.ledger, scope));
    law_tidied_rows_have_their_place(mid, scope);
    lemma_in_place_received(
        scope.side,
        rows,
        timeline(mid.ledger, scope),
        mid.tidy(scope).ledger,
        timeline(mid.tidy(scope).ledger, scope),
    );
}

proof fn lemma_sharp_received(rows: Seq<RowModel>, between: Seq<RowModel>)
    requires
        all_sharp(rows),
        same_dated(rows, between),
    ensures
        all_sharp(between),
{
    assert forall|r: RowModel| #[trigger] between.contains(r) && r.key() is Some implies is_sharp(
        r,
    ) by {
        assert(rows.contains(r));
    }
}

/// A timeline that needs no more rounds than there are comes to rest when a fact is placed on it:
/// what the fact meets before the timeline is tidied leaves no more to be done.
pub proof fn law_placing_comes_to_rest(d: Desk, scope: Scope, fact_id: u128)
    requires
        d.supplied(supply(timeline(d.ledger, scope))),
        all_sharp(timeline(d.ledger, scope)),
        row_on(d.ledger, scope, fact_id) is Some,
        row_on(d.ledger, scope, fact_id)->0.key() is Some,
        d.ledger.rounds_needed(scope) <= MAX_TIDY_ROUNDS,
    ensures
        d.receive(scope, row_on(d.ledger, scope, fact_id)->0).comes_to_rest(
            scope,
            Seq::empty(),
            MAX_TIDY_ROUNDS as nat,
        ),
{
    let new = row_on(d.ledger, scope, fact_id)->0;
    let mid = d.receive(scope, new);
    lemma_received(d, scope, new);
    lemma_sharp_received(timeline(d.ledger, scope), timeline(mid.ledger, scope));
    law_tidying_comes_to_rest(mid, scope);
}

/// Placing a fact loses nothing and adds nothing: what the rows of its timeline say, but for their
/// ends, is the same before and after.
pub proof fn law_placing_keeps_what_is_said(d: Desk, scope: Scope, fact_id: u128)
    requires
        d.supplied(supply(timeline(d.ledger, scope))),
    ensures
        same_said(
            timeline(d.ledger, scope),
            timeline(d.place(scope, fact_id).ledger, scope),
        ),
{
    let rows = timeline(d.ledger, scope);
    lemma_same_said(rows);
    match row_on(d.ledger, scope, fact_id) {
        None => {},
        Some(new) => {
            if new.key() is None {
                let p = open_rival(scope.side, new);
                lemma_timeline_apart(d.ledger, scope);
                lemma_filter_apart(rows, p);
                lemma_raise_all(d, scope, scope.kb_id, rows.filter(p), new.id, "no_time"@);
            } else {
                lemma_received(d, scope, new);
                let mid = d.receive(scope, new);
                law_tidying_keeps_what_is_said(mid, scope);
                lemma_same_said_further(
                    rows,
                    timeline(mid.ledger, scope),
                    timeline(mid.tidy(scope).ledger, scope),
                );
            }
        },
    }
}

/// Placing a fact once more changes nothing, where the timeline is at rest and no rival starts
/// together with the fact or cannot be placed in time.
pub proof fn law_a_placed_fact_stays_placed(d: Desk, scope: Scope, fact_id: u128)
    requires
        at_rest(scope.side, timeline(d.ledger, scope), Seq::empty()),
        row_on(d.ledger, scope, fact_id) is Some,
        row_on(d.ledger, scope, fact_id)->0.key() is Some,
        forall|o: RowModel| #[trigger]
            timeline(d.ledger, scope).contains(o) ==> !simultaneous_rival(
                scope.side,
                row_on(d.ledger, scope, fact_id)->0,
            )(o) && !undated_rival(scope.side, row_on(d.ledger, scope, fact_id)->0)(o),
    ensures
        d.place(scope, fact_id) == d,
{
    let rows = timeline(d.ledger, scope);
    let new = row_on(d.ledger, scope, fact_id)->0;
    assert forall|i: int| 0 <= i < rows.len() implies !simultaneous_rival(scope.side, new)(
        #[trigger] rows[i],
    ) && !undated_rival(scope.side, new)(rows[i]) by {
        assert(rows.contains(rows[i]));
    }
    lemma_filter_none(rows, simultaneous_rival(scope.side, new));
    lemma_filter_none(rows, undated_rival(scope.side, new));
    law_what_is_tidy_stays(d, scope);
}

/// An end that the text states is not moved: a row that can be placed in time and has ended where
/// no other row starts is still there, as it was, once a fact was placed.
pub proof fn law_a_stated_end_is_not_moved(d: Desk, scope: Scope, fact_id: u128, r: RowModel)
    requires
        d.supplied(supply(timeline(d.ledger, scope))),
        timeline(d.ledger, scope).contains(r),
        !r.is_open(),
        r.end() is None || !another_at(timeline(d.ledger, scope), r.id, r.end()->0),
    ensures
        timeline(d.place(scope, fact_id).ledger, scope).contains(r),
{
    let rows = timeline(d.ledger, scope);
    match row_on(d.ledger, scope, fact_id) {
        None => {},
        Some(new) => {
            if new.key() is None {
                let p = open_rival(scope.side, new);
                lemma_timeline_apart(d.ledger, scope);
                lemma_filter_apart(rows, p);
                lemma_raise_all(d, scope, scope.kb_id, rows.filter(p), new.id, "no_time"@);
            } else {
                lemma_received(d, scope, new);
                let mid = d.receive(scope, new);
                let between = timeline(mid.ledger, scope);
                assert(between.contains(r));
                if r.end() is Some {
                    lemma_same_another_at(rows, between, r.id, r.end()->0);
                }
                assert(out_of_reach(between, r));
                law_tidying_keeps_what_is_said(mid, scope);
            }
        },
    }
}

/// Tidying takes nothing back that is with a person.
proof fn lemma_tidy_with_person(
    d: Desk,
    scope: Scope,
    held: Seq<(u128, u128)>,
    rounds: nat,
    a: u128,
    b: u128,
)
    requires
        d.supplied(rounds as int),
        with_person(d.ledger, a, b),
    ensures
        with_person(d.tidy_rounds(scope, held, rounds).ledger, a, b),
    decreases rounds,
{
    let rows = timeline(d.ledger, scope);
    if rounds > 0 && change_due(scope.side, rows, held) is Some {
        let (row, next) = change_due(scope.side, rows, held)->0;
        lemma_due(scope.side, rows, held);
        lemma_timeline(d.ledger, scope);
        let i = choose|i: int| #[trigger] d.ledger.stands(scope, i) && d.ledger.row(i) == row;
        if next.confidence.is_low() {
            lemma_raise(d, scope, scope.kb_id, row.id, next.id, "low_confidence"@);
            lemma_tidy_with_person(
                d.raise(scope.kb_id, row.id, next.id, "low_confidence"@),
                scope,
                held.push((row.id, next.id)),
                (rounds - 1) as nat,
                a,
                b,
            );
        } else {
            lemma_replaced(d, scope, i, next);
            lemma_tidy_with_person(
                d.close_at(row, next),
                scope,
                held,
                (rounds - 1) as nat,
                a,
                b,
            );
        }
    }
}

/// A fact that cannot be placed in time closes nothing: no fact is changed, and each open row that
/// says something else is with a person together with it.
pub proof fn law_without_a_time_nothing_is_closed(d: Desk, scope: Scope, fact_id: u128)
    requires
        d.supplied(supply(timeline(d.ledger, scope))),
        row_on(d.ledger, scope, fact_id) is Some,
        row_on(d.ledger, scope, fact_id)->0.key() is None,
    ensures
        d.place(scope, fact_id).ledger.facts == d.ledger.facts,
        forall|o: RowModel|
            #[trigger] timeline(d.ledger, scope).contains(o) && open_rival(
                scope.side,
                row_on(d.ledger, scope, fact_id)->0,
            )(o) ==> with_person(d.place(scope, fact_id).ledger, o.id, fact_id),
{
    let rows = timeline(d.ledger, scope);
    let new = row_on(d.ledger, scope, fact_id)->0;
    let p = open_rival(scope.side, new);
    let picked = rows.filter(p);
    lemma_first(rows, row_with_id(fact_id));
    lemma_timeline_apart(d.ledger, scope);
    lemma_filter_apart(rows, p);
    lemma_raise_all(d, scope, scope.kb_id, picked, new.id, "no_time"@);
    assert forall|o: RowModel| #[trigger] rows.contains(o) && p(o) implies with_person(
        d.place(scope, fact_id).ledger,
        o.id,
        fact_id,
    ) by {
        lemma_filter_contains(rows, p, o);
        let k = choose|k: int| 0 <= k < picked.len() && picked[k] == o;
        assert(with_person(d.place(scope, fact_id).ledger, picked[k].id, new.id));
    }
}

/// Which of two rows succeeds the other cannot be told where they start together: such a pair is
/// with a person once the fact was placed.
pub proof fn law_what_starts_together_is_left_to_a_person(
    d: Desk,
    scope: Scope,
    fact_id: u128,
    o: RowModel,
)
    requires
        d.supplied(supply(timeline(d.ledger, scope))),
        row_on(d.ledger, scope, fact_id) is Some,
        row_on(d.ledger, scope, fact_id)->0.key() is Some,
        timeline(d.ledger, scope).contains(o),
        simultaneous_rival(scope.side, row_on(d.ledger, scope, fact_id)->0)(o),
    ensures
        with_person(d.place(scope, fact_id).ledger, o.id, fact_id),
{
    let new = row_on(d.ledger, scope, fact_id)->0;
    lemma_first(timeline(d.ledger, scope), row_with_id(fact_id));
    lemma_received(d, scope, new);
    lemma_tidy_with_person(
        d.receive(scope, new),
        scope,
        Seq::empty(),
        MAX_TIDY_ROUNDS as nat,
        o.id,
        fact_id,
    );
}

/// An open row that says something else and cannot be placed in time is closed where the placed
/// fact starts; or left to a person with it, where the confidence in the fact is low.
pub proof fn law_what_has_no_time_ends_where_a_fact_starts(
    d: Desk,
    scope: Scope,
    fact_id: u128,
    o: RowModel,
)
    requires
        d.supplied(supply(timeline(d.ledger, scope))),
        row_on(d.ledger, scope, fact_id) is Some,
        row_on(d.ledger, scope, fact_id)->0.key() is Some,
        timeline(d.ledger, scope).contains(o),
        undated_rival(scope.side, row_on(d.ledger, scope, fact_id)->0)(o),
    ensures
        if row_on(d.ledger, scope, fact_id)->0.confidence.is_low() {
            with_person(d.place(scope, fact_id).ledger, o.id, fact_id)
        } else {
            closed_at(
                timeline(d.place(scope, fact_id).ledger, scope),
                o,
                row_on(d.ledger, scope, fact_id)->0,
            )
        },
{
    let new = row_on(d.ledger, scope, fact_id)->0;
    lemma_first(timeline(d.ledger, scope), row_with_id(fact_id));
    lemma_received(d, scope, new);
    let mid = d.receive(scope, new);
    if new.confidence.is_low() {
        lemma_tidy_with_person(
            mid,
            scope,
            Seq::empty(),
            MAX_TIDY_ROUNDS as nat,
            o.id,
            fact_id,
        );
    } else {
        let between = timeline(mid.ledger, scope);
        let s = choose|s: RowModel|
            #[trigger] between.contains(s) && says(s) == says(o) && !s.is_open() && (is_sharp(new)
                ==> s.end() == new.key());
        law_tidying_keeps_what_is_said(mid, scope);
        assert(out_of_reach(between, s));
        assert(timeline(mid.tidy(scope).ledger, scope).contains(s));
    }
}

/// A row holds at `t`: it has started, and has not ended.
pub open spec fn holds_at(r: RowModel, t: i64) -> bool {
    &&& r.key() is Some
    &&& r.key()->0 <= t
    &&& r.is_open() || (r.end() is Some && t < r.end()->0)
}

/// One value at a time: where each row of a timeline has its place and none is with a person, two
/// rows that hold at the same moment say the same, or started together.
pub proof fn law_one_value_at_a_time(
    side: Uniqueness,
    l: LedgerModel,
    rows: Seq<RowModel>,
    a: RowModel,
    b: RowModel,
    t: i64,
)
    requires
        forall|r: RowModel|
            #[trigger] rows.contains(r) && r.key() is Some ==> in_place(side, l, rows, r),
        none_low(rows),
        rows.contains(a),
        rows.contains(b),
        a.id != b.id,
        holds_at(a, t),
        holds_at(b, t),
    ensures
        says_same(side, a, b) || says_same(side, b, a) || a.key() == b.key(),
{
    lemma_successor(side, rows, a);
    lemma_successor(side, rows, b);
    if a.key()->0 < b.key()->0 && !says_same(side, a, b) {
        assert(follows(side, a)(b));
        assert(in_place(side, l, rows, a));
    }
    if b.key()->0 < a.key()->0 && !says_same(side, b, a) {
        assert(follows(side, b)(a));
        assert(in_place(side, l, rows, b));
    }
}

/// On a timeline an identifier tells the row.
pub open spec fn identified(rows: Seq<RowModel>) -> bool {
    forall|r: RowModel, s: RowModel|
        #![trigger rows.contains(r), rows.contains(s)]
        rows.contains(r) && rows.contains(s) && r.id == s.id ==> r == s
}

/// What is said by a follower of a row is said by a follower of any row that says the same.
proof fn lemma_follower_said(
    side: Uniqueness,
    rows: Seq<RowModel>,
    a: RowModel,
    b: RowModel,
    s: RowModel,
) -> (y: RowModel)
    requires
        identified(rows),
        rows.contains(b),
        says(a) == says(b),
        follows(side, a)(s),
        is_said(rows, s),
    ensures
        rows.contains(y),
        follows(side, b)(y),
        y.key() == s.key(),
{
    reveal(is_said);
    let y = choose|y: RowModel| #[trigger] rows.contains(y) && says(y) == says(s);
    assert(y != b);
    y
}

/// The order of arrival does not matter: two timelines that say the same, and in which a row has
/// its place and none is with a person, give that row the same end.
pub proof fn law_the_order_of_arrival_does_not_matter(
    side: Uniqueness,
    l1: LedgerModel,
    rows1: Seq<RowModel>,
    l2: LedgerModel,
    rows2: Seq<RowModel>,
    a: RowModel,
    b: RowModel,
)
    requires
        forall|r: RowModel| #[trigger] rows1.contains(r) ==> is_said(rows2, r),
        forall|r: RowModel| #[trigger] rows2.contains(r) ==> is_said(rows1, r),
        identified(rows1),
        identified(rows2),
        none_low(rows1),
        none_low(rows2),
        rows1.contains(a),
        rows2.contains(b),
        a.key() is Some,
        says(a) == says(b),
        in_place(side, l1, rows1, a),
        in_place(side, l2, rows2, b),
    ensures
        a.is_open() == b.is_open(),
        !a.is_open() ==> a.end() == b.end(),
{
    lemma_successor(side, rows1, a);
    lemma_successor(side, rows2, b);
    if successor(side, rows1, a) is Some {
        let s = successor(side, rows1, a)->0;
        let y = lemma_follower_said(side, rows2, a, b, s);
    }
    if successor(side, rows2, b) is Some {
        let s = successor(side, rows2, b)->0;
        let y = lemma_follower_said(side, rows1, b, a, s);
    }
}

/// No two conflicts are of the same two facts in the same order, and no two open ones are of the
/// same two facts in either.
pub open spec fn pairs_differ(l: LedgerModel) -> bool {
    forall|i: int, j: int|
        0 <= i < l.conflicts.len() && 0 <= j < l.conflicts.len() && i != j ==> {
            &&& !conflict_between(l.conflicts[i].old_fact_id, l.conflicts[i].new_fact_id)(
                #[trigger] l.conflicts[j],
            )
            &&& (#[trigger] l.conflicts[i]).status == "open"@ ==> !pending_between(
                l.conflicts[i].new_fact_id,
                l.conflicts[i].old_fact_id,
            )(l.conflicts[j])
        }
}

/// A pair is one question: whatever is changed, two facts are left to a person only once in the
/// same order, and are not open in both orders at a time.
pub proof fn law_a_pair_is_left_to_a_person_once(l: LedgerModel, change: ChangeModel)
    requires
        pairs_differ(l),
    ensures
        pairs_differ(l.commit(change)),
{
    let after = l.commit(change);
    match change {
        ChangeModel::Raise { conflict } => {
            let p = conflict_between(conflict.old_fact_id, conflict.new_fact_id);
            let q = pending_between(conflict.new_fact_id, conflict.old_fact_id);
            lemma_first(l.conflicts, p);
            lemma_first(l.conflicts, q);
            let n = l.conflicts.len() as int;
            if after.conflicts.len() > n {
                assert forall|i: int, j: int|
                    0 <= i < after.conflicts.len() && 0 <= j < after.conflicts.len() && i
                        != j implies {
                    &&& !conflict_between(
                        after.conflicts[i].old_fact_id,
                        after.conflicts[i].new_fact_id,
                    )(#[trigger] after.conflicts[j])
                    &&& (#[trigger] after.conflicts[i]).status == "open"@ ==> !pending_between(
                        after.conflicts[i].new_fact_id,
                        after.conflicts[i].old_fact_id,
                    )(after.conflicts[j])
                } by {
                    if i < n {
                        assert(after.conflicts[i] == l.conflicts[i]);
                        assert(!p(l.conflicts[i]) && !q(l.conflicts[i]));
                    }
                    if j < n {
                        assert(after.conflicts[j] == l.conflicts[j]);
                        assert(!p(l.conflicts[j]) && !q(l.conflicts[j]));
                    }
                }
            }
        },
        _ => {
            reveal_strlit("open");
            reveal_strlit("resolved");
            assert("open"@.len() != "resolved"@.len());
            assert(after.conflicts.len() == l.conflicts.len());
            assert forall|i: int| 0 <= i < l.conflicts.len() implies {
                &&& (#[trigger] after.conflicts[i]).old_fact_id == l.conflicts[i].old_fact_id
                &&& after.conflicts[i].new_fact_id == l.conflicts[i].new_fact_id
                &&& after.conflicts[i].status == "open"@ ==> l.conflicts[i].status == "open"@
            } by {}
        },
    }
}

} // verus!
