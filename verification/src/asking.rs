//! What placing a fact asks of a person, and why; and what it writes.

use crate::confidence::Confidence;
use crate::engine::{
    closed_by, open_rival, row_with_id, simultaneous_rival, undated_rival, Desk, MAX_TIDY_ROUNDS,
};
use crate::handover::{lemma_due, lemma_raise, with_person};
use crate::identity::{lemma_apart, lemma_close_at, lemma_filter_contains, lemma_timeline};
use crate::laws::{
    law_what_has_no_time_ends_where_a_fact_starts, law_what_starts_together_is_left_to_a_person,
    law_without_a_time_nothing_is_closed, row_on, supply,
};
use crate::ledger::{ConflictModel, FactModel, LedgerModel};
use crate::order::lemma_first;
use crate::placing::{closed_at, lemma_filter_apart, lemma_timeline_apart};
use crate::reading::is_on;
use crate::reverting::{ends_on, lemma_starts_on, starts_on};
use crate::rewrite::{alive_with_id, raised};
use crate::timeline::{change_due, dated_at, says_same, timeline, RowModel, Scope, Uniqueness};
use crate::validity::{truncated_to, ValidityModel};
use crate::walk::{any_row, enough, enough_for, is_kept, lemma_enough_more, lemma_open, lemma_place};
use vstd::prelude::*;

verus! {

/// A confidence is low if it is a number below 0.75, in the bits of a single precision number: any
/// negative one, and any positive one of fewer bits. What is not a number is not low.
pub proof fn law_a_confidence_is_low_below_three_quarters(c: Confidence)
    ensures
        c.bits < 0x3f40_0000 ==> c.is_low(),
        0x3f40_0000 <= c.bits < 0x8000_0000 ==> !c.is_low(),
        0x8000_0000 <= c.bits <= 0xff80_0000 ==> c.is_low(),
        0xff80_0000 < c.bits ==> !c.is_low(),
{
}

/// A row is closed where the next one starts, as precise as that start is known, and to the day
/// where it is not known. Where the next one has no start, it has ended on an unknown day, attested
/// by the date of the next one, or now.
pub proof fn law_a_row_is_closed_where_the_next_one_starts(
    f: FactModel,
    id: u128,
    next: RowModel,
    now: i64,
)
    ensures
        ({
            let g = closed_by(f, id, next, now);
            &&& g.id == id
            &&& g.kb_id == f.kb_id
            &&& g.subject_id == f.subject_id
            &&& g.predicate_id == f.predicate_id
            &&& g.object_id == f.object_id
            &&& g.object_value == f.object_value
            &&& g.valid_from == f.valid_from
            &&& g.valid_from_precision == f.valid_from_precision
            &&& g.confidence == f.confidence
            &&& g.attested_from == f.attested_from
            &&& g.supersedes == Some(f.id)
            &&& g.recorded_at == now
            &&& g.invalidated_at is None
            &&& next.valid_from is Some && next.valid_from_precision is Some ==> {
                &&& g.valid_to == Some(
                    truncated_to(next.valid_from->0, next.valid_from_precision),
                )
                &&& g.valid_to_precision == next.valid_from_precision
                &&& g.attested_to is None
            }
            &&& next.valid_from is Some && next.valid_from_precision is None ==> {
                &&& g.valid_to == Some(truncated_to(next.valid_from->0, Some("day"@)))
                &&& g.valid_to_precision == Some("day"@)
                &&& g.attested_to is None
            }
            &&& next.valid_from is None ==> {
                &&& g.valid_to is None
                &&& g.valid_to_precision == Some("unknown"@)
                &&& next.dated_at is Some ==> g.attested_to == next.dated_at
                &&& next.dated_at is None ==> g.attested_to == Some(now)
            }
        }),
{
}

/// The fact `i` can be placed in time.
pub open spec fn has_time(l: LedgerModel, i: int) -> bool {
    exists|t: i64| #[trigger] starts_on(l, i, t)
}

/// The fact `i` has no end, neither a known nor an unknown one.
pub open spec fn has_no_end(l: LedgerModel, i: int) -> bool {
    l.facts[i].valid_to is None && l.facts[i].valid_to_precision is None
}

pub proof fn lemma_has_time(l: LedgerModel, i: int)
    requires
        0 <= i < l.facts.len(),
    ensures
        has_time(l, i) <==> l.row(i).key() is Some,
{
    if l.row(i).key() is Some {
        lemma_starts_on(l, i, l.row(i).key()->0);
    }
    if has_time(l, i) {
        let t = choose|t: i64| #[trigger] starts_on(l, i, t);
        lemma_starts_on(l, i, t);
    }
}

/// The row of a fact on its timeline is the one that its identifier finds.
pub proof fn lemma_row_on(l: LedgerModel, scope: Scope, i: int)
    requires
        l.distinct(),
        is_on(l, scope, i),
    ensures
        row_on(l, scope, l.facts[i].id) == Some(l.row(i)),
        timeline(l, scope).contains(l.row(i)),
{
    let rows = timeline(l, scope);
    let id = l.facts[i].id;
    assert(l.stands(scope, i));
    lemma_timeline(l, scope);
    assert(rows.contains(l.row(i)));
    lemma_first(rows, row_with_id(id));
    let k = choose|k: int| 0 <= k < rows.len() && rows[k] == l.row(i);
    assert(row_with_id(id)(rows[k]));
    crate::handover::lemma_rows_identified(l, scope);
}

/// A fact that cannot be placed in time asks of every other present value that is open: whatever is
/// on the same timeline, has no end and says something else is with a person together with it. No
/// fact is changed, and nothing is corrected.
pub proof fn law_without_a_time_all_that_is_open_is_asked_of(
    d: Desk,
    scope: Scope,
    i: int,
    j: int,
)
    requires
        d.supplied(supply(timeline(d.ledger, scope))),
        is_on(d.ledger, scope, i),
        !has_time(d.ledger, i),
        is_on(d.ledger, scope, j),
        i != j,
        has_no_end(d.ledger, j),
        !says_same(scope.side, d.ledger.row(j), d.ledger.row(i)),
    ensures
        ({
            let end = d.place(scope, d.ledger.facts[i].id);
            &&& with_person(end.ledger, d.ledger.facts[j].id, d.ledger.facts[i].id)
            &&& end.ledger.facts == d.ledger.facts
            &&& end.report.corrected == d.report.corrected
        }),
{
    let l = d.ledger;
    lemma_row_on(l, scope, i);
    lemma_row_on(l, scope, j);
    lemma_has_time(l, i);
    lemma_apart(l, i, j);
    assert(open_rival(scope.side, l.row(i))(l.row(j)));
    law_without_a_time_nothing_is_closed(d, scope, l.facts[i].id);
    let picked = timeline(l, scope).filter(open_rival(scope.side, l.row(i)));
    lemma_raise_all_corrects_nothing(d, scope.kb_id, picked, l.facts[i].id, "no_time"@);
}

proof fn lemma_raise_all_corrects_nothing(
    d: Desk,
    kb_id: u128,
    rows: Seq<RowModel>,
    new_id: u128,
    reason: Seq<char>,
)
    ensures
        d.raise_all(kb_id, rows, new_id, reason).report.corrected == d.report.corrected,
    decreases rows.len(),
{
    if rows.len() > 0 {
        lemma_raise_all_corrects_nothing(d, kb_id, rows.drop_last(), new_id, reason);
    }
}

/// What starts together with a fact and held for some time is with a person together with it, if it
/// says something else: it has no end, or ends later.
pub proof fn law_what_starts_together_is_asked_of(
    d: Desk,
    scope: Scope,
    i: int,
    j: int,
    t: i64,
)
    requires
        d.supplied(supply(timeline(d.ledger, scope))),
        is_on(d.ledger, scope, i),
        starts_on(d.ledger, i, t),
        is_on(d.ledger, scope, j),
        starts_on(d.ledger, j, t),
        i != j,
        has_no_end(d.ledger, j) || exists|e: i64| #[trigger]
            ends_on(d.ledger.facts[j], e) && e > t,
        !says_same(scope.side, d.ledger.row(j), d.ledger.row(i)),
    ensures
        with_person(
            d.place(scope, d.ledger.facts[i].id).ledger,
            d.ledger.facts[j].id,
            d.ledger.facts[i].id,
        ),
{
    let l = d.ledger;
    lemma_row_on(l, scope, i);
    lemma_row_on(l, scope, j);
    lemma_starts_on(l, i, t);
    lemma_starts_on(l, j, t);
    lemma_apart(l, i, j);
    if !has_no_end(l, j) {
        let e = choose|e: i64| #[trigger] ends_on(l.facts[j], e) && e > t;
        assert(l.row(j).end() == Some(e));
    }
    assert(simultaneous_rival(scope.side, l.row(i))(l.row(j)));
    law_what_starts_together_is_left_to_a_person(d, scope, l.facts[i].id, l.row(j));
}

/// What has no end and cannot be placed in time, and says something else, is closed where a fact
/// starts that is placed; or is with a person together with it, where the confidence in that is
/// low.
pub proof fn law_what_has_no_time_gives_way(d: Desk, scope: Scope, i: int, j: int)
    requires
        d.supplied(supply(timeline(d.ledger, scope))),
        is_on(d.ledger, scope, i),
        has_time(d.ledger, i),
        is_on(d.ledger, scope, j),
        i != j,
        has_no_end(d.ledger, j),
        !has_time(d.ledger, j),
        !says_same(scope.side, d.ledger.row(j), d.ledger.row(i)),
    ensures
        ({
            let end = d.place(scope, d.ledger.facts[i].id).ledger;
            if d.ledger.facts[i].confidence.is_low() {
                with_person(end, d.ledger.facts[j].id, d.ledger.facts[i].id)
            } else {
                closed_at(timeline(end, scope), d.ledger.row(j), d.ledger.row(i))
            }
        }),
{
    let l = d.ledger;
    lemma_row_on(l, scope, i);
    lemma_row_on(l, scope, j);
    lemma_has_time(l, i);
    lemma_has_time(l, j);
    lemma_apart(l, i, j);
    assert(undated_rival(scope.side, l.row(i))(l.row(j)));
    law_what_has_no_time_ends_where_a_fact_starts(d, scope, l.facts[i].id, l.row(j));
}

/// A fact with that identifier in which the confidence is low.
pub open spec fn is_unsure_fact(l: LedgerModel, id: u128) -> bool {
    exists|m: int|
        0 <= m < l.facts.len() && (#[trigger] l.facts[m]).id == id && l.facts[m].confidence.is_low()
}

/// Why a conflict was raised when the fact `i` was placed: it cannot be placed in time; or it starts
/// together with the other, which says something else; or the confidence in the later of the two is
/// low.
pub open spec fn is_asked_for(
    before: LedgerModel,
    scope: Scope,
    i: int,
    l: LedgerModel,
    c: ConflictModel,
    now: i64,
) -> bool {
    &&& c.kb_id == scope.kb_id
    &&& c.status == "open"@
    &&& c.resolution is None
    &&& c.resolved_at is None
    &&& c.created_at == now
    &&& {
        ||| c.reason == "no_time"@ && c.new_fact_id == before.facts[i].id && !has_time(before, i)
            && is_value_beside(before, scope, i, c.old_fact_id, false)
        ||| c.reason == "simultaneous"@ && c.new_fact_id == before.facts[i].id && has_time(
            before,
            i,
        ) && is_value_beside(before, scope, i, c.old_fact_id, true)
        ||| c.reason == "low_confidence"@ && is_unsure_fact(l, c.new_fact_id)
    }
}

/// Another fact of the timeline has that identifier, and says something else than the fact `i`; and
/// it starts together with it, or has no end.
pub open spec fn is_value_beside(
    l: LedgerModel,
    scope: Scope,
    i: int,
    id: u128,
    together: bool,
) -> bool {
    exists|j: int| #[trigger]
        is_on(l, scope, j) && j != i && l.facts[j].id == id && !says_same(
            scope.side,
            l.row(j),
            l.row(i),
        ) && if together {
            exists|t: i64| #[trigger] starts_on(l, i, t) && starts_on(l, j, t)
        } else {
            has_no_end(l, j)
        }
}

/// All conflicts behind the first `n` have their reason.
spec fn all_asked_for(
    before: LedgerModel,
    scope: Scope,
    i: int,
    d: Desk,
    n: int,
) -> bool {
    &&& 0 <= n <= d.ledger.conflicts.len()
    &&& forall|k: int|
        n <= k < d.ledger.conflicts.len() ==> is_asked_for(
            before,
            scope,
            i,
            d.ledger,
            #[trigger] d.ledger.conflicts[k],
            d.now,
        )
}

/// What was asked keeps its reason while facts are only added or struck out.
proof fn lemma_reason_kept(
    before: LedgerModel,
    scope: Scope,
    i: int,
    l: LedgerModel,
    after: LedgerModel,
    c: ConflictModel,
    now: i64,
)
    requires
        is_asked_for(before, scope, i, l, c, now),
        l.facts.len() <= after.facts.len(),
        forall|j: int|
            0 <= j < l.facts.len() ==> (#[trigger] after.facts[j]).id == l.facts[j].id
                && after.facts[j].confidence == l.facts[j].confidence,
    ensures
        is_asked_for(before, scope, i, after, c, now),
{
    if is_unsure_fact(l, c.new_fact_id) {
        let m = choose|m: int|
            0 <= m < l.facts.len() && (#[trigger] l.facts[m]).id == c.new_fact_id
                && l.facts[m].confidence.is_low();
        assert(after.facts[m].id == c.new_fact_id);
    }
}

proof fn lemma_raise_reason(
    before: LedgerModel,
    scope: Scope,
    i: int,
    d: Desk,
    n: int,
    a: u128,
    b: u128,
    reason: Seq<char>,
)
    requires
        all_asked_for(before, scope, i, d, n),
        d.supplied(1),
        is_asked_for(
            before,
            scope,
            i,
            d.ledger,
            raised(d.ids[0], scope.kb_id, a, b, reason, d.now),
            d.now,
        ),
    ensures
        all_asked_for(before, scope, i, d.raise(scope.kb_id, a, b, reason), n),
        d.raise(scope.kb_id, a, b, reason).ledger.facts == d.ledger.facts,
        d.raise(scope.kb_id, a, b, reason).supplied(d.ids.len() - 1),
        d.raise(scope.kb_id, a, b, reason).now == d.now,
{
    let after = d.raise(scope.kb_id, a, b, reason);
    let c = raised(d.ids[0], scope.kb_id, a, b, reason, d.now);
    lemma_raise(d, scope, scope.kb_id, a, b, reason);
    assert forall|k: int| n <= k < after.ledger.conflicts.len() implies is_asked_for(
        before,
        scope,
        i,
        after.ledger,
        #[trigger] after.ledger.conflicts[k],
        after.now,
    ) by {
        if k < d.ledger.conflicts.len() {
            assert(after.ledger.conflicts[k] == d.ledger.conflicts[k]);
            lemma_reason_kept(
                before,
                scope,
                i,
                d.ledger,
                after.ledger,
                d.ledger.conflicts[k],
                d.now,
            );
        } else {
            assert(after.ledger.conflicts[k] == c);
            lemma_reason_kept(before, scope, i, d.ledger, after.ledger, c, d.now);
        }
    }
}

proof fn lemma_raise_all_reason(
    before: LedgerModel,
    scope: Scope,
    i: int,
    d: Desk,
    n: int,
    rows: Seq<RowModel>,
    b: u128,
    reason: Seq<char>,
)
    requires
        all_asked_for(before, scope, i, d, n),
        d.supplied(rows.len() as int),
        forall|k: int, id: u128|
            0 <= k < rows.len() ==> is_asked_for(
                before,
                scope,
                i,
                d.ledger,
                #[trigger] raised(id, scope.kb_id, (#[trigger] rows[k]).id, b, reason, d.now),
                d.now,
            ),
    ensures
        all_asked_for(before, scope, i, d.raise_all(scope.kb_id, rows, b, reason), n),
        d.raise_all(scope.kb_id, rows, b, reason).ledger.facts == d.ledger.facts,
        d.raise_all(scope.kb_id, rows, b, reason).supplied(d.ids.len() - rows.len()),
        d.raise_all(scope.kb_id, rows, b, reason).now == d.now,
    decreases rows.len(),
{
    if rows.len() > 0 {
        let head = rows.drop_last();
        assert forall|k: int, id: u128| 0 <= k < head.len() implies is_asked_for(
            before,
            scope,
            i,
            d.ledger,
            #[trigger] raised(id, scope.kb_id, (#[trigger] head[k]).id, b, reason, d.now),
            d.now,
        ) by {
            assert(head[k] == rows[k]);
            assert(is_asked_for(
                before,
                scope,
                i,
                d.ledger,
                raised(id, scope.kb_id, rows[k].id, b, reason, d.now),
                d.now,
            ));
        }
        lemma_raise_all_reason(before, scope, i, d, n, head, b, reason);
        let mid = d.raise_all(scope.kb_id, head, b, reason);
        let x = rows[rows.len() - 1].id;
        let c = raised(mid.ids[0], scope.kb_id, x, b, reason, d.now);
        assert(is_asked_for(before, scope, i, d.ledger, c, d.now));
        lemma_reason_kept(before, scope, i, d.ledger, mid.ledger, c, d.now);
        lemma_raise_reason(before, scope, i, mid, n, x, b, reason);
    }
}

proof fn lemma_close_reason(
    before: LedgerModel,
    scope: Scope,
    i: int,
    d: Desk,
    n: int,
    row: RowModel,
    next: RowModel,
)
    requires
        all_asked_for(before, scope, i, d, n),
        d.supplied(1),
    ensures
        all_asked_for(before, scope, i, d.close_at(row, next), n),
        d.close_at(row, next).supplied(d.ids.len() - 1),
        d.close_at(row, next).now == d.now,
        d.ledger.facts.len() <= d.close_at(row, next).ledger.facts.len(),
        forall|j: int|
            0 <= j < d.ledger.facts.len() ==> (#[trigger] d.close_at(
                row,
                next,
            ).ledger.facts[j]).id == d.ledger.facts[j].id && d.close_at(
                row,
                next,
            ).ledger.facts[j].confidence == d.ledger.facts[j].confidence,
{
    let l = d.ledger;
    let after = d.close_at(row, next);
    lemma_first(l.facts, alive_with_id(row.id));
    if let Some(f) = l.alive(row.id) {
        let m = choose|m: int| 0 <= m < l.facts.len() && l.facts[m] == f;
        lemma_close_at(d, scope, m, next);
        assert(after == d.close_at(l.row(m), next));
        assert forall|j: int| 0 <= j < l.facts.len() implies (#[trigger] after.ledger.facts[j]).id
            == l.facts[j].id && after.ledger.facts[j].confidence == l.facts[j].confidence by {
            if j != m {
                assert(after.ledger.facts[j] == l.facts[j]);
            }
        }
        assert forall|k: int| n <= k < after.ledger.conflicts.len() implies is_asked_for(
            before,
            scope,
            i,
            after.ledger,
            #[trigger] after.ledger.conflicts[k],
            after.now,
        ) by {
            assert(after.ledger.conflicts[k] == l.conflicts[k]);
            lemma_reason_kept(before, scope, i, l, after.ledger, l.conflicts[k], d.now);
        }
    }
}

proof fn lemma_close_all_reason(
    before: LedgerModel,
    scope: Scope,
    i: int,
    d: Desk,
    n: int,
    rows: Seq<RowModel>,
    new: RowModel,
)
    requires
        all_asked_for(before, scope, i, d, n),
        d.supplied(rows.len() as int),
        new.confidence.is_low() ==> is_unsure_fact(d.ledger, new.id),
    ensures
        all_asked_for(before, scope, i, d.close_all(scope.kb_id, rows, new), n),
        d.close_all(scope.kb_id, rows, new).supplied(d.ids.len() - rows.len()),
        d.close_all(scope.kb_id, rows, new).now == d.now,
        new.confidence.is_low() ==> is_unsure_fact(
            d.close_all(scope.kb_id, rows, new).ledger,
            new.id,
        ),
    decreases rows.len(),
{
    if rows.len() > 0 {
        let head = rows.drop_last();
        lemma_close_all_reason(before, scope, i, d, n, head, new);
        let mid = d.close_all(scope.kb_id, head, new);
        if new.confidence.is_low() {
            lemma_raise_reason(
                before,
                scope,
                i,
                mid,
                n,
                rows.last().id,
                new.id,
                "low_confidence"@,
            );
        } else {
            lemma_close_reason(before, scope, i, mid, n, rows.last(), new);
        }
    }
}

proof fn lemma_tidy_reason(
    before: LedgerModel,
    scope: Scope,
    i: int,
    d: Desk,
    n: int,
    held: Seq<(u128, u128)>,
    rounds: nat,
)
    requires
        all_asked_for(before, scope, i, d, n),
        d.supplied(rounds as int),
    ensures
        all_asked_for(before, scope, i, d.tidy_rounds(scope, held, rounds), n),
        d.tidy_rounds(scope, held, rounds).now == d.now,
    decreases rounds,
{
    let rows = timeline(d.ledger, scope);
    if rounds > 0 && change_due(scope.side, rows, held) is Some {
        let (row, next) = change_due(scope.side, rows, held)->0;
        lemma_due(scope.side, rows, held);
        lemma_timeline(d.ledger, scope);
        let m = choose|m: int| #[trigger] d.ledger.stands(scope, m) && d.ledger.row(m) == next;
        if next.confidence.is_low() {
            assert(d.ledger.facts[m].id == next.id);
            lemma_raise_reason(before, scope, i, d, n, row.id, next.id, "low_confidence"@);
            lemma_tidy_reason(
                before,
                scope,
                i,
                d.raise(scope.kb_id, row.id, next.id, "low_confidence"@),
                n,
                held.push((row.id, next.id)),
                (rounds - 1) as nat,
            );
        } else {
            lemma_close_reason(before, scope, i, d, n, row, next);
            lemma_tidy_reason(
                before,
                scope,
                i,
                d.close_at(row, next),
                n,
                held,
                (rounds - 1) as nat,
            );
        }
    }
}

/// Nothing is asked without a reason: each conflict that placing a fact raises is open, of the
/// knowledge base and of now, and says why. Either the fact cannot be placed in time, and the other
/// one is open; or the two start together; and in both cases they say different things. Or the
/// confidence in the later fact is low.
pub proof fn law_each_question_has_its_reason(d: Desk, scope: Scope, i: int, k: int)
    requires
        d.supplied(supply(timeline(d.ledger, scope))),
        is_on(d.ledger, scope, i),
        d.ledger.conflicts.len() <= k < d.place(
            scope,
            d.ledger.facts[i].id,
        ).ledger.conflicts.len(),
    ensures
        ({
            let end = d.place(scope, d.ledger.facts[i].id).ledger;
            is_asked_for(d.ledger, scope, i, end, end.conflicts[k], d.now)
        }),
{
    let l = d.ledger;
    let n = l.conflicts.len() as int;
    let rows = timeline(l, scope);
    let new = l.row(i);
    lemma_row_on(l, scope, i);
    lemma_has_time(l, i);
    lemma_timeline_apart(l, scope);
    let id = l.facts[i].id;
    if new.key() is None {
        let p = open_rival(scope.side, new);
        let picked = rows.filter(p);
        lemma_filter_apart(rows, p);
        assert forall|m: int, c: u128| 0 <= m < picked.len() implies is_asked_for(
            l,
            scope,
            i,
            l,
            #[trigger] raised(c, scope.kb_id, (#[trigger] picked[m]).id, id, "no_time"@, d.now),
            d.now,
        ) by {
            assert(picked.contains(picked[m]));
            lemma_filter_contains(rows, p, picked[m]);
            lemma_timeline(l, scope);
            let j = choose|j: int| #[trigger] l.stands(scope, j) && l.row(j) == picked[m];
            assert(is_on(l, scope, j));
        }
        lemma_raise_all_reason(l, scope, i, d, n, picked, id, "no_time"@);
    } else {
        let p = simultaneous_rival(scope.side, new);
        let together = rows.filter(p);
        let undated = rows.filter(undated_rival(scope.side, new));
        lemma_filter_apart(rows, p);
        lemma_filter_apart(rows, undated_rival(scope.side, new));
        let t = new.key()->0;
        lemma_starts_on(l, i, t);
        assert forall|m: int, c: u128| 0 <= m < together.len() implies is_asked_for(
            l,
            scope,
            i,
            l,
            #[trigger] raised(
                c,
                scope.kb_id,
                (#[trigger] together[m]).id,
                id,
                "simultaneous"@,
                d.now,
            ),
            d.now,
        ) by {
            assert(together.contains(together[m]));
            lemma_filter_contains(rows, p, together[m]);
            lemma_timeline(l, scope);
            let j = choose|j: int| #[trigger] l.stands(scope, j) && l.row(j) == together[m];
            assert(is_on(l, scope, j));
            lemma_starts_on(l, j, t);
        }
        lemma_raise_all_reason(l, scope, i, d, n, together, id, "simultaneous"@);
        let d1 = d.raise_all(scope.kb_id, together, id, "simultaneous"@);
        if new.confidence.is_low() {
            assert(d1.ledger.facts[i].id == new.id);
        }
        lemma_close_all_reason(l, scope, i, d1, n, undated, new);
        let d2 = d1.close_all(scope.kb_id, undated, new);
        lemma_tidy_reason(l, scope, i, d2, n, Seq::empty(), MAX_TIDY_ROUNDS as nat);
    }
}

/// The report names what was written since `d`: the identifiers of the facts behind those that were
/// there, in their order.
pub open spec fn names_what_was_written(d: Desk, end: Desk) -> bool {
    let n = d.ledger.facts.len() as int;
    let c = d.report.corrected.len() as int;
    &&& n <= end.ledger.facts.len()
    &&& end.report.corrected.len() == c + end.ledger.facts.len() - n
    &&& forall|k: int| 0 <= k < c ==> #[trigger] end.report.corrected[k] == d.report.corrected[k]
    &&& forall|k: int|
        c <= k < end.report.corrected.len() ==> #[trigger] end.report.corrected[k]
            == end.ledger.facts[n + k - c].id
}

spec fn is_named_so_far(d: Desk, total: int) -> spec_fn(Desk, int) -> bool {
    |e: Desk, n: int|
        names_what_was_written(d, e) && 0 <= n && e.ledger.facts.len() + n <= total
}

proof fn lemma_named_so_far(d: Desk, total: int)
    ensures
        is_kept(is_named_so_far(d, total), any_row(), total),
{
    let p = is_named_so_far(d, total);
    assert forall|e: Desk, n: int, row: RowModel, next: RowModel|
        #![trigger p(e, n), e.close_at(row, next)]
        p(e, n) && n > 0 implies p(e.close_at(row, next), n - 1) by {
        let after = e.close_at(row, next);
        if let Some(f) = e.ledger.alive(row.id) {
            let g = closed_by(f, e.ids[0], next, e.now);
            crate::tables::law_rewriting_copies_what_belongs_to_a_fact(
                e.ledger,
                row.id,
                g,
                e.now,
            );
            let m = d.ledger.facts.len() as int;
            let c = d.report.corrected.len() as int;
            assert forall|k: int|
                c <= k < after.report.corrected.len() implies #[trigger] after.report.corrected[k]
                == after.ledger.facts[m + k - c].id by {
                if k < e.report.corrected.len() {
                    assert(after.report.corrected[k] == e.report.corrected[k]);
                    assert(crate::tables::same_but_invalidated(
                        e.ledger.facts[m + k - c],
                        after.ledger.facts[m + k - c],
                    ));
                }
            }
        }
    }
}

/// A report names what was written: placing a fact reports the rows that it wrote, each by its own
/// identifier, in their order, and no others.
pub proof fn law_a_report_names_what_was_written(d: Desk, scope: Scope, fact_id: u128)
    ensures
        names_what_was_written(d, d.place(scope, fact_id)),
{
    let n = enough(d.ledger.facts.len() as int);
    let total = d.ledger.facts.len() + n;
    let p = is_named_so_far(d, total);
    lemma_named_so_far(d, total);
    assert(p(d, n));
    lemma_place(p, any_row(), total, d, n, scope, fact_id);
}

/// So does reconciling facts once more.
pub proof fn law_a_replay_names_what_was_written(
    d: Desk,
    kb_id: u128,
    ids: Seq<u128>,
    order: crate::replay::ReplayOrder,
)
    ensures
        names_what_was_written(d, d.reconcile_open(kb_id, ids, order)),
{
    let facts = d.ledger.facts.len();
    let n = enough_for(facts, facts as int);
    let total = facts + n;
    let p = is_named_so_far(d, total);
    lemma_enough_more(0, facts, facts as int);
    lemma_named_so_far(d, total);
    assert(p(d, n));
    lemma_open(p, any_row(), total, d, n, kb_id, ids, order);
}

/// A fact that has ended is history and rewrites nothing; and on the side of the object a literal
/// is held by none. In all other cases the fact is placed on the timeline of its holder: the
/// subject, or the object.
pub proof fn law_what_has_ended_rewrites_nothing(
    d: Desk,
    kb_id: u128,
    new_fact_id: u128,
    subject_id: u128,
    predicate_id: u128,
    object_id: Option<u128>,
    direction: Uniqueness,
    validity: ValidityModel,
)
    ensures
        ({
            let end = d.reconcile(
                kb_id,
                new_fact_id,
                subject_id,
                predicate_id,
                object_id,
                direction,
                validity,
            );
            let ended = validity.to is Some || validity.to_precision is Some;
            &&& ended ==> end == d
            &&& direction is ObjectSide && object_id is None ==> end == d
            &&& !ended && direction is SubjectSide ==> end == d.place(
                Scope {
                    kb_id,
                    holder: subject_id,
                    predicate_id,
                    side: Uniqueness::SubjectSide,
                },
                new_fact_id,
            )
            &&& !ended && direction is ObjectSide && object_id is Some ==> end == d.place(
                Scope {
                    kb_id,
                    holder: object_id->0,
                    predicate_id,
                    side: Uniqueness::ObjectSide,
                },
                new_fact_id,
            )
        }),
{
}

} // verus!
