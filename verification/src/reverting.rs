//! What is tidied anew when facts have left: each timeline that they were on, on each side on which
//! their relations are unique, and no other.

use crate::asking::{
    has_no_end, has_time, law_a_report_names_what_was_written,
    law_without_a_time_all_that_is_open_is_asked_of, lemma_has_time,
};
use crate::engine::{
    closed_by, open_rival, row_with_id, simultaneous_rival, undated_rival, Desk, MAX_TIDY_ROUNDS,
};
use crate::handover::{
    attended, is_said, lemma_due, lemma_held_attended, lemma_raise, lemma_rewritten_attended,
    lemma_tidy_keeps, says, with_person,
};
use crate::identity::{
    lemma_apart, lemma_close_at, lemma_filter_contains, lemma_found, lemma_timeline,
};
use crate::laws::{law_placing_keeps_what_is_said, law_tidying_stops_at_rest_or_at_its_limit};
use crate::ledger::{ChangeModel, FactModel, LedgerModel, RelationType};
use crate::order::{first, lemma_first};
use crate::placing::{lemma_filter_apart, lemma_said, lemma_timeline_apart, same_said};
use crate::reading::{is_dated, is_on, law_a_fact_is_dated_by_its_documents};
use crate::replay::{
    abandoned, has_original, law_reopening_brings_back_what_was_closed, moment_of, moments,
    placed_among, second, to_reopen, touched_by,
};
use crate::replaying::{lemma_stays_asked, stays_asked};
use crate::rewrite::{alive_with_id, with_id};
use crate::tables::{
    law_invalidating_strikes_one_fact, law_restoring_brings_back_one_fact, same_but_invalidated,
};
use crate::timeline::{change_due, dated_at, says_same, timeline, RowModel, Scope, Uniqueness};
use crate::walk::{
    any_row, enough, is_kept, lemma_filter_len, lemma_place, lemma_tidy, lemma_timeline_len,
};
use vstd::prelude::*;

verus! {

/// A fact is of a timeline, present or not.
pub open spec fn belongs(scope: Scope, f: FactModel) -> bool {
    &&& f.kb_id == scope.kb_id
    &&& f.predicate_id == Some(scope.predicate_id)
    &&& scope.side is SubjectSide ==> f.subject_id == scope.holder
    &&& scope.side is ObjectSide ==> f.object_id == Some(scope.holder)
}

/// A fact and the one that it supersedes are of the same knowledge base, subject, relation and
/// object.
pub open spec fn holds_together(l: LedgerModel) -> bool {
    forall|i: int, j: int|
        0 <= i < l.facts.len() && 0 <= j < l.facts.len() && (#[trigger] l.facts[i]).supersedes
            == Some((#[trigger] l.facts[j]).id) ==> {
            &&& l.facts[j].kb_id == l.facts[i].kb_id
            &&& l.facts[j].subject_id == l.facts[i].subject_id
            &&& l.facts[j].predicate_id == l.facts[i].predicate_id
            &&& l.facts[j].object_id == l.facts[i].object_id
        }
}

/// No fact is of the entity on both sides.
pub open spec fn one_sided(l: LedgerModel, holder: u128) -> bool {
    forall|i: int|
        0 <= i < l.facts.len() ==> !((#[trigger] l.facts[i]).subject_id == holder
            && l.facts[i].object_id == Some(holder))
}

/// No fact supersedes one that has an identifier yet to be drawn.
pub open spec fn none_awaited(d: Desk) -> bool {
    forall|i: int, k: int|
        0 <= i < d.ledger.facts.len() && 0 <= k < d.ids.len() ==> (
        #[trigger] d.ledger.facts[i]).supersedes != Some(#[trigger] d.ids[k])
}

/// A timeline is as it was: its facts are the same, and there are no more.
pub open spec fn untouched(before: LedgerModel, l: LedgerModel, scope: Scope) -> bool {
    &&& before.facts.len() <= l.facts.len()
    &&& forall|i: int|
        0 <= i < before.facts.len() ==> same_but_invalidated(
            before.facts[i],
            #[trigger] l.facts[i],
        )
    &&& forall|i: int|
        0 <= i < before.facts.len() && belongs(scope, before.facts[i]) ==> (
        #[trigger] l.facts[i]).invalidated_at == before.facts[i].invalidated_at
    &&& forall|i: int|
        before.facts.len() <= i < l.facts.len() ==> !belongs(scope, #[trigger] l.facts[i])
    &&& forall|i: int|
        0 <= i < before.facts.len() ==> (#[trigger] l.row(i)).dated_at == before.row(i).dated_at
    &&& l.relations == before.relations
}

/// What is kept while other timelines are worked on, with so many identifiers to be drawn.
pub open spec fn is_aside(
    before: LedgerModel,
    scope: Scope,
    total: int,
    d: Desk,
    n: int,
) -> bool {
    &&& untouched(before, d.ledger, scope)
    &&& holds_together(d.ledger)
    &&& one_sided(d.ledger, scope.holder)
    &&& none_awaited(d)
    &&& 0 <= n
    &&& d.supplied(n)
    &&& d.ledger.facts.len() + n <= total
}

/// Some fact has that identifier, and it is of the timeline.
pub open spec fn is_own(l: LedgerModel, scope: Scope, id: u128) -> bool {
    exists|i: int|
        0 <= i < l.facts.len() && (#[trigger] l.facts[i]).id == id && belongs(scope, l.facts[i])
}

/// Two timelines of one holder.
pub open spec fn are_other(a: Scope, b: Scope) -> bool {
    &&& a.kb_id == b.kb_id
    &&& a.holder == b.holder
    &&& a.predicate_id != b.predicate_id || a.side != b.side
}

proof fn lemma_own_row(l: LedgerModel, scope: Scope, r: RowModel)
    requires
        timeline(l, scope).contains(r),
    ensures
        is_own(l, scope, r.id),
{
    lemma_timeline(l, scope);
    let i = choose|i: int| #[trigger] l.stands(scope, i) && l.row(i) == r;
    assert(l.facts[i].id == r.id && belongs(scope, l.facts[i]));
}

/// What is of one timeline stays so.
pub open spec fn keeps_own(l: LedgerModel, after: LedgerModel) -> bool {
    &&& l.facts.len() <= after.facts.len()
    &&& forall|i: int|
        0 <= i < l.facts.len() ==> same_but_invalidated(l.facts[i], #[trigger] after.facts[i])
}

proof fn lemma_keeps_own(l: LedgerModel, after: LedgerModel, scope: Scope, id: u128)
    requires
        keeps_own(l, after),
        is_own(l, scope, id),
    ensures
        is_own(after, scope, id),
{
    let i = choose|i: int|
        0 <= i < l.facts.len() && (#[trigger] l.facts[i]).id == id && belongs(scope, l.facts[i]);
    assert(after.facts[i].id == id && belongs(scope, after.facts[i]));
}

/// Raising a conflict touches no timeline.
proof fn lemma_raise_aside(
    before: LedgerModel,
    scope: Scope,
    total: int,
    d: Desk,
    n: int,
    kb_id: u128,
    a: u128,
    b: u128,
    reason: Seq<char>,
)
    requires
        is_aside(before, scope, total, d, n),
        n > 0,
    ensures
        is_aside(before, scope, total, d.raise(kb_id, a, b, reason), n - 1),
        keeps_own(d.ledger, d.raise(kb_id, a, b, reason).ledger),
{
    let after = d.raise(kb_id, a, b, reason);
    lemma_raise(d, scope, kb_id, a, b, reason);
    assert forall|i: int, k: int|
        0 <= i < after.ledger.facts.len() && 0 <= k < after.ids.len() implies (
    #[trigger] after.ledger.facts[i]).supersedes != Some(#[trigger] after.ids[k]) by {
        if after.ids != d.ids {
            assert(after.ids[k] == d.ids[k + 1]);
        }
    }
    assert forall|i: int| 0 <= i < before.facts.len() implies (
    #[trigger] after.ledger.row(i)).dated_at == before.row(i).dated_at by {
        assert(d.ledger.row(i).dated_at == before.row(i).dated_at);
    }
}

/// Closing a row of another timeline touches this one not.
proof fn lemma_close_aside(
    before: LedgerModel,
    scope: Scope,
    total: int,
    d: Desk,
    n: int,
    other: Scope,
    row: RowModel,
    next: RowModel,
)
    requires
        is_aside(before, scope, total, d, n),
        n > 0,
        are_other(scope, other),
        is_own(d.ledger, other, row.id),
    ensures
        is_aside(before, scope, total, d.close_at(row, next), n - 1),
        keeps_own(d.ledger, d.close_at(row, next).ledger),
{
    let l = d.ledger;
    let after = d.close_at(row, next);
    lemma_first(l.facts, alive_with_id(row.id));
    if l.alive(row.id) is Some {
        let f = l.alive(row.id)->0;
        let i = choose|i: int| 0 <= i < l.facts.len() && l.facts[i] == f;
        let o = choose|o: int|
            0 <= o < l.facts.len() && (#[trigger] l.facts[o]).id == row.id && belongs(
                other,
                l.facts[o],
            );
        if i != o {
            lemma_apart(l, i, o);
        }
        let m = l.facts.len() as int;
        lemma_close_at(d, other, i, next);
        assert(after == d.close_at(l.row(i), next));
        let l1 = after.ledger;
        let g = closed_by(f, d.ids[0], next, d.now);
        assert(l1.facts[m] == g);
        assert(!belongs(scope, l.facts[i]));
        assert(!belongs(scope, g));
        assert forall|j: int| 0 <= j < m implies same_but_invalidated(
            l.facts[j],
            #[trigger] l1.facts[j],
        ) by {
            if j != i {
                assert(l1.facts[j] == l.facts[j]);
            }
        }
        assert forall|j: int| 0 <= j < before.facts.len() implies same_but_invalidated(
            before.facts[j],
            #[trigger] l1.facts[j],
        ) by {
            assert(same_but_invalidated(before.facts[j], l.facts[j]));
            assert(same_but_invalidated(l.facts[j], l1.facts[j]));
        }
        assert forall|j: int|
            0 <= j < before.facts.len() && belongs(scope, before.facts[j]) implies (
        #[trigger] l1.facts[j]).invalidated_at == before.facts[j].invalidated_at by {
            assert(same_but_invalidated(before.facts[j], l.facts[j]));
            assert(j != i);
            assert(l1.facts[j] == l.facts[j]);
        }
        assert forall|j: int| before.facts.len() <= j < l1.facts.len() implies !belongs(
            scope,
            #[trigger] l1.facts[j],
        ) by {
            if j < m {
                assert(same_but_invalidated(l.facts[j], l1.facts[j]));
                assert(!belongs(scope, l.facts[j]));
            }
        }
        assert forall|j: int| 0 <= j < before.facts.len() implies (#[trigger] l1.row(j)).dated_at
            == before.row(j).dated_at by {
            assert(l.row(j).dated_at == before.row(j).dated_at);
            if j != i {
                assert(l1.row(j) == l.row(j));
            } else {
                assert(l.unused(d.ids[0]));
                crate::identity::lemma_dates_carry_over(
                    l.evidence,
                    l.documents,
                    f.id,
                    d.ids[0],
                    f.id,
                );
            }
        }
        assert forall|a: int, b: int|
            0 <= a < l1.facts.len() && 0 <= b < l1.facts.len() && (
            #[trigger] l1.facts[a]).supersedes == Some((#[trigger] l1.facts[b]).id) implies {
            &&& l1.facts[b].kb_id == l1.facts[a].kb_id
            &&& l1.facts[b].subject_id == l1.facts[a].subject_id
            &&& l1.facts[b].predicate_id == l1.facts[a].predicate_id
            &&& l1.facts[b].object_id == l1.facts[a].object_id
        } by {
            if a < m {
                assert(same_but_invalidated(l.facts[a], l1.facts[a]));
                if b == m {
                    assert(l.facts[a].supersedes != Some(d.ids[0]));
                } else {
                    assert(same_but_invalidated(l.facts[b], l1.facts[b]));
                    assert(l.facts[a].supersedes == Some(l.facts[b].id));
                }
            } else if b < m {
                assert(same_but_invalidated(l.facts[b], l1.facts[b]));
                if b != i {
                    lemma_apart(l, b, i);
                }
            } else {
                assert(l.unused(d.ids[0]));
                assert(l.facts[i].id != d.ids[0]);
            }
        }
        assert forall|j: int| 0 <= j < l1.facts.len() implies !((
        #[trigger] l1.facts[j]).subject_id == scope.holder && l1.facts[j].object_id == Some(
            scope.holder,
        )) by {
            if j < m {
                assert(same_but_invalidated(l.facts[j], l1.facts[j]));
                assert(!(l.facts[j].subject_id == scope.holder && l.facts[j].object_id == Some(
                    scope.holder,
                )));
            } else {
                assert(!(l.facts[i].subject_id == scope.holder && l.facts[i].object_id == Some(
                    scope.holder,
                )));
            }
        }
        assert forall|j: int, k: int|
            0 <= j < l1.facts.len() && 0 <= k < after.ids.len() implies (
        #[trigger] l1.facts[j]).supersedes != Some(#[trigger] after.ids[k]) by {
            assert(after.ids[k] == d.ids[k + 1]);
            if j < m {
                assert(same_but_invalidated(l.facts[j], l1.facts[j]));
                assert(l.facts[j].supersedes != Some(d.ids[k + 1]));
            } else {
                assert(l.unused(d.ids[k + 1]));
                assert(l.facts[i].id != d.ids[k + 1]);
            }
        }
    }
}

proof fn lemma_raise_all_aside(
    before: LedgerModel,
    scope: Scope,
    total: int,
    d: Desk,
    n: int,
    kb_id: u128,
    rows: Seq<RowModel>,
    new_id: u128,
    reason: Seq<char>,
)
    requires
        is_aside(before, scope, total, d, n),
        rows.len() <= n,
    ensures
        is_aside(before, scope, total, d.raise_all(kb_id, rows, new_id, reason), n - rows.len()),
        keeps_own(d.ledger, d.raise_all(kb_id, rows, new_id, reason).ledger),
    decreases rows.len(),
{
    if rows.len() > 0 {
        let head = rows.drop_last();
        lemma_raise_all_aside(before, scope, total, d, n, kb_id, head, new_id, reason);
        let mid = d.raise_all(kb_id, head, new_id, reason);
        lemma_raise_aside(
            before,
            scope,
            total,
            mid,
            n - head.len(),
            kb_id,
            rows.last().id,
            new_id,
            reason,
        );
        lemma_keeps_own_further(
            d.ledger,
            mid.ledger,
            d.raise_all(kb_id, rows, new_id, reason).ledger,
        );
    }
}

proof fn lemma_keeps_own_further(a: LedgerModel, b: LedgerModel, c: LedgerModel)
    requires
        keeps_own(a, b),
        keeps_own(b, c),
    ensures
        keeps_own(a, c),
{
    assert forall|i: int| 0 <= i < a.facts.len() implies same_but_invalidated(
        a.facts[i],
        #[trigger] c.facts[i],
    ) by {
        assert(same_but_invalidated(a.facts[i], b.facts[i]));
    }
}

proof fn lemma_close_all_aside(
    before: LedgerModel,
    scope: Scope,
    total: int,
    d: Desk,
    n: int,
    other: Scope,
    rows: Seq<RowModel>,
    new: RowModel,
)
    requires
        is_aside(before, scope, total, d, n),
        rows.len() <= n,
        are_other(scope, other),
        forall|k: int| 0 <= k < rows.len() ==> is_own(d.ledger, other, (#[trigger] rows[k]).id),
    ensures
        is_aside(before, scope, total, d.close_all(other.kb_id, rows, new), n - rows.len()),
        keeps_own(d.ledger, d.close_all(other.kb_id, rows, new).ledger),
    decreases rows.len(),
{
    if rows.len() > 0 {
        let head = rows.drop_last();
        assert forall|k: int| 0 <= k < head.len() implies is_own(
            d.ledger,
            other,
            (#[trigger] head[k]).id,
        ) by {
            assert(head[k] == rows[k]);
        }
        lemma_close_all_aside(before, scope, total, d, n, other, head, new);
        let mid = d.close_all(other.kb_id, head, new);
        let x = rows.last();
        assert(rows[rows.len() - 1] == x);
        lemma_keeps_own(d.ledger, mid.ledger, other, x.id);
        if new.confidence.is_low() {
            lemma_raise_aside(
                before,
                scope,
                total,
                mid,
                n - head.len(),
                other.kb_id,
                x.id,
                new.id,
                "low_confidence"@,
            );
        } else {
            lemma_close_aside(before, scope, total, mid, n - head.len(), other, x, new);
        }
        lemma_keeps_own_further(
            d.ledger,
            mid.ledger,
            d.close_all(other.kb_id, rows, new).ledger,
        );
    }
}

proof fn lemma_less_aside(
    before: LedgerModel,
    scope: Scope,
    total: int,
    d: Desk,
    n: int,
    m: int,
)
    requires
        is_aside(before, scope, total, d, n),
        0 <= m <= n,
    ensures
        is_aside(before, scope, total, d, m),
{
}

proof fn lemma_tidy_aside(
    before: LedgerModel,
    scope: Scope,
    total: int,
    d: Desk,
    n: int,
    other: Scope,
    held: Seq<(u128, u128)>,
    rounds: nat,
)
    requires
        is_aside(before, scope, total, d, n),
        rounds <= n,
        are_other(scope, other),
    ensures
        is_aside(before, scope, total, d.tidy_rounds(other, held, rounds), n - rounds),
    decreases rounds,
{
    let rows = timeline(d.ledger, other);
    lemma_less_aside(before, scope, total, d, n, n - rounds);
    if rounds > 0 && change_due(other.side, rows, held) is Some {
        let (row, next) = change_due(other.side, rows, held)->0;
        lemma_due(other.side, rows, held);
        lemma_own_row(d.ledger, other, row);
        if next.confidence.is_low() {
            let mid = d.raise(other.kb_id, row.id, next.id, "low_confidence"@);
            lemma_raise_aside(
                before,
                scope,
                total,
                d,
                n,
                other.kb_id,
                row.id,
                next.id,
                "low_confidence"@,
            );
            lemma_tidy_aside(
                before,
                scope,
                total,
                mid,
                n - 1,
                other,
                held.push((row.id, next.id)),
                (rounds - 1) as nat,
            );
        } else {
            let mid = d.close_at(row, next);
            lemma_close_aside(before, scope, total, d, n, other, row, next);
            lemma_tidy_aside(
                before,
                scope,
                total,
                mid,
                n - 1,
                other,
                held,
                (rounds - 1) as nat,
            );
        }
    }
}

proof fn lemma_place_aside(
    before: LedgerModel,
    scope: Scope,
    total: int,
    d: Desk,
    n: int,
    other: Scope,
    fact_id: u128,
)
    requires
        is_aside(before, scope, total, d, n),
        enough(total - n) <= n,
        are_other(scope, other),
    ensures
        is_aside(before, scope, total, d.place(other, fact_id), n - enough(total - n)),
{
    let rows = timeline(d.ledger, other);
    let left = n - enough(total - n);
    lemma_timeline_len(d.ledger, other);
    lemma_less_aside(before, scope, total, d, n, left);
    match first(rows, row_with_id(fact_id)) {
        None => {},
        Some(new) => {
            if new.key() is None {
                let picked = rows.filter(open_rival(other.side, new));
                lemma_filter_len(rows, open_rival(other.side, new));
                lemma_raise_all_aside(
                    before,
                    scope,
                    total,
                    d,
                    n,
                    other.kb_id,
                    picked,
                    new.id,
                    "no_time"@,
                );
                lemma_less_aside(
                    before,
                    scope,
                    total,
                    d.place(other, fact_id),
                    n - picked.len(),
                    left,
                );
            } else {
                let together = rows.filter(simultaneous_rival(other.side, new));
                let undated = rows.filter(undated_rival(other.side, new));
                lemma_filter_len(rows, simultaneous_rival(other.side, new));
                lemma_filter_len(rows, undated_rival(other.side, new));
                lemma_raise_all_aside(
                    before,
                    scope,
                    total,
                    d,
                    n,
                    other.kb_id,
                    together,
                    new.id,
                    "simultaneous"@,
                );
                let d1 = d.raise_all(other.kb_id, together, new.id, "simultaneous"@);
                let n1 = n - together.len();
                assert forall|k: int| 0 <= k < undated.len() implies is_own(
                    d1.ledger,
                    other,
                    (#[trigger] undated[k]).id,
                ) by {
                    assert(undated.contains(undated[k]));
                    lemma_filter_contains(rows, undated_rival(other.side, new), undated[k]);
                    lemma_own_row(d.ledger, other, undated[k]);
                    lemma_keeps_own(d.ledger, d1.ledger, other, undated[k].id);
                }
                lemma_close_all_aside(before, scope, total, d1, n1, other, undated, new);
                let d2 = d1.close_all(other.kb_id, undated, new);
                let n2 = n1 - undated.len();
                lemma_tidy_aside(
                    before,
                    scope,
                    total,
                    d2,
                    n2,
                    other,
                    Seq::empty(),
                    MAX_TIDY_ROUNDS as nat,
                );
                lemma_less_aside(
                    before,
                    scope,
                    total,
                    d2.tidy(other),
                    n2 - MAX_TIDY_ROUNDS,
                    left,
                );
            }
        },
    }
}

/// How many identifiers placing so many facts can take, among so many facts.
pub open spec fn enough_to_place(count: nat, facts: int) -> int
    decreases count,
{
    if count == 0 {
        0
    } else {
        let one = enough_to_place((count - 1) as nat, facts);
        one + enough(facts + one)
    }
}

proof fn lemma_enough_to_place(a: nat, b: nat, facts: int)
    requires
        a <= b,
        facts >= 0,
    ensures
        0 <= enough_to_place(a, facts) <= enough_to_place(b, facts),
    decreases b,
{
    if a < b {
        lemma_enough_to_place(a, (b - 1) as nat, facts);
    } else if a > 0 {
        lemma_enough_to_place((a - 1) as nat, (a - 1) as nat, facts);
    }
}

proof fn lemma_place_each_aside(
    before: LedgerModel,
    scope: Scope,
    total: int,
    d: Desk,
    n: int,
    other: Scope,
    ids: Seq<u128>,
)
    requires
        is_aside(before, scope, total, d, n),
        enough_to_place(ids.len(), total - n) <= n,
        are_other(scope, other),
    ensures
        is_aside(
            before,
            scope,
            total,
            d.place_each(other, ids),
            n - enough_to_place(ids.len(), total - n),
        ),
    decreases ids.len(),
{
    if ids.len() > 0 {
        let head = ids.drop_last();
        lemma_enough_to_place(head.len(), ids.len(), total - n);
        lemma_place_each_aside(before, scope, total, d, n, other, head);
        let mid = d.place_each(other, head);
        lemma_place_aside(
            before,
            scope,
            total,
            mid,
            n - enough_to_place(head.len(), total - n),
            other,
            ids.last(),
        );
    }
}

/// Reopening facts of another timeline.
proof fn lemma_reopen_aside(
    before: LedgerModel,
    scope: Scope,
    total: int,
    d: Desk,
    n: int,
    other: Scope,
    pairs: Seq<(u128, u128)>,
)
    requires
        is_aside(before, scope, total, d, n),
        are_other(scope, other),
        forall|k: int|
            0 <= k < pairs.len() ==> is_own(d.ledger, other, (#[trigger] pairs[k]).0) && is_own(
                d.ledger,
                other,
                pairs[k].1,
            ),
    ensures
        is_aside(before, scope, total, d.reopen_each(pairs), n),
        keeps_own(d.ledger, d.reopen_each(pairs).ledger),
    decreases pairs.len(),
{
    if pairs.len() > 0 {
        let head = pairs.drop_last();
        assert forall|k: int| 0 <= k < head.len() implies is_own(
            d.ledger,
            other,
            (#[trigger] head[k]).0,
        ) && is_own(d.ledger, other, head[k].1) by {
            assert(head[k] == pairs[k]);
        }
        lemma_reopen_aside(before, scope, total, d, n, other, head);
        let mid = d.reopen_each(head);
        let (row, original) = pairs.last();
        assert(pairs[pairs.len() - 1] == (row, original));
        lemma_keeps_own(d.ledger, mid.ledger, other, row);
        lemma_keeps_own(d.ledger, mid.ledger, other, original);
        let l = mid.ledger;
        let struck = l.commit(ChangeModel::Invalidate { fact_id: row, at: mid.now });
        let l1 = d.reopen_each(pairs).ledger;
        law_invalidating_strikes_one_fact(l, row, mid.now);
        law_restoring_brings_back_one_fact(struck, original);
        assert forall|i: int| 0 <= i < l.facts.len() implies same_but_invalidated(
            l.facts[i],
            #[trigger] l1.facts[i],
        ) && (belongs(scope, l.facts[i]) ==> l1.facts[i].invalidated_at
            == l.facts[i].invalidated_at) by {
            assert(same_but_invalidated(l.facts[i], struck.facts[i]));
            assert(same_but_invalidated(struck.facts[i], l1.facts[i]));
            if belongs(scope, l.facts[i]) {
                lemma_not_own(l, scope, other, i, row);
                lemma_not_own(l, scope, other, i, original);
            }
        }
        lemma_keeps_own_further(d.ledger, l, l1);
        lemma_still_aside(before, scope, total, mid, d.reopen_each(pairs), n);
    }
}

/// A fact of one timeline does not have the identifier of one of the other.
proof fn lemma_not_own(l: LedgerModel, scope: Scope, other: Scope, i: int, id: u128)
    requires
        l.distinct(),
        one_sided(l, scope.holder),
        are_other(scope, other),
        0 <= i < l.facts.len(),
        belongs(scope, l.facts[i]),
        is_own(l, other, id),
    ensures
        l.facts[i].id != id,
{
    let o = choose|o: int|
        0 <= o < l.facts.len() && (#[trigger] l.facts[o]).id == id && belongs(other, l.facts[o]);
    if i != o {
        lemma_apart(l, i, o);
    }
}

/// What only strikes out and brings back facts of others touches this timeline not.
proof fn lemma_still_aside(
    before: LedgerModel,
    scope: Scope,
    total: int,
    d: Desk,
    after: Desk,
    n: int,
)
    requires
        is_aside(before, scope, total, d, n),
        after.ids == d.ids,
        after.ledger.facts.len() == d.ledger.facts.len(),
        after.ledger.evidence == d.ledger.evidence,
        after.ledger.documents == d.ledger.documents,
        after.ledger.relations == d.ledger.relations,
        forall|i: int|
            0 <= i < d.ledger.facts.len() ==> same_but_invalidated(
                d.ledger.facts[i],
                #[trigger] after.ledger.facts[i],
            ) && (belongs(scope, d.ledger.facts[i]) ==> after.ledger.facts[i].invalidated_at
                == d.ledger.facts[i].invalidated_at),
    ensures
        is_aside(before, scope, total, after, n),
{
    let l = d.ledger;
    let l1 = after.ledger;
    assert forall|i: int| 0 <= i < before.facts.len() implies same_but_invalidated(
        before.facts[i],
        #[trigger] l1.facts[i],
    ) && (belongs(scope, before.facts[i]) ==> l1.facts[i].invalidated_at
        == before.facts[i].invalidated_at) by {
        assert(same_but_invalidated(before.facts[i], l.facts[i]));
        assert(same_but_invalidated(l.facts[i], l1.facts[i]));
    }
    assert forall|i: int| before.facts.len() <= i < l1.facts.len() implies !belongs(
        scope,
        #[trigger] l1.facts[i],
    ) by {
        assert(same_but_invalidated(l.facts[i], l1.facts[i]));
        assert(!belongs(scope, l.facts[i]));
    }
    assert forall|i: int| 0 <= i < before.facts.len() implies (#[trigger] l1.row(i)).dated_at
        == before.row(i).dated_at by {
        assert(l.row(i).dated_at == before.row(i).dated_at);
        assert(same_but_invalidated(l.facts[i], l1.facts[i]));
    }
    assert forall|a: int, b: int|
        0 <= a < l1.facts.len() && 0 <= b < l1.facts.len() && (#[trigger] l1.facts[a]).supersedes
            == Some((#[trigger] l1.facts[b]).id) implies {
        &&& l1.facts[b].kb_id == l1.facts[a].kb_id
        &&& l1.facts[b].subject_id == l1.facts[a].subject_id
        &&& l1.facts[b].predicate_id == l1.facts[a].predicate_id
        &&& l1.facts[b].object_id == l1.facts[a].object_id
    } by {
        assert(same_but_invalidated(l.facts[a], l1.facts[a]));
        assert(same_but_invalidated(l.facts[b], l1.facts[b]));
        assert(l.facts[a].supersedes == Some(l.facts[b].id));
    }
    assert forall|i: int| 0 <= i < l1.facts.len() implies !((#[trigger] l1.facts[i]).subject_id
        == scope.holder && l1.facts[i].object_id == Some(scope.holder)) by {
        assert(same_but_invalidated(l.facts[i], l1.facts[i]));
        assert(!(l.facts[i].subject_id == scope.holder && l.facts[i].object_id == Some(
            scope.holder,
        )));
    }
    assert forall|i: int, k: int|
        0 <= i < l1.facts.len() && 0 <= k < after.ids.len() implies (
    #[trigger] l1.facts[i]).supersedes != Some(#[trigger] after.ids[k]) by {
        assert(same_but_invalidated(l.facts[i], l1.facts[i]));
        assert(l.facts[i].supersedes != Some(d.ids[k]));
    }
    assert(l1.distinct()) by {
        assert forall|a: int, b: int| 0 <= a < b < l1.facts.len() implies (
        #[trigger] l1.facts[a]).id != (#[trigger] l1.facts[b]).id by {
            assert(same_but_invalidated(l.facts[a], l1.facts[a]));
            assert(same_but_invalidated(l.facts[b], l1.facts[b]));
            assert(l.facts[a].id != l.facts[b].id);
        }
    }
    assert forall|k: int| 0 <= k < after.ids.len() implies l1.unused(#[trigger] after.ids[k]) by {
        assert(l.unused(d.ids[k]));
        assert forall|i: int| 0 <= i < l1.facts.len() implies (#[trigger] l1.facts[i]).id
            != after.ids[k] by {
            assert(same_but_invalidated(l.facts[i], l1.facts[i]));
            assert(l.facts[i].id != d.ids[k]);
        }
    }
}

/// How many identifiers tidying a timeline anew can take, among so many facts.
pub open spec fn enough_for_side(facts: int) -> int {
    enough_to_place(facts as nat, facts) + MAX_TIDY_ROUNDS
}

/// What is to be reopened on a timeline is of that timeline.
proof fn lemma_reopened_are_own(l: LedgerModel, other: Scope, gone: Seq<Option<i64>>)
    requires
        l.distinct(),
        holds_together(l),
    ensures
        to_reopen(l, other, gone).len() <= l.facts.len(),
        forall|k: int|
            0 <= k < to_reopen(l, other, gone).len() ==> is_own(
                l,
                other,
                (#[trigger] to_reopen(l, other, gone)[k]).0,
            ) && is_own(l, other, to_reopen(l, other, gone)[k].1),
{
    let rows = timeline(l, other);
    let ended = rows.filter(abandoned(rows, gone));
    let kept = ended.filter(has_original(l));
    let pairs = to_reopen(l, other, gone);
    lemma_timeline_len(l, other);
    lemma_filter_len(rows, abandoned(rows, gone));
    lemma_filter_len(ended, has_original(l));
    assert forall|k: int| 0 <= k < pairs.len() implies is_own(l, other, (#[trigger] pairs[k]).0)
        && is_own(l, other, pairs[k].1) by {
        let r = kept[k];
        assert(kept.contains(r));
        lemma_filter_contains(ended, has_original(l), r);
        lemma_filter_contains(rows, abandoned(rows, gone), r);
        lemma_own_row(l, other, r);
        lemma_timeline(l, other);
        let i = choose|i: int| #[trigger] l.stands(other, i) && l.row(i) == r;
        lemma_found(l, i);
        let s = l.facts[i].supersedes->0;
        lemma_first(l.facts, with_id(s));
        let o = choose|o: int| 0 <= o < l.facts.len() && l.facts[o] == l.fact(s)->0;
        assert(l.facts[i].supersedes == Some(l.facts[o].id));
        assert(belongs(other, l.facts[o]));
    }
}

/// Tidying another timeline anew touches this one not.
proof fn lemma_side_aside(
    before: LedgerModel,
    scope: Scope,
    total: int,
    d: Desk,
    n: int,
    other: Scope,
    gone: Seq<Option<i64>>,
)
    requires
        is_aside(before, scope, total, d, n),
        enough_for_side(total - n) <= n,
        are_other(scope, other),
    ensures
        is_aside(
            before,
            scope,
            total,
            d.retidy_side(other, gone),
            n - enough_for_side(total - n),
        ),
{
    let pairs = to_reopen(d.ledger, other, gone);
    let ids = pairs.map_values(second());
    lemma_reopened_are_own(d.ledger, other, gone);
    lemma_reopen_aside(before, scope, total, d, n, other, pairs);
    let d1 = d.reopen_each(pairs);
    lemma_enough_to_place(ids.len(), (total - n) as nat, total - n);
    lemma_place_each_aside(before, scope, total, d1, n, other, ids);
    let d2 = d1.place_each(other, ids);
    let n2 = n - enough_to_place(ids.len(), total - n);
    lemma_tidy_aside(before, scope, total, d2, n2, other, Seq::empty(), MAX_TIDY_ROUNDS as nat);
    lemma_less_aside(
        before,
        scope,
        total,
        d2.tidy(other),
        n2 - MAX_TIDY_ROUNDS,
        n - enough_for_side(total - n),
    );
}

/// How many identifiers tidying the timelines of a relation anew can take.
pub open spec fn enough_for_relation(facts: int) -> int {
    enough_for_side(facts) + enough_for_side(facts + enough_for_side(facts))
}

/// The timeline of a holder under a relation, on one side.
pub open spec fn side_of(kb_id: u128, holder: u128, predicate_id: u128, side: Uniqueness) -> Scope {
    Scope { kb_id, holder, predicate_id, side }
}

proof fn lemma_enough_for_side(facts: int)
    requires
        facts >= 0,
    ensures
        enough_for_side(facts) >= 0,
{
    lemma_enough_to_place(0, facts as nat, facts);
}

/// Tidying the timelines of another relation anew touches this one not.
proof fn lemma_relation_aside(
    before: LedgerModel,
    scope: Scope,
    total: int,
    d: Desk,
    n: int,
    r: RelationType,
    gone: Seq<Option<i64>>,
)
    requires
        is_aside(before, scope, total, d, n),
        enough_for_relation(total - n) <= n,
        r.id != scope.predicate_id,
    ensures
        is_aside(
            before,
            scope,
            total,
            d.retidy_relation(scope.kb_id, scope.holder, r, gone),
            n - enough_for_relation(total - n),
        ),
{
    let on_subject = side_of(scope.kb_id, scope.holder, r.id, Uniqueness::SubjectSide);
    let on_object = side_of(scope.kb_id, scope.holder, r.id, Uniqueness::ObjectSide);
    let one = enough_for_side(total - n);
    lemma_enough_for_side(total - n);
    lemma_enough_for_side(total - n + one);
    let mid = if r.functional {
        d.retidy_side(on_subject, gone)
    } else {
        d
    };
    lemma_less_aside(before, scope, total, d, n, n - one);
    if r.functional {
        lemma_side_aside(before, scope, total, d, n, on_subject, gone);
    }
    lemma_less_aside(before, scope, total, mid, n - one, n - enough_for_relation(total - n));
    if r.inverse_functional {
        lemma_side_aside(before, scope, total, mid, n - one, on_object, gone);
    }
}

/// How many identifiers tidying the timelines of so many relations anew can take.
pub open spec fn enough_for_relations(count: nat, facts: int) -> int
    decreases count,
{
    if count == 0 {
        0
    } else {
        let before = enough_for_relations((count - 1) as nat, facts);
        before + enough_for_relation(facts + before)
    }
}

proof fn lemma_enough_for_relations(a: nat, b: nat, facts: int)
    requires
        a <= b,
        facts >= 0,
    ensures
        0 <= enough_for_relations(a, facts) <= enough_for_relations(b, facts),
    decreases b,
{
    if b > 0 {
        let c = (b - 1) as nat;
        if a < b {
            lemma_enough_for_relations(a, c, facts);
        } else {
            lemma_enough_for_relations(c, c, facts);
        }
        let more = facts + enough_for_relations(c, facts);
        lemma_enough_for_side(more);
        lemma_enough_for_side(more + enough_for_side(more));
    }
}

/// Tidying the timelines of other relations anew touches this one not.
proof fn lemma_relations_aside(
    before: LedgerModel,
    scope: Scope,
    total: int,
    d: Desk,
    n: int,
    relations: Seq<RelationType>,
    gone: Seq<Option<i64>>,
)
    requires
        is_aside(before, scope, total, d, n),
        enough_for_relations(relations.len(), total - n) <= n,
        forall|k: int|
            0 <= k < relations.len() ==> (#[trigger] relations[k]).id != scope.predicate_id,
    ensures
        is_aside(
            before,
            scope,
            total,
            d.retidy_each(scope.kb_id, scope.holder, relations, gone),
            n - enough_for_relations(relations.len(), total - n),
        ),
    decreases relations.len(),
{
    if relations.len() > 0 {
        let head = relations.drop_last();
        assert forall|k: int| 0 <= k < head.len() implies (#[trigger] head[k]).id
            != scope.predicate_id by {
            assert(head[k] == relations[k]);
        }
        lemma_enough_for_relations(head.len(), relations.len(), total - n);
        lemma_relations_aside(before, scope, total, d, n, head, gone);
        let mid = d.retidy_each(scope.kb_id, scope.holder, head, gone);
        assert(relations[relations.len() - 1] == relations.last());
        lemma_relation_aside(
            before,
            scope,
            total,
            mid,
            n - enough_for_relations(head.len(), total - n),
            relations.last(),
            gone,
        );
    }
}

/// A timeline is untouched where nothing was done.
proof fn lemma_untouched(l: LedgerModel, scope: Scope)
    ensures
        untouched(l, l, scope),
{
}

/// Some relations after others.
proof fn lemma_retidy_both(
    d: Desk,
    kb_id: u128,
    holder: u128,
    a: Seq<RelationType>,
    b: Seq<RelationType>,
    gone: Seq<Option<i64>>,
)
    ensures
        d.retidy_each(kb_id, holder, a + b, gone) == d.retidy_each(
            kb_id,
            holder,
            a,
            gone,
        ).retidy_each(kb_id, holder, b, gone),
    decreases b.len(),
{
    if b.len() == 0 {
        assert(a + b =~= a);
    } else {
        lemma_retidy_both(d, kb_id, holder, a, b.drop_last(), gone);
        assert((a + b).drop_last() =~= a + b.drop_last());
        assert((a + b).last() == b.last());
    }
}

/// A timeline of the same holder that nothing is about.
spec fn beside(scope: Scope) -> Scope {
    Scope {
        predicate_id: if scope.predicate_id == 0 {
            1
        } else {
            0
        },
        ..scope
    }
}

/// A fact is struck out while so many steps may be taken.
spec fn is_struck(i: int, id: u128, total: int) -> spec_fn(Desk, int) -> bool {
    |d: Desk, n: int|
        {
            &&& 0 <= n
            &&& d.supplied(n)
            &&& d.ledger.facts.len() + n <= total
            &&& 0 <= i < d.ledger.facts.len()
            &&& d.ledger.facts[i].id == id
            &&& d.ledger.facts[i].invalidated_at is Some
        }
}

/// What is struck out stays so.
proof fn lemma_stays_struck(i: int, id: u128, total: int)
    ensures
        is_kept(is_struck(i, id, total), any_row(), total),
{
    let p = is_struck(i, id, total);
    assert forall|d: Desk, n: int, kb_id: u128, a: u128, b: u128, reason: Seq<char>|
        #![trigger p(d, n), d.raise(kb_id, a, b, reason)]
        p(d, n) && n > 0 implies p(d.raise(kb_id, a, b, reason), n - 1) by {
        let scope = side_of(kb_id, 0, 0, Uniqueness::SubjectSide);
        lemma_raise(d, scope, kb_id, a, b, reason);
    }
    assert forall|d: Desk, n: int, row: RowModel, next: RowModel|
        #![trigger p(d, n), d.close_at(row, next)]
        p(d, n) && n > 0 implies p(d.close_at(row, next), n - 1) by {
        lemma_first(d.ledger.facts, alive_with_id(row.id));
        if let Some(f) = d.ledger.alive(row.id) {
            let m = choose|m: int| 0 <= m < d.ledger.facts.len() && d.ledger.facts[m] == f;
            let scope = side_of(0, 0, 0, Uniqueness::SubjectSide);
            lemma_close_at(d, scope, m, next);
            assert(d.close_at(row, next) == d.close_at(d.ledger.row(m), next));
            assert(m != i);
            assert(d.close_at(row, next).ledger.facts[i] == d.ledger.facts[i]);
        }
    }
}

proof fn lemma_struck_placed(
    i: int,
    id: u128,
    total: int,
    d: Desk,
    n: int,
    scope: Scope,
    ids: Seq<u128>,
)
    requires
        is_struck(i, id, total)(d, n),
        enough_to_place(ids.len(), total - n) <= n,
    ensures
        is_struck(i, id, total)(
            d.place_each(scope, ids),
            n - enough_to_place(ids.len(), total - n),
        ),
    decreases ids.len(),
{
    let p = is_struck(i, id, total);
    if ids.len() > 0 {
        let head = ids.drop_last();
        lemma_enough_to_place(head.len(), ids.len(), total - n);
        lemma_struck_placed(i, id, total, d, n, scope, head);
        let mid = d.place_each(scope, head);
        let m = n - enough_to_place(head.len(), total - n);
        lemma_stays_struck(i, id, total);
        assert(p(mid, m));
        lemma_place(p, any_row(), total, mid, m, scope, ids.last());
    }
}

/// What a timeline says it still says when facts are placed on it.
proof fn lemma_said_placed(
    before: LedgerModel,
    total: int,
    d: Desk,
    n: int,
    scope: Scope,
    ids: Seq<u128>,
    x: RowModel,
)
    requires
        is_aside(before, beside(scope), total, d, n),
        enough_to_place(ids.len(), total - n) <= n,
        is_said(timeline(d.ledger, scope), x),
    ensures
        is_said(timeline(d.place_each(scope, ids).ledger, scope), x),
    decreases ids.len(),
{
    if ids.len() > 0 {
        let head = ids.drop_last();
        lemma_enough_to_place(head.len(), ids.len(), total - n);
        lemma_said_placed(before, total, d, n, scope, head, x);
        lemma_place_each_aside(before, beside(scope), total, d, n, scope, head);
        let mid = d.place_each(scope, head);
        lemma_timeline_len(mid.ledger, scope);
        law_placing_keeps_what_is_said(mid, scope, ids.last());
        lemma_said_on(
            timeline(mid.ledger, scope),
            timeline(mid.place(scope, ids.last()).ledger, scope),
            x,
        );
    }
}

proof fn lemma_said_on(rows: Seq<RowModel>, after: Seq<RowModel>, x: RowModel)
    requires
        same_said(rows, after),
        is_said(rows, x),
    ensures
        is_said(after, x),
{
    let m = lemma_said(rows, x);
    assert(is_said(after, m));
    reveal(is_said);
}

/// What tidying a timeline anew does to a row that is to be reopened: it is struck out, and the
/// timeline says what the fact said that it closed.
proof fn lemma_side_reopens(
    total: int,
    d: Desk,
    n: int,
    scope: Scope,
    gone: Seq<Option<i64>>,
    i: int,
    o: int,
)
    requires
        is_aside(d.ledger, beside(scope), total, d, n),
        enough_for_side(total - n) <= n,
        d.ledger.stands(scope, i),
        0 <= o < d.ledger.facts.len(),
        belongs(scope, d.ledger.facts[o]),
        to_reopen(d.ledger, scope, gone).contains((d.ledger.facts[i].id, d.ledger.facts[o].id)),
    ensures
        ({
            let after = d.retidy_side(scope, gone);
            let left = n - enough_for_side(total - n);
            &&& is_aside(after.ledger, scope, total, after, left)
            &&& d.ledger.facts.len() <= after.ledger.facts.len()
            &&& same_but_invalidated(d.ledger.facts[i], after.ledger.facts[i])
            &&& after.ledger.facts[i].invalidated_at is Some
            &&& is_said(timeline(after.ledger, scope), d.ledger.row(o))
            &&& after.ledger.relations == d.ledger.relations
        }),
{
    let l = d.ledger;
    let pairs = to_reopen(l, scope, gone);
    let ids = pairs.map_values(second());
    let id = l.facts[i].id;
    let pair = (id, l.facts[o].id);
    let other = beside(scope);
    lemma_reopened_are_own(l, scope, gone);
    lemma_reopen_aside(l, other, total, d, n, scope, pairs);
    law_reopening_brings_back_what_was_closed(d, scope, gone, pair);
    let d1 = d.reopen_each(pairs);
    lemma_first(d1.ledger.facts, alive_with_id(id));
    assert(same_but_invalidated(l.facts[i], d1.ledger.facts[i]));
    assert(same_but_invalidated(l.facts[o], d1.ledger.facts[o]));
    assert(!alive_with_id(id)(d1.ledger.facts[i]));
    let p = is_struck(i, id, total);
    assert(p(d1, n));
    // The fact that was closed is back.
    lemma_first(d1.ledger.facts, alive_with_id(pair.1));
    let m = choose|m: int|
        0 <= m < d1.ledger.facts.len() && d1.ledger.facts[m] == d1.ledger.alive(pair.1)->0;
    if m != o {
        lemma_apart(d1.ledger, m, o);
    }
    assert(d1.ledger.stands(scope, o));
    lemma_timeline(d1.ledger, scope);
    assert(timeline(d1.ledger, scope).contains(d1.ledger.row(o)));
    assert(d1.ledger.row(o).dated_at == l.row(o).dated_at);
    assert(says(d1.ledger.row(o)) == says(l.row(o)));
    assert(is_said(timeline(d1.ledger, scope), l.row(o))) by {
        reveal(is_said);
    }
    // Placing and tidying keep both.
    lemma_enough_to_place(ids.len(), (total - n) as nat, total - n);
    lemma_struck_placed(i, id, total, d1, n, scope, ids);
    lemma_said_placed(l, total, d1, n, scope, ids, l.row(o));
    lemma_place_each_aside(l, other, total, d1, n, scope, ids);
    let d2 = d1.place_each(scope, ids);
    let n2 = n - enough_to_place(ids.len(), total - n);
    lemma_stays_struck(i, id, total);
    assert(p(d2, n2));
    lemma_tidy(p, any_row(), total, d2, n2, scope, Seq::empty(), MAX_TIDY_ROUNDS as nat);
    lemma_tidy_keeps(d2, scope, Seq::empty(), MAX_TIDY_ROUNDS as nat);
    let after = d.retidy_side(scope, gone);
    assert(after == d2.tidy(scope));
    lemma_said_on(timeline(d2.ledger, scope), timeline(after.ledger, scope), l.row(o));
    lemma_side_aside(l, other, total, d, n, scope, gone);
    lemma_untouched(after.ledger, scope);
}

/// A fact has ended at a moment: on its day, or, on an unknown day, when that was attested.
pub open spec fn ends_on(f: FactModel, t: i64) -> bool {
    ||| f.valid_to == Some(t)
    ||| f.valid_to is None && f.valid_to_precision == Some("unknown"@) && f.attested_to == Some(t)
}

/// The fact `i` is placed at a moment: by its start, or else by the date of its first evidence.
pub open spec fn starts_on(l: LedgerModel, i: int, t: i64) -> bool {
    ||| l.facts[i].valid_from == Some(t)
    ||| l.facts[i].valid_from is None && is_dated(l, l.facts[i].id, Some(t))
}

/// The fact `i` of a timeline has ended where a fact was placed that has left, and where none of
/// the timeline is; and it supersedes the fact `o`, which has the same start and is open.
pub open spec fn was_closed_at_a_leaver(
    l: LedgerModel,
    scope: Scope,
    removed: Seq<u128>,
    t: i64,
    i: int,
    o: int,
) -> bool {
    &&& is_on(l, scope, i)
    &&& ends_on(l.facts[i], t)
    &&& exists|m: int|
        0 <= m < l.facts.len() && removed.contains((#[trigger] l.facts[m]).id) && starts_on(l, m, t)
    &&& forall|j: int| #[trigger] is_on(l, scope, j) ==> !starts_on(l, j, t)
    &&& 0 <= o < l.facts.len()
    &&& l.facts[i].supersedes == Some(l.facts[o].id)
    &&& l.facts[o].valid_from == l.facts[i].valid_from
    &&& l.facts[o].valid_to is None
    &&& l.facts[o].valid_to_precision is None
}

/// The date of a fact is the one that is found.
pub proof fn lemma_starts_on(l: LedgerModel, i: int, t: i64)
    requires
        0 <= i < l.facts.len(),
    ensures
        starts_on(l, i, t) <==> l.row(i).key() == Some(t),
{
    law_a_fact_is_dated_by_its_documents(l, l.facts[i].id);
    let date = dated_at(l.evidence, l.documents, l.facts[i].id);
    if l.facts[i].valid_from is None && is_dated(l, l.facts[i].id, Some(t)) {
        assert(crate::reading::is_attested_on(l, l.facts[i].id, t));
    }
}

/// A row that was closed at a fact that has left is to be reopened.
proof fn lemma_is_to_reopen(
    l: LedgerModel,
    scope: Scope,
    gone: Seq<Option<i64>>,
    t: i64,
    i: int,
    o: int,
)
    requires
        l.distinct(),
        l.stands(scope, i),
        ends_on(l.facts[i], t),
        gone.contains(Some(t)),
        forall|j: int| #[trigger] l.stands(scope, j) ==> l.row(j).key() != Some(t),
        0 <= o < l.facts.len(),
        l.facts[i].supersedes == Some(l.facts[o].id),
        l.facts[o].valid_from == l.facts[i].valid_from,
        l.facts[o].is_open(),
    ensures
        to_reopen(l, scope, gone).contains((l.facts[i].id, l.facts[o].id)),
{
    let rows = timeline(l, scope);
    let r = l.row(i);
    let ended = rows.filter(abandoned(rows, gone));
    let kept = ended.filter(has_original(l));
    let pairs = to_reopen(l, scope, gone);
    lemma_timeline(l, scope);
    lemma_found(l, i);
    lemma_found(l, o);
    assert(rows.contains(r));
    assert(r.end() == Some(t));
    assert forall|k: int| 0 <= k < rows.len() implies (#[trigger] rows[k]).key() != r.end() by {
        assert(rows.contains(rows[k]));
        let j = choose|j: int| #[trigger] l.stands(scope, j) && l.row(j) == rows[k];
        assert(l.row(j).key() != Some(t));
    }
    assert(abandoned(rows, gone)(r));
    lemma_filter_contains(rows, abandoned(rows, gone), r);
    lemma_filter_contains(ended, has_original(l), r);
    assert(l.original(r.id) == Some(l.facts[o].id));
    let k = choose|k: int| 0 <= k < kept.len() && kept[k] == r;
    assert(pairs[k] == (l.facts[i].id, l.facts[o].id));
}

/// What was closed at a fact that has left is to be reopened as long as its timeline is untouched.
proof fn lemma_still_to_reopen(
    before: LedgerModel,
    l: LedgerModel,
    scope: Scope,
    removed: Seq<u128>,
    t: i64,
    i: int,
    o: int,
)
    requires
        untouched(before, l, scope),
        l.distinct(),
        was_closed_at_a_leaver(before, scope, removed, t, i, o),
    ensures
        l.stands(scope, i),
        to_reopen(l, scope, moments(before, removed)).contains((l.facts[i].id, l.facts[o].id)),
{
    let gone = moments(before, removed);
    assert(same_but_invalidated(before.facts[i], l.facts[i]));
    assert(same_but_invalidated(before.facts[o], l.facts[o]));
    assert(belongs(scope, before.facts[i]));
    assert(l.stands(scope, i));
    assert forall|j: int| #[trigger] l.stands(scope, j) implies l.row(j).key() != Some(t) by {
        assert(belongs(scope, l.facts[j]));
        assert(j < before.facts.len());
        assert(same_but_invalidated(before.facts[j], l.facts[j]));
        assert(belongs(scope, before.facts[j]));
        assert(is_on(before, scope, j));
        lemma_starts_on(before, j, t);
        assert(l.row(j).dated_at == before.row(j).dated_at);
    }
    assert(gone.contains(Some(t))) by {
        let m = choose|m: int|
            0 <= m < before.facts.len() && removed.contains((#[trigger] before.facts[m]).id)
                && starts_on(before, m, t);
        lemma_starts_on(before, m, t);
        let p = placed_among(before, removed);
        let found = before.facts.filter(p);
        assert(moment_of(before)(before.facts[m]) == Some(t));
        assert(before.facts.contains(before.facts[m]));
        lemma_filter_contains(before.facts, p, before.facts[m]);
        let k = choose|k: int| 0 <= k < found.len() && found[k] == before.facts[m];
        assert(gone[k] == Some(t));
    }
    lemma_is_to_reopen(l, scope, gone, t, i, o);
}

/// A fact is struck out, and a present one says what the fact `o` said.
pub open spec fn was_reopened(before: LedgerModel, l: LedgerModel, i: int, o: int) -> bool {
    &&& before.facts.len() <= l.facts.len()
    &&& l.facts[i].id == before.facts[i].id
    &&& l.facts[i].invalidated_at is Some
    &&& exists|k: int|
        0 <= k < l.facts.len() && (#[trigger] l.facts[k]).invalidated_at is None
            && l.facts[k].kb_id == before.facts[o].kb_id && l.facts[k].subject_id
            == before.facts[o].subject_id && l.facts[k].predicate_id
            == before.facts[o].predicate_id && l.facts[k].object_id == before.facts[o].object_id
            && l.facts[k].object_value == before.facts[o].object_value && l.facts[k].valid_from
            == before.facts[o].valid_from && l.facts[k].valid_from_precision
            == before.facts[o].valid_from_precision && l.facts[k].confidence
            == before.facts[o].confidence
}

/// What was reopened stays so while other timelines are worked on.
proof fn lemma_stays_reopened(
    before: LedgerModel,
    mid: LedgerModel,
    l: LedgerModel,
    scope: Scope,
    i: int,
    o: int,
)
    requires
        before.facts.len() <= mid.facts.len(),
        0 <= i < before.facts.len(),
        0 <= o < before.facts.len(),
        belongs(scope, before.facts[i]),
        belongs(scope, before.facts[o]),
        same_but_invalidated(before.facts[i], mid.facts[i]),
        mid.facts[i].invalidated_at is Some,
        is_said(timeline(mid, scope), before.row(o)),
        untouched(mid, l, scope),
    ensures
        was_reopened(before, l, i, o),
{
    let r = lemma_said(timeline(mid, scope), before.row(o));
    lemma_timeline(mid, scope);
    let k = choose|k: int| #[trigger] mid.stands(scope, k) && mid.row(k) == r;
    assert(same_but_invalidated(mid.facts[k], l.facts[k]));
    assert(same_but_invalidated(mid.facts[i], l.facts[i]));
    assert(belongs(scope, mid.facts[i]) && belongs(scope, mid.facts[k]));
    assert(says(mid.row(k)) == says(before.row(o)));
    let a = says(mid.row(k));
    let b = says(before.row(o));
    assert(a.subject_id == b.subject_id && a.object_id == b.object_id && a.object_value
        == b.object_value && a.valid_from == b.valid_from && a.valid_from_precision
        == b.valid_from_precision && a.confidence == b.confidence);
    assert(l.facts[k].invalidated_at is None);
}

/// The relation of a timeline of a subject is tidied anew: first on this side.
proof fn lemma_subject_side_reopens(
    before: LedgerModel,
    total: int,
    d: Desk,
    n: int,
    scope: Scope,
    r: RelationType,
    removed: Seq<u128>,
    t: i64,
    i: int,
    o: int,
) -> (mid: LedgerModel)
    requires
        is_aside(before, scope, total, d, n),
        enough_for_relation(total - n) <= n,
        r.id == scope.predicate_id,
        scope.side is SubjectSide,
        r.functional,
        was_closed_at_a_leaver(before, scope, removed, t, i, o),
        belongs(scope, before.facts[o]),
    ensures
        is_aside(
            mid,
            scope,
            total,
            d.retidy_relation(scope.kb_id, scope.holder, r, moments(before, removed)),
            n - enough_for_relation(total - n),
        ),
        is_struck_and_said(before, mid, scope, i, o),
{
    let gone = moments(before, removed);
    let one = enough_for_side(total - n);
    let on_object = side_of(scope.kb_id, scope.holder, r.id, Uniqueness::ObjectSide);
    lemma_enough_for_side(total - n);
    lemma_enough_for_side(total - n + one);
    let done = d.retidy_side(scope, gone);
    lemma_still_to_reopen(before, d.ledger, scope, removed, t, i, o);
    lemma_own_original(before, d, total, n, scope, i, o);
    lemma_side_reopens(total, d, n, scope, gone, i, o);
    let mid = done.ledger;
    lemma_said_alike(timeline(mid, scope), d.ledger.row(o), before.row(o));
    assert(same_but_invalidated(before.facts[i], d.ledger.facts[i]));
    if r.inverse_functional {
        lemma_side_aside(mid, scope, total, done, n - one, on_object, gone);
    } else {
        lemma_less_aside(
            mid,
            scope,
            total,
            done,
            n - one,
            n - enough_for_relation(total - n),
        );
    }
    mid
}

/// The relation of a timeline of an object is tidied anew: last on this side.
proof fn lemma_object_side_reopens(
    before: LedgerModel,
    total: int,
    d: Desk,
    n: int,
    scope: Scope,
    r: RelationType,
    removed: Seq<u128>,
    t: i64,
    i: int,
    o: int,
) -> (mid: LedgerModel)
    requires
        is_aside(before, scope, total, d, n),
        enough_for_relation(total - n) <= n,
        r.id == scope.predicate_id,
        scope.side is ObjectSide,
        r.inverse_functional,
        was_closed_at_a_leaver(before, scope, removed, t, i, o),
        belongs(scope, before.facts[o]),
    ensures
        is_aside(
            mid,
            scope,
            total,
            d.retidy_relation(scope.kb_id, scope.holder, r, moments(before, removed)),
            n - enough_for_relation(total - n),
        ),
        is_struck_and_said(before, mid, scope, i, o),
{
    let gone = moments(before, removed);
    let one = enough_for_side(total - n);
    let on_subject = side_of(scope.kb_id, scope.holder, r.id, Uniqueness::SubjectSide);
    lemma_enough_for_side(total - n);
    lemma_enough_for_side(total - n + one);
    let done = if r.functional {
        d.retidy_side(on_subject, gone)
    } else {
        d
    };
    if r.functional {
        lemma_side_aside(before, scope, total, d, n, on_subject, gone);
    } else {
        lemma_less_aside(before, scope, total, d, n, n - one);
    }
    lemma_still_to_reopen(before, done.ledger, scope, removed, t, i, o);
    lemma_own_original(before, done, total, n - one, scope, i, o);
    lemma_side_reopens(total, done, n - one, scope, gone, i, o);
    let after = done.retidy_side(scope, gone);
    assert(after == d.retidy_relation(scope.kb_id, scope.holder, r, gone));
    let mid = after.ledger;
    lemma_said_alike(timeline(mid, scope), done.ledger.row(o), before.row(o));
    assert(same_but_invalidated(before.facts[i], done.ledger.facts[i]));
    mid
}

/// The fact `i` is struck out, and the timeline says what the fact `o` said.
spec fn is_struck_and_said(
    before: LedgerModel,
    mid: LedgerModel,
    scope: Scope,
    i: int,
    o: int,
) -> bool {
    &&& before.facts.len() <= mid.facts.len()
    &&& same_but_invalidated(before.facts[i], mid.facts[i])
    &&& mid.facts[i].invalidated_at is Some
    &&& is_said(timeline(mid, scope), before.row(o))
}

proof fn lemma_said_alike(rows: Seq<RowModel>, a: RowModel, b: RowModel)
    requires
        is_said(rows, a),
        says(a) == says(b),
    ensures
        is_said(rows, b),
{
    reveal(is_said);
}

/// The fact that is to be brought back is of the timeline, and says what it said.
proof fn lemma_own_original(
    before: LedgerModel,
    d: Desk,
    total: int,
    n: int,
    scope: Scope,
    i: int,
    o: int,
)
    requires
        is_aside(before, scope, total, d, n),
        0 <= i < before.facts.len(),
        0 <= o < before.facts.len(),
        belongs(scope, before.facts[o]),
    ensures
        is_aside(d.ledger, beside(scope), total, d, n),
        belongs(scope, d.ledger.facts[o]),
        says(d.ledger.row(o)) == says(before.row(o)),
{
    lemma_untouched(d.ledger, beside(scope));
    assert(same_but_invalidated(before.facts[o], d.ledger.facts[o]));
    assert(d.ledger.row(o).dated_at == before.row(o).dated_at);
}

proof fn lemma_enough_split(a: nat, b: nat, facts: int)
    requires
        facts >= 0,
    ensures
        enough_for_relations(a + b, facts) == enough_for_relations(a, facts)
            + enough_for_relations(b, facts + enough_for_relations(a, facts)),
    decreases b,
{
    if b > 0 {
        lemma_enough_split(a, (b - 1) as nat, facts);
        assert((a + b - 1) as nat == a + (b - 1) as nat);
    }
}

/// No two relations have the same identifier.
pub open spec fn relations_differ(relations: Seq<RelationType>) -> bool {
    forall|a: int, b: int|
        0 <= a < b < relations.len() ==> (#[trigger] relations[a]).id != (
        #[trigger] relations[b]).id
}

proof fn lemma_relations_kept_apart(s: Seq<RelationType>, p: spec_fn(RelationType) -> bool)
    requires
        relations_differ(s),
    ensures
        relations_differ(s.filter(p)),
        s.filter(p).len() <= s.len(),
    decreases s.len(),
{
    reveal(Seq::filter);
    if s.len() > 0 {
        let head = s.drop_last();
        assert forall|a: int, b: int| 0 <= a < b < head.len() implies (#[trigger] head[a]).id != (
        #[trigger] head[b]).id by {
            assert(head[a] == s[a] && head[b] == s[b]);
        }
        lemma_relations_kept_apart(head, p);
        let kept = head.filter(p);
        if p(s.last()) {
            let all = s.filter(p);
            assert forall|a: int, b: int| 0 <= a < b < all.len() implies (#[trigger] all[a]).id != (
            #[trigger] all[b]).id by {
                if b == kept.len() {
                    assert(kept.contains(kept[a]));
                    lemma_filter_contains(head, p, kept[a]);
                    let k = choose|k: int| 0 <= k < head.len() && head[k] == kept[a];
                    assert(s[k].id != s[s.len() - 1].id);
                } else {
                    assert(kept[a].id != kept[b].id);
                }
            }
        }
    }
}

/// The tables are in order: no two relations have the same identifier, what supersedes another is
/// of the same things, no fact is of the holder on both sides, and there are new identifiers
/// enough.
pub open spec fn can_be_retidied(d: Desk, holder: u128) -> bool {
    &&& relations_differ(d.ledger.relations)
    &&& holds_together(d.ledger)
    &&& one_sided(d.ledger, holder)
    &&& none_awaited(d)
    &&& d.supplied(
        enough_for_relations(d.ledger.relations.len(), d.ledger.facts.len() as int),
    )
}

/// A revert reopens what was closed at a fact that left, on every timeline of the target: for each
/// relation of a fact that left which is a state, and on each side on which it is unique. A row
/// that has ended where such a fact was placed, and where none is any more, is struck out, if it
/// supersedes an open fact of the same start; and a present row says again what that fact said.
pub proof fn law_a_revert_reopens_what_was_closed_at_a_fact_that_left(
    d: Desk,
    scope: Scope,
    removed: Seq<u128>,
    r: int,
    t: i64,
    i: int,
    o: int,
)
    requires
        can_be_retidied(d, scope.holder),
        0 <= r < d.ledger.relations.len(),
        d.ledger.relations[r].id == scope.predicate_id,
        d.ledger.relations[r].temporal@ == "state"@,
        scope.side is SubjectSide ==> d.ledger.relations[r].functional,
        scope.side is ObjectSide ==> d.ledger.relations[r].inverse_functional,
        exists|m: int|
            0 <= m < d.ledger.facts.len() && removed.contains((#[trigger] d.ledger.facts[m]).id)
                && d.ledger.facts[m].predicate_id == Some(scope.predicate_id),
        was_closed_at_a_leaver(d.ledger, scope, removed, t, i, o),
    ensures
        was_reopened(
            d.ledger,
            d.retidy(scope.kb_id, scope.holder, removed).ledger,
            i,
            o,
        ),
{
    let l = d.ledger;
    let p = touched_by(l, removed);
    let list = l.relations.filter(p);
    lemma_relations_kept_apart(l.relations, p);
    lemma_enough_for_relations(list.len(), l.relations.len(), l.facts.len() as int);
    assert(l.relations.contains(l.relations[r]));
    assert(p(l.relations[r]));
    lemma_filter_contains(l.relations, p, l.relations[r]);
    let q = choose|q: int| 0 <= q < list.len() && list[q] == l.relations[r];
    assert(belongs(scope, l.facts[o])) by {
        assert(l.facts[i].supersedes == Some(l.facts[o].id));
    }
    lemma_list_reopens(d, scope, list, q, removed, t, i, o);
}

/// Relations in turn: others, then that of the timeline, then others.
#[verifier::rlimit(30)]
proof fn lemma_list_reopens(
    d: Desk,
    scope: Scope,
    list: Seq<RelationType>,
    q: int,
    removed: Seq<u128>,
    t: i64,
    i: int,
    o: int,
)
    requires
        relations_differ(list),
        holds_together(d.ledger),
        one_sided(d.ledger, scope.holder),
        none_awaited(d),
        d.supplied(enough_for_relations(list.len(), d.ledger.facts.len() as int)),
        0 <= q < list.len(),
        list[q].id == scope.predicate_id,
        scope.side is SubjectSide ==> list[q].functional,
        scope.side is ObjectSide ==> list[q].inverse_functional,
        was_closed_at_a_leaver(d.ledger, scope, removed, t, i, o),
        belongs(scope, d.ledger.facts[o]),
    ensures
        was_reopened(
            d.ledger,
            d.retidy_each(scope.kb_id, scope.holder, list, moments(d.ledger, removed)).ledger,
            i,
            o,
        ),
{
    let l = d.ledger;
    let facts = l.facts.len() as int;
    let gone = moments(l, removed);
    let n = enough_for_relations(list.len(), facts);
    let total = facts + n;
    let a = list.take(q);
    let c = list.skip(q + 1);
    let b = seq![list[q]];
    let na = enough_for_relations(a.len(), facts);
    let nb = enough_for_relation(facts + na);
    assert(list =~= (a + b) + c);
    lemma_retidy_both(d, scope.kb_id, scope.holder, a + b, c, gone);
    lemma_retidy_both(d, scope.kb_id, scope.holder, a, b, gone);
    assert forall|k: int| 0 <= k < a.len() implies (#[trigger] a[k]).id != scope.predicate_id by {
        assert(list[k].id != list[q].id);
    }
    assert forall|k: int| 0 <= k < c.len() implies (#[trigger] c[k]).id != scope.predicate_id by {
        assert(c[k] == list[q + 1 + k]);
        assert(list[q].id != list[q + 1 + k].id);
    }
    let next = (a.len() + 1) as nat;
    assert(enough_for_relations(next, facts) == na + nb);
    lemma_enough_for_relations(next, list.len(), facts);
    lemma_enough_split(next, c.len(), facts);
    assert(next + c.len() == list.len());
    let mid = lemma_up_to_own(d, total, n, scope, a, list[q], removed, t, i, o);
    let d1 = d.retidy_each(scope.kb_id, scope.holder, a, gone);
    let d2 = d1.retidy_relation(scope.kb_id, scope.holder, list[q], gone);
    lemma_retidy_one(d1, scope.kb_id, scope.holder, list[q], gone);
    lemma_relations_aside(mid, scope, total, d2, n - na - nb, c, gone);
    let end = d2.retidy_each(scope.kb_id, scope.holder, c, gone);
    lemma_stays_reopened(l, mid, end.ledger, scope, i, o);
}

/// Other relations in turn, and then that of the timeline.
proof fn lemma_up_to_own(
    d: Desk,
    total: int,
    n: int,
    scope: Scope,
    others: Seq<RelationType>,
    r: RelationType,
    removed: Seq<u128>,
    t: i64,
    i: int,
    o: int,
) -> (mid: LedgerModel)
    requires
        holds_together(d.ledger),
        one_sided(d.ledger, scope.holder),
        none_awaited(d),
        d.supplied(n),
        total == d.ledger.facts.len() + n,
        enough_for_relations((others.len() + 1) as nat, d.ledger.facts.len() as int) <= n,
        forall|k: int| 0 <= k < others.len() ==> (#[trigger] others[k]).id != scope.predicate_id,
        r.id == scope.predicate_id,
        scope.side is SubjectSide ==> r.functional,
        scope.side is ObjectSide ==> r.inverse_functional,
        was_closed_at_a_leaver(d.ledger, scope, removed, t, i, o),
        belongs(scope, d.ledger.facts[o]),
    ensures
        is_aside(
            mid,
            scope,
            total,
            d.retidy_each(
                scope.kb_id,
                scope.holder,
                others,
                moments(d.ledger, removed),
            ).retidy_relation(scope.kb_id, scope.holder, r, moments(d.ledger, removed)),
            n - enough_for_relations((others.len() + 1) as nat, d.ledger.facts.len() as int),
        ),
        is_struck_and_said(d.ledger, mid, scope, i, o),
{
    let l = d.ledger;
    let facts = l.facts.len() as int;
    let gone = moments(l, removed);
    let na = enough_for_relations(others.len(), facts);
    let next = (others.len() + 1) as nat;
    lemma_untouched(l, scope);
    lemma_enough_for_relations(others.len(), next, facts);
    lemma_relations_aside(l, scope, total, d, n, others, gone);
    let d1 = d.retidy_each(scope.kb_id, scope.holder, others, gone);
    assert(enough_for_relations(next, facts) == na + enough_for_relation(facts + na));
    if scope.side is SubjectSide {
        lemma_subject_side_reopens(l, total, d1, n - na, scope, r, removed, t, i, o)
    } else {
        lemma_object_side_reopens(l, total, d1, n - na, scope, r, removed, t, i, o)
    }
}

proof fn lemma_retidy_one(
    d: Desk,
    kb_id: u128,
    holder: u128,
    r: RelationType,
    gone: Seq<Option<i64>>,
)
    ensures
        d.retidy_each(kb_id, holder, seq![r], gone) == d.retidy_relation(kb_id, holder, r, gone),
{
    let one = seq![r];
    assert(one.drop_last() =~= Seq::<RelationType>::empty());
    assert(one.last() == r);
    assert(d.retidy_each(kb_id, holder, one.drop_last(), gone) == d);
}

/// A revert touches no other timeline of the target: where a relation is that of no fact that
/// left, or is not a state that is unique on some side, the facts of the target under it stay as
/// they were, and no more are written.
pub proof fn law_a_revert_touches_no_other_relation(d: Desk, scope: Scope, removed: Seq<u128>)
    requires
        can_be_retidied(d, scope.holder),
        forall|r: int|
            0 <= r < d.ledger.relations.len() && (#[trigger] d.ledger.relations[r]).id
                == scope.predicate_id && d.ledger.relations[r].temporal@ == "state"@ && (
            d.ledger.relations[r].functional || d.ledger.relations[r].inverse_functional)
                ==> forall|m: int|
                0 <= m < d.ledger.facts.len() && (#[trigger] d.ledger.facts[m]).predicate_id
                    == Some(scope.predicate_id) ==> !removed.contains(d.ledger.facts[m].id),
    ensures
        untouched(d.ledger, d.retidy(scope.kb_id, scope.holder, removed).ledger, scope),
{
    let l = d.ledger;
    let facts = l.facts.len() as int;
    let p = touched_by(l, removed);
    let list = l.relations.filter(p);
    let n = enough_for_relations(list.len(), facts);
    lemma_relations_kept_apart(l.relations, p);
    lemma_enough_for_relations(list.len(), l.relations.len(), facts);
    lemma_untouched(l, scope);
    assert forall|k: int| 0 <= k < list.len() implies (#[trigger] list[k]).id
        != scope.predicate_id by {
        assert(list.contains(list[k]));
        lemma_filter_contains(l.relations, p, list[k]);
        let r = choose|r: int| 0 <= r < l.relations.len() && l.relations[r] == list[k];
        if list[k].id == scope.predicate_id {
            let m = choose|m: int|
                0 <= m < l.facts.len() && removed.contains((#[trigger] l.facts[m]).id)
                    && l.facts[m].predicate_id == Some(list[k].id);
            assert(l.relations[r].id == scope.predicate_id);
        }
    }
    assert(is_aside(l, scope, facts + n, d, n));
    lemma_relations_aside(l, scope, facts + n, d, n, list, moments(l, removed));
}

/// What is to be reopened was closed at a fact that has left.
proof fn lemma_reopened_was_closed(
    l: LedgerModel,
    scope: Scope,
    removed: Seq<u128>,
    k: int,
)
    requires
        l.distinct(),
        0 <= k < to_reopen(l, scope, moments(l, removed)).len(),
    ensures
        exists|t: i64, i: int, o: int| #[trigger]
            was_closed_at_a_leaver(l, scope, removed, t, i, o) && to_reopen(
                l,
                scope,
                moments(l, removed),
            )[k] == (l.facts[i].id, l.facts[o].id),
{
    let gone = moments(l, removed);
    let rows = timeline(l, scope);
    let ended = rows.filter(abandoned(rows, gone));
    let kept = ended.filter(has_original(l));
    let r = kept[k];
    assert(kept.contains(r));
    lemma_filter_contains(ended, has_original(l), r);
    lemma_filter_contains(rows, abandoned(rows, gone), r);
    lemma_timeline(l, scope);
    let i = choose|i: int| #[trigger] l.stands(scope, i) && l.row(i) == r;
    lemma_found(l, i);
    let t = r.end()->0;
    assert(ends_on(l.facts[i], t));
    let p = placed_among(l, removed);
    let found = l.facts.filter(p);
    let g = choose|g: int| 0 <= g < gone.len() && gone[g] == r.end();
    assert(found.contains(found[g]));
    lemma_filter_contains(l.facts, p, found[g]);
    let m = choose|m: int| 0 <= m < l.facts.len() && l.facts[m] == found[g];
    lemma_starts_on(l, m, t);
    assert(removed.contains(l.facts[m].id) && starts_on(l, m, t));
    assert forall|j: int| #[trigger] is_on(l, scope, j) implies !starts_on(l, j, t) by {
        assert(l.stands(scope, j));
        lemma_starts_on(l, j, t);
        assert(rows.contains(l.row(j)));
        let a = choose|a: int| 0 <= a < rows.len() && rows[a] == l.row(j);
        assert(rows[a].key() != r.end());
    }
    let s = l.facts[i].supersedes->0;
    lemma_first(l.facts, with_id(s));
    let o = choose|o: int| 0 <= o < l.facts.len() && l.facts[o] == l.fact(s)->0;
    assert(was_closed_at_a_leaver(l, scope, removed, t, i, o));
}

/// A timeline from which nothing is to be reopened, and on which nothing is due, stays.
proof fn lemma_side_stays(d: Desk, scope: Scope, removed: Seq<u128>)
    requires
        d.ledger.distinct(),
        forall|t: i64, i: int, o: int|
            !(#[trigger] was_closed_at_a_leaver(d.ledger, scope, removed, t, i, o)),
        change_due(scope.side, timeline(d.ledger, scope), Seq::empty()) is None,
    ensures
        d.retidy_side(scope, moments(d.ledger, removed)) == d,
{
    let pairs = to_reopen(d.ledger, scope, moments(d.ledger, removed));
    if pairs.len() > 0 {
        lemma_reopened_was_closed(d.ledger, scope, removed, 0);
    }
    assert(pairs.map_values(second()) =~= Seq::<u128>::empty());
}

/// A revert reopens nothing else: where on no timeline of the target a row has ended where a fact
/// was placed that has left, and nothing is due, nothing is changed.
pub proof fn law_a_revert_reopens_nothing_else(
    d: Desk,
    kb_id: u128,
    target: u128,
    removed: Seq<u128>,
)
    requires
        d.ledger.distinct(),
        forall|scope: Scope, t: i64, i: int, o: int|
            scope.kb_id == kb_id && scope.holder == target ==> !(
            #[trigger] was_closed_at_a_leaver(d.ledger, scope, removed, t, i, o)),
        forall|scope: Scope|
            scope.kb_id == kb_id && scope.holder == target ==> change_due(
                scope.side,
                #[trigger] timeline(d.ledger, scope),
                Seq::empty(),
            ) is None,
    ensures
        d.retidy(kb_id, target, removed) == d,
{
    lemma_relations_stay(
        d,
        kb_id,
        target,
        removed,
        d.ledger.relations.filter(touched_by(d.ledger, removed)),
    );
}

proof fn lemma_relations_stay(
    d: Desk,
    kb_id: u128,
    target: u128,
    removed: Seq<u128>,
    relations: Seq<RelationType>,
)
    requires
        d.ledger.distinct(),
        forall|scope: Scope, t: i64, i: int, o: int|
            scope.kb_id == kb_id && scope.holder == target ==> !(
            #[trigger] was_closed_at_a_leaver(d.ledger, scope, removed, t, i, o)),
        forall|scope: Scope|
            scope.kb_id == kb_id && scope.holder == target ==> change_due(
                scope.side,
                #[trigger] timeline(d.ledger, scope),
                Seq::empty(),
            ) is None,
    ensures
        d.retidy_each(kb_id, target, relations, moments(d.ledger, removed)) == d,
    decreases relations.len(),
{
    if relations.len() > 0 {
        lemma_relations_stay(d, kb_id, target, removed, relations.drop_last());
        let r = relations.last();
        lemma_side_stays(d, side_of(kb_id, target, r.id, Uniqueness::SubjectSide), removed);
        lemma_side_stays(d, side_of(kb_id, target, r.id, Uniqueness::ObjectSide), removed);
    }
}

/// Placing a fact touches no other timeline of its holder: the facts under another relation, or on
/// the other side, stay as they were, and no more are written.
pub proof fn law_placing_touches_no_other_timeline(
    d: Desk,
    scope: Scope,
    fact_id: u128,
    other: Scope,
)
    requires
        d.supplied(enough(d.ledger.facts.len() as int)),
        holds_together(d.ledger),
        one_sided(d.ledger, scope.holder),
        none_awaited(d),
        are_other(other, scope),
    ensures
        untouched(d.ledger, d.place(scope, fact_id).ledger, other),
{
    let n = enough(d.ledger.facts.len() as int);
    lemma_untouched(d.ledger, other);
    lemma_place_aside(
        d.ledger,
        other,
        d.ledger.facts.len() + n,
        d,
        n,
        scope,
        fact_id,
    );
}

/// What is held once a timeline was tidied is held because the confidence in its second fact is
/// low.
proof fn lemma_held_is_unsure(d: Desk, scope: Scope, held: Seq<(u128, u128)>, rounds: nat)
    requires
        d.supplied(rounds as int),
        attended(d.ledger, held),
    ensures
        attended(
            d.tidy_rounds(scope, held, rounds).ledger,
            d.held_after(scope, held, rounds),
        ),
    decreases rounds,
{
    let rows = timeline(d.ledger, scope);
    if rounds > 0 && change_due(scope.side, rows, held) is Some {
        let (row, next) = change_due(scope.side, rows, held)->0;
        lemma_due(scope.side, rows, held);
        lemma_timeline(d.ledger, scope);
        let i = choose|i: int| #[trigger] d.ledger.stands(scope, i) && d.ledger.row(i) == row;
        let m = choose|m: int| #[trigger] d.ledger.stands(scope, m) && d.ledger.row(m) == next;
        if next.confidence.is_low() {
            lemma_raise(d, scope, scope.kb_id, row.id, next.id, "low_confidence"@);
            lemma_held_attended(d, scope, held, m, row);
            lemma_held_is_unsure(
                d.raise(scope.kb_id, row.id, next.id, "low_confidence"@),
                scope,
                held.push((row.id, next.id)),
                (rounds - 1) as nat,
            );
        } else {
            lemma_close_at(d, scope, i, next);
            lemma_rewritten_attended(d, scope, held, i, next);
            lemma_held_is_unsure(d.close_at(row, next), scope, held, (rounds - 1) as nat);
        }
    }
}

/// Placing facts corrects some rows, and takes no correction back.
proof fn lemma_placing_corrects_more(d: Desk, scope: Scope, ids: Seq<u128>)
    ensures
        d.report.corrected.len() <= d.place_each(scope, ids).report.corrected.len(),
    decreases ids.len(),
{
    if ids.len() > 0 {
        lemma_placing_corrects_more(d, scope, ids.drop_last());
        law_a_report_names_what_was_written(
            d.place_each(scope, ids.drop_last()),
            scope,
            ids.last(),
        );
    }
}

/// A timeline that was tidied anew is tidy: nothing is due on it any more but for pairs of which the
/// confidence in the second fact is low; or as many rows were corrected and pairs held as a
/// timeline is tidied in rounds.
pub proof fn law_a_revert_leaves_nothing_due(d: Desk, scope: Scope, gone: Seq<Option<i64>>)
    requires
        d.supplied(enough_for_side(d.ledger.facts.len() as int)),
        holds_together(d.ledger),
        one_sided(d.ledger, scope.holder),
        none_awaited(d),
    ensures
        ({
            let end = d.retidy_side(scope, gone);
            exists|held: Seq<(u128, u128)>|
                {
                    &&& #[trigger] attended(end.ledger, held)
                    &&& change_due(scope.side, timeline(end.ledger, scope), held) is None
                        || end.report.corrected.len() - d.report.corrected.len() + held.len()
                        >= MAX_TIDY_ROUNDS
                }
        }),
{
    let facts = d.ledger.facts.len() as int;
    let n = enough_for_side(facts);
    let total = facts + n;
    let other = beside(scope);
    let pairs = to_reopen(d.ledger, scope, gone);
    let ids = pairs.map_values(second());
    lemma_enough_for_side(facts);
    lemma_untouched(d.ledger, other);
    lemma_reopened_are_own(d.ledger, scope, gone);
    lemma_reopen_aside(d.ledger, other, total, d, n, scope, pairs);
    let d1 = d.reopen_each(pairs);
    lemma_enough_to_place(ids.len(), facts as nat, facts);
    lemma_place_each_aside(d.ledger, other, total, d1, n, scope, ids);
    let d2 = d1.place_each(scope, ids);
    let none = Seq::<(u128, u128)>::empty();
    let held = d2.held_after(scope, none, MAX_TIDY_ROUNDS as nat);
    let end = d.retidy_side(scope, gone);
    assert(end == d2.tidy(scope));
    assert(attended(d2.ledger, none));
    lemma_held_is_unsure(d2, scope, none, MAX_TIDY_ROUNDS as nat);
    law_tidying_stops_at_rest_or_at_its_limit(d2, scope);
    lemma_reopening_reports_nothing(d, pairs);
    lemma_placing_corrects_more(d1, scope, ids);
    assert(attended(end.ledger, held));
}

proof fn lemma_reopening_reports_nothing(d: Desk, pairs: Seq<(u128, u128)>)
    ensures
        d.reopen_each(pairs).report == d.report,
    decreases pairs.len(),
{
    if pairs.len() > 0 {
        lemma_reopening_reports_nothing(d, pairs.drop_last());
    }
}

/// A fact that is brought back is placed once more among what is left: where it cannot be placed in
/// time, it is with a person together with each open row that says something else. Said of a
/// timeline from which one row is to be reopened.
pub proof fn law_a_reopened_fact_is_placed_again(
    d: Desk,
    scope: Scope,
    removed: Seq<u128>,
    t: i64,
    i: int,
    o: int,
    j: int,
)
    requires
        d.supplied(enough_for_side(d.ledger.facts.len() as int)),
        holds_together(d.ledger),
        one_sided(d.ledger, scope.holder),
        none_awaited(d),
        was_closed_at_a_leaver(d.ledger, scope, removed, t, i, o),
        forall|u: i64, a: int, b: int| #[trigger]
            was_closed_at_a_leaver(d.ledger, scope, removed, u, a, b) ==> a == i,
        !has_time(d.ledger, o),
        is_on(d.ledger, scope, j),
        j != i,
        j != o,
        has_no_end(d.ledger, j),
        !says_same(scope.side, d.ledger.row(j), d.ledger.row(o)),
    ensures
        with_person(
            d.retidy_side(scope, moments(d.ledger, removed)).ledger,
            d.ledger.facts[j].id,
            d.ledger.facts[o].id,
        ),
{
    let l = d.ledger;
    let gone = moments(l, removed);
    let facts = l.facts.len() as int;
    let n = enough_for_side(facts);
    let total = facts + n;
    let other = beside(scope);
    let pairs = to_reopen(l, scope, gone);
    let ids = pairs.map_values(second());
    lemma_untouched(l, scope);
    lemma_untouched(l, other);
    lemma_enough_for_side(facts);
    lemma_still_to_reopen(l, l, scope, removed, t, i, o);
    lemma_one_to_reopen(l, scope, removed, i, o);
    lemma_reopened_are_own(l, scope, gone);
    lemma_reopen_aside(l, other, total, d, n, scope, pairs);
    law_reopening_brings_back_what_was_closed(d, scope, gone, (l.facts[i].id, l.facts[o].id));
    let d1 = d.reopen_each(pairs);
    let l1 = d1.ledger;
    lemma_apart(l, i, j);
    lemma_apart(l, o, j);
    // The reopened fact is on the timeline again, and the other still.
    assert(same_but_invalidated(l.facts[o], l1.facts[o]));
    assert(same_but_invalidated(l.facts[j], l1.facts[j]));
    assert(belongs(scope, l.facts[o])) by {
        assert(l.facts[i].supersedes == Some(l.facts[o].id));
    }
    lemma_first(l1.facts, alive_with_id(l.facts[o].id));
    let m = choose|m: int|
        0 <= m < l1.facts.len() && l1.facts[m] == l1.alive(l.facts[o].id)->0;
    if m != o {
        lemma_apart(l1, m, o);
    }
    assert(is_on(l1, scope, o));
    assert(pairs.drop_last() =~= Seq::<(u128, u128)>::empty());
    assert(d.reopen_each(pairs.drop_last()) == d);
    law_invalidating_strikes_one_fact(l, l.facts[i].id, d.now);
    let struck = l.commit(ChangeModel::Invalidate { fact_id: l.facts[i].id, at: d.now });
    law_restoring_brings_back_one_fact(struck, l.facts[o].id);
    assert(same_but_invalidated(l.facts[j], struck.facts[j]));
    assert(is_on(l1, scope, j));
    assert(l1.row(o) == l.row(o) && l1.row(j) == l.row(j));
    lemma_has_time(l, o);
    lemma_has_time(l1, o);
    lemma_timeline_len(l1, scope);
    lemma_enough_to_place(1, facts as nat, facts);
    assert(enough_to_place(1, facts) == enough(facts)) by {
        assert(enough_to_place(0, facts) == 0);
    }
    law_without_a_time_all_that_is_open_is_asked_of(d1, scope, o, j);
    let id = l.facts[o].id;
    let d2 = d1.place(scope, id);
    assert(d1.place_each(scope, ids) == d2) by {
        assert(ids =~= seq![id]);
        assert(ids.drop_last() =~= Seq::<u128>::empty());
        assert(d1.place_each(scope, ids.drop_last()) == d1);
    }
    lemma_place_aside(l, other, total, d1, n, scope, id);
    let left = n - enough(total - n);
    let p = stays_asked(l.facts[j].id, id, total);
    lemma_stays_asked(l.facts[j].id, id, total);
    assert(p(d2, left));
    lemma_tidy(p, any_row(), total, d2, left, scope, Seq::empty(), MAX_TIDY_ROUNDS as nat);
}

/// Where only the fact `i` was closed at a fact that has left, one pair is to be reopened.
proof fn lemma_one_to_reopen(
    l: LedgerModel,
    scope: Scope,
    removed: Seq<u128>,
    i: int,
    o: int,
)
    requires
        l.distinct(),
        0 <= i < l.facts.len(),
        to_reopen(l, scope, moments(l, removed)).contains((l.facts[i].id, l.facts[o].id)),
        forall|u: i64, a: int, b: int| #[trigger]
            was_closed_at_a_leaver(l, scope, removed, u, a, b) ==> a == i,
    ensures
        to_reopen(l, scope, moments(l, removed)) == seq![(l.facts[i].id, l.facts[o].id)],
{
    let gone = moments(l, removed);
    let rows = timeline(l, scope);
    let ended = rows.filter(abandoned(rows, gone));
    let kept = ended.filter(has_original(l));
    let pairs = to_reopen(l, scope, gone);
    lemma_timeline_apart(l, scope);
    lemma_filter_apart(rows, abandoned(rows, gone));
    lemma_filter_apart(ended, has_original(l));
    let k = choose|k: int|
        0 <= k < pairs.len() && pairs[k] == (l.facts[i].id, l.facts[o].id);
    assert forall|m: int| 0 <= m < pairs.len() implies (#[trigger] pairs[m]).0 == l.facts[i].id by {
        lemma_reopened_was_closed(l, scope, removed, m);
    }
    assert forall|m: int| 0 <= m < kept.len() implies (#[trigger] kept[m]).id == l.facts[i].id by {
        assert(pairs[m].0 == kept[m].id);
    }
    if pairs.len() > 1 {
        assert(kept[0].id != kept[1].id);
    }
    assert(pairs =~= seq![(l.facts[i].id, l.facts[o].id)]);
}

} // verus!
