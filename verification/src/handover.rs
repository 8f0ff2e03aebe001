//! The shape of a tidied timeline: each row ends where the nearest later one begins that says
//! something else.

use crate::engine::Desk;
use crate::identity::{lemma_apart, lemma_close_at, lemma_filter_contains, lemma_timeline};
use crate::ledger::{conflict_between, pending_between, LedgerModel};
use crate::order::{first, lemma_arrange, lemma_first, no_later};
use crate::rewrite::raised;
use crate::timeline::{
    another_at, by_time, change_due, closing, covers, cut_at, cutting, follows, has_key,
    in_time_order, successor, timeline, to_cut, RowModel, Scope, Uniqueness,
};
use crate::validity::truncated_to;
use vstd::prelude::*;

verus! {

/// The rows in the order of time are those that can be placed in time, sorted.
pub proof fn lemma_time_order(rows: Seq<RowModel>)
    ensures
        forall|r: RowModel|
            #[trigger] in_time_order(rows).contains(r) <==> rows.contains(r) && r.key() is Some,
        forall|i: int, j: int|
            0 <= i <= j < in_time_order(rows).len() ==> (#[trigger] in_time_order(
                rows,
            )[i]).key()->0 <= (#[trigger] in_time_order(rows)[j]).key()->0,
{
    let kept = rows.filter(has_key());
    lemma_arrange(kept, by_time());
    assert forall|r: RowModel|
        #[trigger] in_time_order(rows).contains(r) <==> rows.contains(r) && r.key() is Some by {
        lemma_filter_contains(rows, has_key(), r);
    }
    assert forall|i: int, j: int| 0 <= i <= j < in_time_order(rows).len() implies (
    #[trigger] in_time_order(rows)[i]).key()->0 <= (#[trigger] in_time_order(rows)[j]).key()->0 by {
        let ordered = in_time_order(rows);
        assert(no_later(by_time()(ordered[i]), by_time()(ordered[j])));
    }
}

/// The successor of a row is the nearest of those that are later and say something else.
pub proof fn lemma_successor(side: Uniqueness, rows: Seq<RowModel>, x: RowModel)
    ensures
        successor(side, rows, x) is None ==> forall|y: RowModel|
            #[trigger] rows.contains(y) ==> !follows(side, x)(y),
        successor(side, rows, x) is Some ==> {
            let s = successor(side, rows, x)->0;
            &&& rows.contains(s)
            &&& follows(side, x)(s)
            &&& forall|y: RowModel|
                #[trigger] rows.contains(y) && follows(side, x)(y) ==> s.key()->0 <= y.key()->0
        },
{
    let ordered = in_time_order(rows);
    let p = follows(side, x);
    lemma_time_order(rows);
    lemma_first(ordered, p);
    if successor(side, rows, x) is None {
        assert forall|y: RowModel| #[trigger] rows.contains(y) implies !p(y) by {
            if p(y) {
                assert(ordered.contains(y));
                let i = choose|i: int| 0 <= i < ordered.len() && ordered[i] == y;
                assert(!p(ordered[i]));
            }
        }
    } else {
        let s = successor(side, rows, x)->0;
        assert(ordered.contains(s));
        let i = choose|i: int|
            0 <= i < ordered.len() && #[trigger] ordered[i] == s && forall|j: int|
                0 <= j < i ==> !p(#[trigger] ordered[j]);
        assert forall|y: RowModel| #[trigger] rows.contains(y) && p(y) implies s.key()->0
            <= y.key()->0 by {
            assert(ordered.contains(y));
            let j = choose|j: int| 0 <= j < ordered.len() && ordered[j] == y;
            assert(p(ordered[j]));
            assert(ordered[i].key()->0 <= ordered[j].key()->0);
        }
    }
}

/// Nothing is due on a timeline but what is held: no row covers another, and no open row has a
/// successor.
pub open spec fn at_rest(
    side: Uniqueness,
    rows: Seq<RowModel>,
    held: Seq<(u128, u128)>,
) -> bool {
    &&& forall|c: RowModel, x: RowModel|
        #![trigger rows.contains(c), rows.contains(x)]
        rows.contains(c) && rows.contains(x) && covers(side, rows, c, x) ==> held.contains(
            (c.id, x.id),
        )
    &&& forall|x: RowModel|
        #[trigger] rows.contains(x) && x.key() is Some && x.is_open() && successor(
            side,
            rows,
            x,
        ) is Some ==> held.contains((x.id, successor(side, rows, x)->0.id))
}

/// Where nothing is due, the timeline is at rest.
pub proof fn lemma_nothing_due(side: Uniqueness, rows: Seq<RowModel>, held: Seq<(u128, u128)>)
    ensures
        change_due(side, rows, held) is None <==> at_rest(side, rows, held),
{
    let ordered = in_time_order(rows);
    let cut = cutting(side, rows, held);
    let close = closing(side, rows, held);
    lemma_time_order(rows);
    lemma_first(ordered, cut);
    lemma_first(ordered, close);
    if change_due(side, rows, held) is None {
        assert forall|c: RowModel, x: RowModel|
            #![trigger rows.contains(c), rows.contains(x)]
            rows.contains(c) && rows.contains(x) && covers(side, rows, c, x) implies held.contains(
            (c.id, x.id),
        ) by {
            assert(ordered.contains(x));
            assert(ordered.contains(c));
            let i = choose|i: int| 0 <= i < ordered.len() && ordered[i] == x;
            assert(!cut(ordered[i]));
            lemma_first(ordered, to_cut(side, rows, held, x));
            let k = choose|k: int| 0 <= k < ordered.len() && ordered[k] == c;
            assert(!to_cut(side, rows, held, x)(ordered[k]));
        }
        assert forall|x: RowModel|
            #[trigger] rows.contains(x) && x.key() is Some && x.is_open() && successor(
                side,
                rows,
                x,
            ) is Some implies held.contains((x.id, successor(side, rows, x)->0.id)) by {
            assert(ordered.contains(x));
            let i = choose|i: int| 0 <= i < ordered.len() && ordered[i] == x;
            assert(!close(ordered[i]));
        }
    } else if first(ordered, cut) is Some {
        let x = first(ordered, cut)->0;
        assert(ordered.contains(x));
        assert(cut_at(side, rows, held, x) is Some);
        lemma_first(ordered, to_cut(side, rows, held, x));
        let c = cut_at(side, rows, held, x)->0;
        assert(ordered.contains(c));
        assert(rows.contains(c) && rows.contains(x));
    } else {
        let x = first(ordered, close)->0;
        assert(ordered.contains(x));
        assert(rows.contains(x));
    }
}

/// What is due: a row, and the nearest later row that says something else, but for those that are
/// held.
pub proof fn lemma_due(side: Uniqueness, rows: Seq<RowModel>, held: Seq<(u128, u128)>)
    requires
        change_due(side, rows, held) is Some,
    ensures
        ({
            let (row, next) = change_due(side, rows, held)->0;
            &&& rows.contains(row)
            &&& rows.contains(next)
            &&& row.key() is Some
            &&& follows(side, row)(next)
            &&& !held.contains((row.id, next.id))
            &&& covers(side, rows, row, next) || (row.is_open() && successor(side, rows, row)
                == Some(next))
            &&& forall|z: RowModel|
                #[trigger] rows.contains(z) && follows(side, row)(z) && z.key()->0 < next.key()->0
                    ==> held.contains((row.id, z.id))
        }),
{
    let ordered = in_time_order(rows);
    let cut = cutting(side, rows, held);
    let close = closing(side, rows, held);
    lemma_time_order(rows);
    lemma_first(ordered, cut);
    lemma_first(ordered, close);
    let (row, next) = change_due(side, rows, held)->0;
    if first(ordered, cut) is Some {
        assert(next == first(ordered, cut)->0);
        lemma_first(ordered, to_cut(side, rows, held, next));
        assert(ordered.contains(next));
        assert(ordered.contains(row));
        assert(covers(side, rows, row, next));
        let i = choose|i: int|
            0 <= i < ordered.len() && #[trigger] ordered[i] == next && forall|j: int|
                0 <= j < i ==> !cut(#[trigger] ordered[j]);
        assert forall|z: RowModel|
            #[trigger] rows.contains(z) && follows(side, row)(z) && z.key()->0
                < next.key()->0 implies held.contains((row.id, z.id)) by {
            assert(ordered.contains(z));
            let j = choose|j: int| 0 <= j < ordered.len() && ordered[j] == z;
            if i <= j {
                assert(ordered[i].key()->0 <= ordered[j].key()->0);
            }
            assert(!cut(ordered[j]));
            assert(covers(side, rows, row, z));
            lemma_first(ordered, to_cut(side, rows, held, z));
            let k = choose|k: int| 0 <= k < ordered.len() && ordered[k] == row;
            assert(!to_cut(side, rows, held, z)(ordered[k]));
        }
    } else {
        assert(row == first(ordered, close)->0);
        assert(ordered.contains(row));
        lemma_successor(side, rows, row);
    }
}

/// What a row says but for its identifier and its end.
pub open spec fn says(r: RowModel) -> RowModel {
    RowModel { id: 0, valid_to: None, valid_to_precision: None, attested_to: None, ..r }
}

/// The start of a row is as sharp as its precision tells: cutting it down changes nothing.
pub open spec fn is_sharp(r: RowModel) -> bool {
    r.valid_from is Some ==> truncated_to(
        r.valid_from->0,
        Some(
            match r.valid_from_precision {
                Some(p) => p,
                None => "day"@,
            },
        ),
    ) == r.valid_from->0
}

/// All rows that can be placed in time have sharp starts.
pub open spec fn all_sharp(rows: Seq<RowModel>) -> bool {
    forall|r: RowModel| #[trigger] rows.contains(r) && r.key() is Some ==> is_sharp(r)
}

/// `r` has ended where a later row starts that says something else.
pub open spec fn gives_way(side: Uniqueness, rows: Seq<RowModel>, r: RowModel) -> bool {
    &&& !r.is_open()
    &&& exists|y: RowModel|
        #[trigger] rows.contains(y) && follows(side, r)(y) && y.key() == r.end()
}

/// The two facts were left to a person, in one order or the other.
pub open spec fn with_person(l: LedgerModel, a: u128, b: u128) -> bool {
    ||| first(l.conflicts, conflict_between(a, b)) is Some
    ||| first(l.conflicts, conflict_between(b, a)) is Some
}

/// `r` has its place: it ends where its successor starts, and is open where it has none. Where
/// the confidence in the successor is low, the two may be with a person instead.
pub open spec fn in_place(
    side: Uniqueness,
    l: LedgerModel,
    rows: Seq<RowModel>,
    r: RowModel,
) -> bool {
    match successor(side, rows, r) {
        None => r.is_open(),
        Some(s) => {
            ||| !r.is_open() && r.end() == s.key()
            ||| s.confidence.is_low() && with_person(l, r.id, s.id)
        },
    }
}

/// The rows after `old` was rewritten to `new`.
pub open spec fn replaced(
    rows: Seq<RowModel>,
    after: Seq<RowModel>,
    old: RowModel,
    new: RowModel,
) -> bool {
    &&& rows.contains(old)
    &&& says(new) == says(old)
    &&& forall|r: RowModel|
        #[trigger] after.contains(r) <==> r == new || (rows.contains(r) && r.id != old.id)
    &&& forall|r: RowModel| #[trigger] rows.contains(r) ==> r.id != new.id
    &&& forall|r: RowModel| #[trigger] rows.contains(r) && r.id == old.id ==> r == old
}

/// On a timeline an identifier tells the row.
pub proof fn lemma_rows_identified(l: LedgerModel, scope: Scope)
    requires
        l.distinct(),
    ensures
        forall|a: RowModel, b: RowModel|
            #![trigger timeline(l, scope).contains(a), timeline(l, scope).contains(b)]
            timeline(l, scope).contains(a) && timeline(l, scope).contains(b) && a.id == b.id ==> a
                == b,
{
    lemma_timeline(l, scope);
    assert forall|a: RowModel, b: RowModel|
        #![trigger timeline(l, scope).contains(a), timeline(l, scope).contains(b)]
        timeline(l, scope).contains(a) && timeline(l, scope).contains(b) && a.id == b.id implies a
        == b by {
        let i = choose|i: int| #[trigger] l.stands(scope, i) && l.row(i) == a;
        let j = choose|j: int| #[trigger] l.stands(scope, j) && l.row(j) == b;
        if i != j {
            lemma_apart(l, i, j);
        }
    }
}

/// Closing a row of a timeline at another row of it.
pub proof fn lemma_replaced(d: Desk, scope: Scope, i: int, next: RowModel)
    requires
        d.supplied(1),
        d.ledger.stands(scope, i),
    ensures
        ({
            let n = d.ledger.facts.len() as int;
            let after = d.close_at(d.ledger.row(i), next);
            let new = after.ledger.row(n);
            &&& replaced(
                timeline(d.ledger, scope),
                timeline(after.ledger, scope),
                d.ledger.row(i),
                new,
            )
            &&& !new.is_open()
            &&& next.key() is Some && is_sharp(next) ==> new.end() == next.key()
            &&& after.supplied(d.ids.len() - 1)
            &&& after.now == d.now
            &&& after.ledger.conflicts == d.ledger.conflicts
        }),
{
    let l = d.ledger;
    let n = l.facts.len() as int;
    let after = d.close_at(l.row(i), next);
    let l1 = after.ledger;
    let old = l.row(i);
    let new = l1.row(n);
    let rows = timeline(l, scope);
    let rows1 = timeline(l1, scope);
    lemma_close_at(d, scope, i, next);
    lemma_timeline(l, scope);
    lemma_timeline(l1, scope);
    lemma_rows_identified(l, scope);
    assert(rows.contains(old));
    assert(says(new) == says(old));
    assert forall|r: RowModel|
        #[trigger] rows1.contains(r) <==> r == new || (rows.contains(r) && r.id != old.id) by {
        if rows1.contains(r) {
            let j = choose|j: int| #[trigger] l1.stands(scope, j) && l1.row(j) == r;
            if j < n {
                assert(l.stands(scope, j) && j != i);
                assert(l1.row(j) == l.row(j));
                assert(rows.contains(r));
                lemma_apart(l, i, j);
            }
        }
        if r == new {
            assert(l1.stands(scope, n));
        }
        if rows.contains(r) && r.id != old.id {
            let j = choose|j: int| #[trigger] l.stands(scope, j) && l.row(j) == r;
            assert(j != i);
            assert(l1.stands(scope, j));
            assert(l1.row(j) == l.row(j));
        }
    }
    assert forall|r: RowModel| #[trigger] rows.contains(r) implies r.id != new.id by {
        let j = choose|j: int| #[trigger] l.stands(scope, j) && l.row(j) == r;
        assert(l.unused(d.ids[0]));
        assert(l.facts[j].id != d.ids[0]);
    }
}

/// A row that gives way still does after another was rewritten.
pub proof fn lemma_still_gives_way(
    side: Uniqueness,
    rows: Seq<RowModel>,
    after: Seq<RowModel>,
    old: RowModel,
    new: RowModel,
    r: RowModel,
)
    requires
        replaced(rows, after, old, new),
        rows.contains(r),
        r.id != old.id,
    ensures
        gives_way(side, rows, r) <==> gives_way(side, after, r),
{
    if gives_way(side, rows, r) {
        let y = choose|y: RowModel|
            #[trigger] rows.contains(y) && follows(side, r)(y) && y.key() == r.end();
        if y.id == old.id {
            assert(after.contains(new));
            assert(follows(side, r)(new));
        } else {
            assert(after.contains(y));
        }
    }
    if gives_way(side, after, r) {
        let y = choose|y: RowModel|
            #[trigger] after.contains(y) && follows(side, r)(y) && y.key() == r.end();
        if y == new {
            assert(rows.contains(old));
            assert(follows(side, r)(old));
        } else {
            assert(rows.contains(y));
        }
    }
}

/// Where rows start does not change when a row is rewritten.
pub proof fn lemma_still_another_at(
    rows: Seq<RowModel>,
    after: Seq<RowModel>,
    old: RowModel,
    new: RowModel,
    id: u128,
    t: i64,
)
    requires
        replaced(rows, after, old, new),
        id != old.id,
        id != new.id,
    ensures
        another_at(rows, id, t) <==> another_at(after, id, t),
{
    if another_at(rows, id, t) {
        let i = choose|i: int|
            0 <= i < rows.len() && (#[trigger] rows[i]).id != id && rows[i].key() == Some(t);
        let y = rows[i];
        assert(rows.contains(y));
        let z = if y.id == old.id {
            new
        } else {
            y
        };
        assert(after.contains(z));
        let k = choose|k: int| 0 <= k < after.len() && after[k] == z;
        assert(after[k].id != id && after[k].key() == Some(t));
    }
    if another_at(after, id, t) {
        let i = choose|i: int|
            0 <= i < after.len() && (#[trigger] after[i]).id != id && after[i].key() == Some(t);
        let y = after[i];
        assert(after.contains(y));
        let z = if y == new {
            old
        } else {
            y
        };
        assert(rows.contains(z));
        let k = choose|k: int| 0 <= k < rows.len() && rows[k] == z;
        assert(rows[k].id != id && rows[k].key() == Some(t));
    }
}

/// The facts, their evidence and the documents tell a timeline.
pub proof fn lemma_same_timeline(l: LedgerModel, other: LedgerModel, scope: Scope)
    requires
        other.facts == l.facts,
        other.evidence == l.evidence,
        other.documents == l.documents,
    ensures
        timeline(other, scope) == timeline(l, scope),
        forall|i: int| #[trigger] other.row(i) == l.row(i),
{
    assert(timeline(other, scope) =~= timeline(l, scope));
}

/// Facts that are with a person already were left to one.
pub proof fn lemma_asked(l: LedgerModel, old_fact_id: u128, new_fact_id: u128, at: i64)
    requires
        l.is_asked(old_fact_id, new_fact_id, at),
    ensures
        with_person(l, old_fact_id, new_fact_id),
        !l.is_pending(new_fact_id, old_fact_id) ==> first(
            l.conflicts,
            conflict_between(old_fact_id, new_fact_id),
        ) is Some,
{
    let (a, b) = if l.is_pending(new_fact_id, old_fact_id) {
        (new_fact_id, old_fact_id)
    } else {
        (old_fact_id, new_fact_id)
    };
    let p = pending_between(a, b);
    let q = conflict_between(a, b);
    lemma_first(l.conflicts, p);
    lemma_first(l.conflicts, q);
    let k = choose|k: int| 0 <= k < l.conflicts.len() && l.conflicts[k] == first(l.conflicts, p)->0;
    assert(q(l.conflicts[k]));
}

/// Leaving two facts to a person changes no fact.
pub proof fn lemma_raise(
    d: Desk,
    scope: Scope,
    kb_id: u128,
    old_fact_id: u128,
    new_fact_id: u128,
    reason: Seq<char>,
)
    requires
        d.supplied(1),
    ensures
        ({
            let after = d.raise(kb_id, old_fact_id, new_fact_id, reason);
            &&& after.supplied(d.ids.len() - 1)
            &&& after.now == d.now
            &&& after.ledger.facts == d.ledger.facts
            &&& after.ledger.evidence == d.ledger.evidence
            &&& after.ledger.documents == d.ledger.documents
            &&& timeline(after.ledger, scope) == timeline(d.ledger, scope)
            &&& with_person(after.ledger, old_fact_id, new_fact_id)
            &&& forall|a: u128, b: u128|
                with_person(d.ledger, a, b) ==> #[trigger] with_person(after.ledger, a, b)
        }),
{
    let after = d.raise(kb_id, old_fact_id, new_fact_id, reason);
    let c = raised(d.ids[0], kb_id, old_fact_id, new_fact_id, reason, d.now);
    let p = conflict_between(old_fact_id, new_fact_id);
    lemma_same_timeline(d.ledger, after.ledger, scope);
    if d.ledger.is_asked(old_fact_id, new_fact_id, d.now) {
        lemma_asked(d.ledger, old_fact_id, new_fact_id, d.now);
    } else {
        if !(first(d.ledger.conflicts, p) is Some) {
            assert(after.ledger.conflicts == d.ledger.conflicts.push(c));
            assert(after.ledger.conflicts.last() == c);
            assert(after.ledger.conflicts.drop_last() =~= d.ledger.conflicts);
            assert(p(c));
        }
        assert forall|a: u128, b: u128| with_person(d.ledger, a, b) implies #[trigger] with_person(
            after.ledger,
            a,
            b,
        ) by {
            assert(after.ledger.conflicts == d.ledger.conflicts
                || after.ledger.conflicts.drop_last() =~= d.ledger.conflicts);
        }
        assert forall|k: int| 0 <= k < after.ids.len() implies after.ledger.unused(
            #[trigger] after.ids[k],
        ) by {
            assert(after.ids[k] == d.ids[k + 1]);
            assert(d.ledger.unused(d.ids[k + 1]));
        }
        assert forall|a: int, b: int|
            0 <= a < after.ids.len() && 0 <= b < after.ids.len() && a != b implies after.ids[a]
            != after.ids[b] by {
            assert(after.ids[a] == d.ids[a + 1]);
            assert(after.ids[b] == d.ids[b + 1]);
        }
    }
}

impl Desk {
    /// What is held once a timeline was tidied for some rounds.
    pub open spec fn held_after(
        self,
        scope: Scope,
        held: Seq<(u128, u128)>,
        rounds: nat,
    ) -> Seq<(u128, u128)>
        decreases rounds,
    {
        if rounds == 0 {
            held
        } else {
            match change_due(scope.side, timeline(self.ledger, scope), held) {
                None => held,
                Some((row, next)) => if next.confidence.is_low() {
                    self.raise(scope.kb_id, row.id, next.id, "low_confidence"@).held_after(
                        scope,
                        held.push((row.id, next.id)),
                        (rounds - 1) as nat,
                    )
                } else {
                    self.close_at(row, next).held_after(scope, held, (rounds - 1) as nat)
                },
            }
        }
    }

    /// In how many rounds something was due.
    pub open spec fn rounds_taken(
        self,
        scope: Scope,
        held: Seq<(u128, u128)>,
        rounds: nat,
    ) -> nat
        decreases rounds,
    {
        if rounds == 0 {
            0
        } else {
            match change_due(scope.side, timeline(self.ledger, scope), held) {
                None => 0,
                Some((row, next)) => if next.confidence.is_low() {
                    1 + self.raise(scope.kb_id, row.id, next.id, "low_confidence"@).rounds_taken(
                        scope,
                        held.push((row.id, next.id)),
                        (rounds - 1) as nat,
                    )
                } else {
                    1 + self.close_at(row, next).rounds_taken(scope, held, (rounds - 1) as nat)
                },
            }
        }
    }

    /// Tidying a timeline for some rounds brings it to rest.
    pub open spec fn comes_to_rest(
        self,
        scope: Scope,
        held: Seq<(u128, u128)>,
        rounds: nat,
    ) -> bool {
        at_rest(
            scope.side,
            timeline(self.tidy_rounds(scope, held, rounds).ledger, scope),
            self.held_after(scope, held, rounds),
        )
    }
}

/// A row that tidying has no reason to touch: it cannot be placed in time, or has an end at which
/// no other row starts, as one has that the text states.
pub open spec fn out_of_reach(rows: Seq<RowModel>, r: RowModel) -> bool {
    r.key() is None || (!r.is_open() && (r.end() is None || !another_at(
        rows,
        r.id,
        r.end()->0,
    )))
}

/// Some row says what `r` says, but for its identifier and its end.
#[verifier::opaque]
pub open spec fn is_said(rows: Seq<RowModel>, r: RowModel) -> bool {
    exists|s: RowModel| #[trigger] rows.contains(s) && says(s) == says(r)
}

/// Tidying kept what the rows say, and the rows that it has no reason to touch.
pub open spec fn keeps_rows(rows: Seq<RowModel>, after: Seq<RowModel>) -> bool {
    &&& forall|r: RowModel| #[trigger] rows.contains(r) && out_of_reach(rows, r) ==> after.contains(r)
    &&& forall|r: RowModel| #[trigger] rows.contains(r) ==> is_said(after, r)
    &&& forall|r: RowModel| #[trigger] after.contains(r) ==> is_said(rows, r)
}

proof fn lemma_keeps_same(rows: Seq<RowModel>)
    ensures
        keeps_rows(rows, rows),
{
    reveal(is_said);
}

proof fn lemma_keeps_after(
    rows: Seq<RowModel>,
    mid: Seq<RowModel>,
    after: Seq<RowModel>,
    old: RowModel,
    new: RowModel,
)
    requires
        replaced(rows, mid, old, new),
        !out_of_reach(rows, old),
        keeps_rows(mid, after),
    ensures
        keeps_rows(rows, after),
{
    assert forall|r: RowModel| #[trigger]
        rows.contains(r) && out_of_reach(rows, r) implies after.contains(r) by {
        assert(r.id != old.id);
        assert(mid.contains(r));
        if r.end() is Some {
            lemma_still_another_at(rows, mid, old, new, r.id, r.end()->0);
        }
        assert(out_of_reach(mid, r));
    }
    assert forall|r: RowModel| #[trigger] rows.contains(r) implies is_said(after, r) by {
        let m = if r.id == old.id {
            new
        } else {
            r
        };
        assert(mid.contains(m));
        assert(is_said(after, m));
        reveal(is_said);
    }
    assert forall|s: RowModel| #[trigger] after.contains(s) implies is_said(rows, s) by {
        assert(is_said(mid, s));
        reveal(is_said);
        let m = choose|m: RowModel| #[trigger] mid.contains(m) && says(m) == says(s);
        let r = if m == new {
            old
        } else {
            m
        };
        assert(rows.contains(r) && says(r) == says(s));
    }
}

/// Tidying for some rounds keeps what the rows say, and the rows that it has no reason to touch.
pub proof fn lemma_tidy_keeps(d: Desk, scope: Scope, held: Seq<(u128, u128)>, rounds: nat)
    requires
        d.supplied(rounds as int),
    ensures
        keeps_rows(
            timeline(d.ledger, scope),
            timeline(d.tidy_rounds(scope, held, rounds).ledger, scope),
        ),
        d.tidy_rounds(scope, held, rounds).supplied(d.ids.len() - rounds),
    decreases rounds,
{
    let rows = timeline(d.ledger, scope);
    lemma_keeps_same(rows);
    if rounds > 0 && change_due(scope.side, rows, held) is Some {
        let (row, next) = change_due(scope.side, rows, held)->0;
        lemma_due(scope.side, rows, held);
        lemma_timeline(d.ledger, scope);
        let i = choose|i: int| #[trigger] d.ledger.stands(scope, i) && d.ledger.row(i) == row;
        if next.confidence.is_low() {
            lemma_raise(d, scope, scope.kb_id, row.id, next.id, "low_confidence"@);
            let mid = d.raise(scope.kb_id, row.id, next.id, "low_confidence"@);
            lemma_tidy_keeps(mid, scope, held.push((row.id, next.id)), (rounds - 1) as nat);
        } else {
            lemma_replaced(d, scope, i, next);
            let mid = d.close_at(row, next);
            let new = mid.ledger.row(d.ledger.facts.len() as int);
            lemma_tidy_keeps(mid, scope, held, (rounds - 1) as nat);
            lemma_keeps_after(
                rows,
                timeline(mid.ledger, scope),
                timeline(mid.tidy_rounds(scope, held, (rounds - 1) as nat).ledger, scope),
                row,
                new,
            );
        }
    }
}

/// Each pair is with a person, and the confidence in the second fact is low.
pub open spec fn attended(l: LedgerModel, held: Seq<(u128, u128)>) -> bool {
    forall|a: u128, b: u128|
        #[trigger] held.contains((a, b)) ==> with_person(l, a, b) && exists|i: int|
            0 <= i < l.facts.len() && (#[trigger] l.facts[i]).id == b
                && l.facts[i].confidence.is_low()
}

/// A pair that was left to a person because the confidence in the fact `m` is low may be held.
pub proof fn lemma_held_attended(
    d: Desk,
    scope: Scope,
    held: Seq<(u128, u128)>,
    m: int,
    row: RowModel,
)
    requires
        d.supplied(1),
        attended(d.ledger, held),
        0 <= m < d.ledger.facts.len(),
        d.ledger.facts[m].confidence.is_low(),
    ensures
        attended(
            d.raise(scope.kb_id, row.id, d.ledger.facts[m].id, "low_confidence"@).ledger,
            held.push((row.id, d.ledger.facts[m].id)),
        ),
{
    let next_id = d.ledger.facts[m].id;
    lemma_raise(d, scope, scope.kb_id, row.id, next_id, "low_confidence"@);
    let mid = d.raise(scope.kb_id, row.id, next_id, "low_confidence"@);
    let longer = held.push((row.id, next_id));
    assert forall|a: u128, b: u128| #[trigger] longer.contains((a, b)) implies with_person(
        mid.ledger,
        a,
        b,
    ) && exists|k: int|
        0 <= k < mid.ledger.facts.len() && (#[trigger] mid.ledger.facts[k]).id == b
            && mid.ledger.facts[k].confidence.is_low() by {
        if (a, b) == (row.id, next_id) {
            assert(mid.ledger.facts[m].id == b);
        } else {
            let k = choose|k: int| 0 <= k < longer.len() && longer[k] == (a, b);
            assert(held[k] == (a, b));
            assert(held.contains((a, b)));
            let q = choose|q: int|
                0 <= q < d.ledger.facts.len() && (#[trigger] d.ledger.facts[q]).id == b
                    && d.ledger.facts[q].confidence.is_low();
            assert(mid.ledger.facts[q].id == b);
        }
    }
}

/// What is held stays attended when a row is closed.
pub proof fn lemma_rewritten_attended(
    d: Desk,
    scope: Scope,
    held: Seq<(u128, u128)>,
    i: int,
    next: RowModel,
)
    requires
        d.supplied(1),
        attended(d.ledger, held),
        d.ledger.stands(scope, i),
    ensures
        attended(d.close_at(d.ledger.row(i), next).ledger, held),
{
    let mid = d.close_at(d.ledger.row(i), next);
    lemma_close_at(d, scope, i, next);
    lemma_replaced(d, scope, i, next);
    assert forall|a: u128, b: u128| #[trigger] held.contains((a, b)) implies with_person(
        mid.ledger,
        a,
        b,
    ) && exists|k: int|
        0 <= k < mid.ledger.facts.len() && (#[trigger] mid.ledger.facts[k]).id == b
            && mid.ledger.facts[k].confidence.is_low() by {
        assert(with_person(d.ledger, a, b));
        let q = choose|q: int|
            0 <= q < d.ledger.facts.len() && (#[trigger] d.ledger.facts[q]).id == b
                && d.ledger.facts[q].confidence.is_low();
        if q != i {
            assert(mid.ledger.facts[q] == d.ledger.facts[q]);
        }
        assert(mid.ledger.facts[q].id == b && mid.ledger.facts[q].confidence.is_low());
    }
}

/// Sharp starts stay sharp when a row is closed.
pub proof fn lemma_sharp_kept(d: Desk, scope: Scope, i: int, next: RowModel)
    requires
        d.supplied(1),
        d.ledger.stands(scope, i),
        all_sharp(timeline(d.ledger, scope)),
    ensures
        all_sharp(timeline(d.close_at(d.ledger.row(i), next).ledger, scope)),
{
    let mid = d.close_at(d.ledger.row(i), next);
    let rows = timeline(d.ledger, scope);
    let between = timeline(mid.ledger, scope);
    let new = mid.ledger.row(d.ledger.facts.len() as int);
    lemma_replaced(d, scope, i, next);
    assert forall|r: RowModel| #[trigger] between.contains(r) && r.key() is Some implies is_sharp(
        r,
    ) by {
        if r == new {
            assert(rows.contains(d.ledger.row(i)));
        } else {
            assert(rows.contains(r));
        }
    }
}

/// Each row that can be placed in time has its place, unless it had an end before that no other
/// row explains.
pub open spec fn all_in_place(
    side: Uniqueness,
    rows: Seq<RowModel>,
    l: LedgerModel,
    after: Seq<RowModel>,
) -> bool {
    forall|r: RowModel| #[trigger]
        after.contains(r) && r.key() is Some ==> {
            ||| in_place(side, l, after, r)
            ||| rows.contains(r) && !r.is_open() && !gives_way(side, rows, r)
        }
}

proof fn lemma_rest_in_place(l: LedgerModel, scope: Scope, held: Seq<(u128, u128)>)
    requires
        l.distinct(),
        attended(l, held),
        at_rest(scope.side, timeline(l, scope), held),
    ensures
        all_in_place(scope.side, timeline(l, scope), l, timeline(l, scope)),
{
    let side = scope.side;
    let rows = timeline(l, scope);
    lemma_timeline(l, scope);
    assert forall|r: RowModel| #[trigger] rows.contains(r) && r.key() is Some implies {
        ||| in_place(side, l, rows, r)
        ||| rows.contains(r) && !r.is_open() && !gives_way(side, rows, r)
    } by {
        lemma_successor(side, rows, r);
        if r.is_open() || gives_way(side, rows, r) {
            if gives_way(side, rows, r) {
                let y = choose|y: RowModel|
                    #[trigger] rows.contains(y) && follows(side, r)(y) && y.key() == r.end();
                let k = choose|k: int| 0 <= k < rows.len() && rows[k] == y;
                assert(another_at(rows, r.id, r.end()->0));
            }
            if successor(side, rows, r) is Some {
                let s = successor(side, rows, r)->0;
                assert(rows.contains(s));
                if r.is_open() || s.key() != r.end() {
                    if !r.is_open() {
                        assert(covers(side, rows, r, s));
                    }
                    assert(held.contains((r.id, s.id)));
                    let i = choose|i: int|
                        0 <= i < l.facts.len() && (#[trigger] l.facts[i]).id == s.id
                            && l.facts[i].confidence.is_low();
                    let j = choose|j: int| #[trigger] l.stands(scope, j) && l.row(j) == s;
                    if i != j {
                        lemma_apart(l, i, j);
                    }
                }
            }
        }
    }
}

/// Tidying that comes to rest leaves each row in its place.
pub proof fn lemma_tidy_places(d: Desk, scope: Scope, held: Seq<(u128, u128)>, rounds: nat)
    requires
        d.supplied(rounds as int),
        all_sharp(timeline(d.ledger, scope)),
        attended(d.ledger, held),
        d.comes_to_rest(scope, held, rounds),
    ensures
        all_in_place(
            scope.side,
            timeline(d.ledger, scope),
            d.tidy_rounds(scope, held, rounds).ledger,
            timeline(d.tidy_rounds(scope, held, rounds).ledger, scope),
        ),
    decreases rounds,
{
    let side = scope.side;
    let rows = timeline(d.ledger, scope);
    lemma_nothing_due(side, rows, held);
    if rounds == 0 || change_due(side, rows, held) is None {
        lemma_rest_in_place(d.ledger, scope, held);
    } else {
        let (row, next) = change_due(side, rows, held)->0;
        lemma_due(side, rows, held);
        lemma_timeline(d.ledger, scope);
        let i = choose|i: int| #[trigger] d.ledger.stands(scope, i) && d.ledger.row(i) == row;
        let m = choose|m: int| #[trigger] d.ledger.stands(scope, m) && d.ledger.row(m) == next;
        if next.confidence.is_low() {
            lemma_raise(d, scope, scope.kb_id, row.id, next.id, "low_confidence"@);
            let mid = d.raise(scope.kb_id, row.id, next.id, "low_confidence"@);
            let longer = held.push((row.id, next.id));
            lemma_held_attended(d, scope, held, m, row);
            lemma_tidy_places(mid, scope, longer, (rounds - 1) as nat);
        } else {
            let n = d.ledger.facts.len() as int;
            lemma_close_at(d, scope, i, next);
            lemma_replaced(d, scope, i, next);
            let mid = d.close_at(row, next);
            let between = timeline(mid.ledger, scope);
            let new = mid.ledger.row(n);
            lemma_rewritten_attended(d, scope, held, i, next);
            lemma_sharp_kept(d, scope, i, next);
            lemma_tidy_places(mid, scope, held, (rounds - 1) as nat);
            let end = mid.tidy_rounds(scope, held, (rounds - 1) as nat).ledger;
            let after = timeline(end, scope);
            assert forall|r: RowModel| #[trigger] after.contains(r) && r.key() is Some implies {
                ||| in_place(side, end, after, r)
                ||| rows.contains(r) && !r.is_open() && !gives_way(side, rows, r)
            } by {
                if !in_place(side, end, after, r) {
                    assert(between.contains(r) && !gives_way(side, between, r));
                    if r == new {
                        assert(between.contains(next));
                        assert(follows(side, new)(next));
                        assert(gives_way(side, between, new));
                    }
                    assert(rows.contains(r) && r.id != row.id);
                    lemma_still_gives_way(side, rows, between, row, new, r);
                }
            }
        }
    }
}

} // verus!
