//! What holds step by step: whatever leaving two facts to a person and closing a row keep, all that
//! the engine does keeps.

use crate::engine::{
    holder_of, open_rival, row_with_id, simultaneous_rival, undated_rival, Desk, MAX_TIDY_ROUNDS,
};
use crate::handover::lemma_due;
use crate::ledger::{FactModel, LedgerModel};
use crate::order::{arrange, first, lemma_arrange, lemma_first};
use crate::replay::{replay_key, since_start, to_reconcile, ReplayOrder};
use crate::timeline::{by_recorded, change_due, on_timeline, timeline, RowModel, Scope, Uniqueness};
use crate::validity::ValidityModel;
use vstd::prelude::*;

verus! {

/// `p` holds of the engine while it may take so many more steps, and every step keeps it. `q` tells
/// at which rows one may be closed: those of a timeline, and each as long as it goes on. With so
/// many facts, and so many steps that may be taken, there are never more than `total` facts.
pub open spec fn is_kept(
    p: spec_fn(Desk, int) -> bool,
    q: spec_fn(Desk, RowModel) -> bool,
    total: int,
) -> bool {
    &&& forall|d: Desk, n: int| #[trigger]
        p(d, n) ==> 0 <= n && d.ledger.facts.len() + n <= total
    &&& forall|d: Desk, n: int, m: int|
        #![trigger p(d, n), p(d, m)]
        p(d, n) && 0 <= m <= n ==> p(d, m)
    &&& forall|d: Desk, scope: Scope, r: RowModel| #[trigger]
        timeline(d.ledger, scope).contains(r) ==> q(d, r)
    &&& forall|d: Desk, n: int, kb_id: u128, a: u128, b: u128, reason: Seq<char>|
        #![trigger p(d, n), d.raise(kb_id, a, b, reason)]
        p(d, n) && n > 0 ==> p(d.raise(kb_id, a, b, reason), n - 1) && goes_on(
            q,
            d,
            d.raise(kb_id, a, b, reason),
        )
    &&& forall|d: Desk, n: int, row: RowModel, next: RowModel|
        #![trigger p(d, n), d.close_at(row, next)]
        p(d, n) && n > 0 && q(d, next) && !next.confidence.is_low() ==> p(
            d.close_at(row, next),
            n - 1,
        ) && goes_on(q, d, d.close_at(row, next))
}

/// A row may be closed at any other.
pub open spec fn any_row() -> spec_fn(Desk, RowModel) -> bool {
    |d: Desk, r: RowModel| true
}

/// What `q` tells of rows goes on.
pub open spec fn goes_on(q: spec_fn(Desk, RowModel) -> bool, d: Desk, after: Desk) -> bool {
    forall|r: RowModel| #[trigger] q(d, r) ==> q(after, r)
}

proof fn lemma_raise_all(
    p: spec_fn(Desk, int) -> bool,
    q: spec_fn(Desk, RowModel) -> bool,
    total: int,
    d: Desk,
    n: int,
    kb_id: u128,
    rows: Seq<RowModel>,
    new_id: u128,
    reason: Seq<char>,
)
    requires
        is_kept(p, q, total),
        p(d, n),
        rows.len() <= n,
    ensures
        p(d.raise_all(kb_id, rows, new_id, reason), n - rows.len()),
        goes_on(q, d, d.raise_all(kb_id, rows, new_id, reason)),
    decreases rows.len(),
{
    if rows.len() > 0 {
        let head = rows.drop_last();
        lemma_raise_all(p, q, total, d, n, kb_id, head, new_id, reason);
        let mid = d.raise_all(kb_id, head, new_id, reason);
        let after = mid.raise(kb_id, rows.last().id, new_id, reason);
        assert(p(mid, n - head.len()));
        assert(after == d.raise_all(kb_id, rows, new_id, reason));
    }
}

proof fn lemma_close_all(
    p: spec_fn(Desk, int) -> bool,
    q: spec_fn(Desk, RowModel) -> bool,
    total: int,
    d: Desk,
    n: int,
    kb_id: u128,
    rows: Seq<RowModel>,
    new: RowModel,
)
    requires
        is_kept(p, q, total),
        p(d, n),
        rows.len() <= n,
        q(d, new),
    ensures
        p(d.close_all(kb_id, rows, new), n - rows.len()),
        goes_on(q, d, d.close_all(kb_id, rows, new)),
    decreases rows.len(),
{
    if rows.len() > 0 {
        let head = rows.drop_last();
        lemma_close_all(p, q, total, d, n, kb_id, head, new);
        let mid = d.close_all(kb_id, head, new);
        assert(p(mid, n - head.len()));
        assert(q(mid, new));
        let after = if new.confidence.is_low() {
            mid.raise(kb_id, rows.last().id, new.id, "low_confidence"@)
        } else {
            mid.close_at(rows.last(), new)
        };
        assert(after == d.close_all(kb_id, rows, new));
    }
}

/// Tidying for some rounds takes a step for each at most.
pub proof fn lemma_tidy(
    p: spec_fn(Desk, int) -> bool,
    q: spec_fn(Desk, RowModel) -> bool,
    total: int,
    d: Desk,
    n: int,
    scope: Scope,
    held: Seq<(u128, u128)>,
    rounds: nat,
)
    requires
        is_kept(p, q, total),
        p(d, n),
        rounds <= n,
    ensures
        p(d.tidy_rounds(scope, held, rounds), n - rounds),
    decreases rounds,
{
    let rows = timeline(d.ledger, scope);
    if rounds > 0 && change_due(scope.side, rows, held) is Some {
        let (row, next) = change_due(scope.side, rows, held)->0;
        lemma_due(scope.side, rows, held);
        assert(q(d, next));
        if next.confidence.is_low() {
            let mid = d.raise(scope.kb_id, row.id, next.id, "low_confidence"@);
            lemma_tidy(
                p,
                q,
                total,
                mid,
                n - 1,
                scope,
                held.push((row.id, next.id)),
                (rounds - 1) as nat,
            );
        } else {
            let mid = d.close_at(row, next);
            lemma_tidy(p, q, total, mid, n - 1, scope, held, (rounds - 1) as nat);
        }
    } else {
        assert(p(d, n - rounds));
    }
}

/// How many steps placing a fact can take, among so many facts.
pub open spec fn enough(facts: int) -> int {
    2 * facts + MAX_TIDY_ROUNDS
}

/// A filter keeps no more than there is.
pub proof fn lemma_filter_len<A>(s: Seq<A>, p: spec_fn(A) -> bool)
    ensures
        s.filter(p).len() <= s.len(),
    decreases s.len(),
{
    reveal(Seq::filter);
    if s.len() > 0 {
        lemma_filter_len(s.drop_last(), p);
    }
}

/// A timeline has at most as many rows as there are facts.
pub proof fn lemma_timeline_len(l: LedgerModel, scope: Scope)
    ensures
        timeline(l, scope).len() <= l.facts.len(),
{
    let on = on_timeline(scope);
    lemma_filter_len(l.facts, on);
    lemma_arrange(l.facts.filter(on), by_recorded());
}

/// Placing a fact.
pub proof fn lemma_place(
    p: spec_fn(Desk, int) -> bool,
    q: spec_fn(Desk, RowModel) -> bool,
    total: int,
    d: Desk,
    n: int,
    scope: Scope,
    fact_id: u128,
)
    requires
        is_kept(p, q, total),
        p(d, n),
        enough(total - n) <= n,
    ensures
        p(d.place(scope, fact_id), n - enough(total - n)),
{
    let rows = timeline(d.ledger, scope);
    let left = n - enough(total - n);
    lemma_timeline_len(d.ledger, scope);
    lemma_first(rows, row_with_id(fact_id));
    match first(rows, row_with_id(fact_id)) {
        None => {
            assert(p(d, left));
        },
        Some(new) => {
            assert(q(d, new));
            if new.key() is None {
                let picked = rows.filter(open_rival(scope.side, new));
                lemma_filter_len(rows, open_rival(scope.side, new));
                lemma_raise_all(p, q, total, d, n, scope.kb_id, picked, new.id, "no_time"@);
                assert(p(d.place(scope, fact_id), left));
            } else {
                let together = rows.filter(simultaneous_rival(scope.side, new));
                let undated = rows.filter(undated_rival(scope.side, new));
                lemma_filter_len(rows, simultaneous_rival(scope.side, new));
                lemma_filter_len(rows, undated_rival(scope.side, new));
                lemma_raise_all(p, q, total, d, n, scope.kb_id, together, new.id, "simultaneous"@);
                let d1 = d.raise_all(scope.kb_id, together, new.id, "simultaneous"@);
                let n1 = n - together.len();
                lemma_close_all(p, q, total, d1, n1, scope.kb_id, undated, new);
                let d2 = d1.close_all(scope.kb_id, undated, new);
                let n2 = n1 - undated.len();
                lemma_tidy(p, q, total, d2, n2, scope, Seq::empty(), MAX_TIDY_ROUNDS as nat);
                assert(p(d2.tidy(scope), n2 - MAX_TIDY_ROUNDS));
                assert(p(d.place(scope, fact_id), left));
            }
        },
    }
}

/// Reconciling a fact with the timeline of its holder.
pub proof fn lemma_reconcile(
    p: spec_fn(Desk, int) -> bool,
    q: spec_fn(Desk, RowModel) -> bool,
    total: int,
    d: Desk,
    n: int,
    kb_id: u128,
    new_fact_id: u128,
    subject_id: u128,
    predicate_id: u128,
    object_id: Option<u128>,
    direction: Uniqueness,
    validity: ValidityModel,
)
    requires
        is_kept(p, q, total),
        p(d, n),
        enough(total - n) <= n,
    ensures
        p(
            d.reconcile(
                kb_id,
                new_fact_id,
                subject_id,
                predicate_id,
                object_id,
                direction,
                validity,
            ),
            n - enough(total - n),
        ),
{
    assert(p(d, n - enough(total - n)));
    if let Some(holder) = holder_of(direction, subject_id, object_id) {
        let scope = Scope { kb_id, holder, predicate_id, side: direction };
        lemma_place(p, q, total, d, n, scope, new_fact_id);
    }
}

/// How many steps reconciling so many facts on both sides can take, among so many facts.
pub open spec fn enough_for(count: nat, facts: int) -> int
    decreases count,
{
    if count == 0 {
        0
    } else {
        let before = enough_for((count - 1) as nat, facts);
        let one = enough(facts + before);
        before + one + enough(facts + before + one)
    }
}

/// More facts to reconcile can take more steps.
pub proof fn lemma_enough_more(a: nat, b: nat, facts: int)
    requires
        a <= b,
        facts >= 0,
    ensures
        0 <= enough_for(a, facts) <= enough_for(b, facts),
    decreases b,
{
    if a < b {
        lemma_enough_more(a, (b - 1) as nat, facts);
    } else if a > 0 {
        lemma_enough_more((a - 1) as nat, (a - 1) as nat, facts);
    }
}

proof fn lemma_again(
    p: spec_fn(Desk, int) -> bool,
    q: spec_fn(Desk, RowModel) -> bool,
    total: int,
    d: Desk,
    n: int,
    kb_id: u128,
    f: FactModel,
)
    requires
        is_kept(p, q, total),
        p(d, n),
        enough(total - n) + enough(total - n + enough(total - n)) <= n,
    ensures
        p(
            d.reconcile_again(kb_id, f),
            n - enough(total - n) - enough(total - n + enough(total - n)),
        ),
{
    let one = enough(total - n);
    let left = n - one - enough(total - n + one);
    let after = d.reconcile_again(kb_id, f);
    assert(p(d, left));
    if after != d {
        let r = d.ledger.unique_relation(f)->0;
        let mid = if r.functional {
            d.reconcile(
                kb_id,
                f.id,
                f.subject_id,
                r.id,
                f.object_id,
                Uniqueness::SubjectSide,
                since_start(f),
            )
        } else {
            d
        };
        lemma_reconcile(
            p,
            q,
            total,
            d,
            n,
            kb_id,
            f.id,
            f.subject_id,
            r.id,
            f.object_id,
            Uniqueness::SubjectSide,
            since_start(f),
        );
        assert(p(mid, n - one));
        lemma_reconcile(
            p,
            q,
            total,
            mid,
            n - one,
            kb_id,
            f.id,
            f.subject_id,
            r.id,
            f.object_id,
            Uniqueness::ObjectSide,
            since_start(f),
        );
        assert(p(mid, left));
    }
}

/// Reconciling some facts once more, one after another.
pub proof fn lemma_each(
    p: spec_fn(Desk, int) -> bool,
    q: spec_fn(Desk, RowModel) -> bool,
    total: int,
    d: Desk,
    n: int,
    kb_id: u128,
    facts: Seq<FactModel>,
)
    requires
        is_kept(p, q, total),
        p(d, n),
        enough_for(facts.len(), total - n) <= n,
    ensures
        p(d.reconcile_each(kb_id, facts), n - enough_for(facts.len(), total - n)),
    decreases facts.len(),
{
    if facts.len() > 0 {
        let head = facts.drop_last();
        let before = enough_for(head.len(), total - n);
        lemma_enough_more(head.len(), facts.len(), total - n);
        lemma_each(p, q, total, d, n, kb_id, head);
        let mid = d.reconcile_each(kb_id, head);
        lemma_again(p, q, total, mid, n - before, kb_id, facts.last());
    }
}

/// Reconciling facts once more.
pub proof fn lemma_open(
    p: spec_fn(Desk, int) -> bool,
    q: spec_fn(Desk, RowModel) -> bool,
    total: int,
    d: Desk,
    n: int,
    kb_id: u128,
    ids: Seq<u128>,
    order: ReplayOrder,
)
    requires
        is_kept(p, q, total),
        p(d, n),
        enough_for(d.ledger.facts.len(), total - n) <= n,
    ensures
        p(
            d.reconcile_open(kb_id, ids, order),
            n - enough_for(d.ledger.facts.len(), total - n),
        ),
{
    let found = d.ledger.facts.filter(to_reconcile(d.ledger, kb_id, ids));
    let sorted = arrange(found, replay_key(order));
    lemma_filter_len(d.ledger.facts, to_reconcile(d.ledger, kb_id, ids));
    lemma_arrange(found, replay_key(order));
    lemma_enough_more(sorted.len(), d.ledger.facts.len(), total - n);
    lemma_each(p, q, total, d, n, kb_id, sorted);
    let after = d.reconcile_open(kb_id, ids, order);
    assert(p(after, n - enough_for(sorted.len(), total - n)));
    assert(p(after, n - enough_for(d.ledger.facts.len(), total - n)));
}

} // verus!
