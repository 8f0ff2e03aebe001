//! Rows under rewriting: what a correction leaves as it was, and what it carries over.

use crate::engine::{closed_by, Desk};
use crate::ledger::{
    evidence_copied, evidence_for, evidence_of, struck, ChangeModel, Document, Evidence, FactModel,
    LedgerModel,
};
use crate::order::{arrange, lemma_arrange, lemma_first_is};
use crate::rewrite::{alive_with_id, with_id};
use crate::timeline::{
    by_recorded, dated_at, earlier, evidence_date, on_timeline, row_of, timeline, RowModel, Scope,
};
use vstd::prelude::*;

verus! {

impl LedgerModel {
    /// No two facts have the same identifier.
    pub open spec fn distinct(self) -> bool {
        forall|i: int, j: int|
            0 <= i < j < self.facts.len() ==> (#[trigger] self.facts[i]).id != (
            #[trigger] self.facts[j]).id
    }

    /// No fact has that identifier, and there is no evidence of one.
    pub open spec fn unused(self, id: u128) -> bool {
        &&& forall|i: int| 0 <= i < self.facts.len() ==> (#[trigger] self.facts[i]).id != id
        &&& forall|i: int|
            0 <= i < self.evidence.len() ==> (#[trigger] self.evidence[i]).fact_id != id
    }

    /// The fact `i` stands on a timeline.
    pub open spec fn stands(self, scope: Scope, i: int) -> bool {
        0 <= i < self.facts.len() && on_timeline(scope)(self.facts[i])
    }

    /// The row of the fact `i`.
    pub open spec fn row(self, i: int) -> RowModel {
        row_of(self)(self.facts[i])
    }
}

impl Desk {
    /// No two facts have the same identifier, and there are `n` more identifiers that are new and
    /// differ.
    pub open spec fn supplied(self, n: int) -> bool {
        &&& self.ledger.distinct()
        &&& self.ids.no_duplicates()
        &&& self.ids.len() >= n
        &&& forall|k: int| 0 <= k < self.ids.len() ==> self.ledger.unused(#[trigger] self.ids[k])
    }
}

/// A timeline has the rows of the facts that stand on it.
pub proof fn lemma_timeline(l: LedgerModel, scope: Scope)
    ensures
        forall|r: RowModel|
            #[trigger] timeline(l, scope).contains(r) <==> exists|i: int|
                #[trigger] l.stands(scope, i) && l.row(i) == r,
{
    let kept = l.facts.filter(on_timeline(scope));
    let sorted = arrange_of(l, scope);
    lemma_arrange(kept, by_recorded());
    assert forall|r: RowModel| #[trigger] timeline(l, scope).contains(r) implies exists|i: int|
        #[trigger] l.stands(scope, i) && l.row(i) == r by {
        let k = choose|k: int|
            0 <= k < timeline(l, scope).len() && timeline(l, scope)[k] == r;
        let f = sorted[k];
        assert(sorted.contains(f));
        assert(kept.contains(f));
        lemma_filter_contains(l.facts, on_timeline(scope), f);
        let i = choose|i: int| 0 <= i < l.facts.len() && l.facts[i] == f;
        assert(l.stands(scope, i));
    }
    assert forall|i: int| #[trigger] l.stands(scope, i) implies timeline(l, scope).contains(
        l.row(i),
    ) by {
        let f = l.facts[i];
        assert(l.facts.contains(f));
        lemma_filter_contains(l.facts, on_timeline(scope), f);
        assert(sorted.contains(f));
        let k = choose|k: int| 0 <= k < sorted.len() && sorted[k] == f;
        assert(timeline(l, scope)[k] == l.row(i));
    }
}

/// The facts of a timeline, in the order in which they were recorded.
spec fn arrange_of(l: LedgerModel, scope: Scope) -> Seq<FactModel> {
    arrange(l.facts.filter(on_timeline(scope)), by_recorded())
}

/// What is left by a filter.
pub proof fn lemma_filter_contains<A>(s: Seq<A>, p: spec_fn(A) -> bool, x: A)
    ensures
        s.filter(p).contains(x) <==> s.contains(x) && p(x),
    decreases s.len(),
{
    reveal(Seq::filter);
    if s.len() > 0 {
        let head = s.drop_last();
        lemma_filter_contains(head, p, x);
        let kept = head.filter(p);
        assert(s =~= head.push(s.last()));
        assert(s.contains(x) <==> head.contains(x) || x == s.last()) by {
            if s.contains(x) {
                let i = choose|i: int| 0 <= i < s.len() && s[i] == x;
                if i < head.len() {
                    assert(head[i] == x);
                }
            }
            if head.contains(x) {
                let i = choose|i: int| 0 <= i < head.len() && head[i] == x;
                assert(s[i] == x);
            }
            assert(s[s.len() - 1] == s.last());
        }
        if p(s.last()) {
            let longer = kept.push(s.last());
            assert(longer.contains(x) <==> kept.contains(x) || x == s.last()) by {
                if kept.contains(x) {
                    let i = choose|i: int| 0 <= i < kept.len() && kept[i] == x;
                    assert(longer[i] == x);
                }
                assert(longer[kept.len() as int] == s.last());
                if longer.contains(x) {
                    let i = choose|i: int| 0 <= i < longer.len() && longer[i] == x;
                    if i < kept.len() {
                        assert(kept[i] == x);
                    }
                }
            }
        }
    }
}

/// The first date of two lists of evidence is the earlier of the first dates of each.
pub proof fn lemma_dated_both(a: Seq<Evidence>, b: Seq<Evidence>, documents: Seq<Document>, id: u128)
    ensures
        dated_at(a + b, documents, id) == earlier(
            dated_at(a, documents, id),
            dated_at(b, documents, id),
        ),
    decreases b.len(),
{
    if b.len() == 0 {
        assert(a + b =~= a);
    } else {
        lemma_dated_both(a, b.drop_last(), documents, id);
        assert((a + b).drop_last() =~= a + b.drop_last());
        assert((a + b).last() == b.last());
    }
}

/// The first date of copied evidence.
proof fn lemma_dated_copies(
    s: Seq<Evidence>,
    documents: Seq<Document>,
    from: u128,
    to: u128,
    id: u128,
)
    ensures
        dated_at(s.filter(evidence_of(from)).map_values(evidence_for(to)), documents, id) == if id
            == to {
            dated_at(s, documents, from)
        } else {
            None
        },
    decreases s.len(),
{
    reveal(Seq::filter);
    let copies = s.filter(evidence_of(from)).map_values(evidence_for(to));
    if s.len() == 0 {
        assert(copies =~= Seq::<Evidence>::empty());
    } else {
        let head = s.drop_last();
        lemma_dated_copies(head, documents, from, to, id);
        let before = head.filter(evidence_of(from));
        if s.last().fact_id == from {
            assert(copies.drop_last() =~= before.map_values(evidence_for(to)));
            assert(copies.last() == evidence_for(to)(s.last()));
            assert(evidence_date(documents, copies.last()) == evidence_date(documents, s.last()));
        } else {
            assert(copies =~= before.map_values(evidence_for(to)));
        }
    }
}

/// A fact without evidence is not dated by any.
pub proof fn lemma_undated(s: Seq<Evidence>, documents: Seq<Document>, id: u128)
    requires
        forall|i: int| 0 <= i < s.len() ==> (#[trigger] s[i]).fact_id != id,
    ensures
        dated_at(s, documents, id) is None,
    decreases s.len(),
{
    if s.len() > 0 {
        let head = s.drop_last();
        assert forall|i: int| 0 <= i < head.len() implies (#[trigger] head[i]).fact_id != id by {
            assert(head[i] == s[i]);
        }
        lemma_undated(head, documents, id);
        assert(s[s.len() - 1].fact_id != id);
    }
}

/// A correction dates the new row as the old one was, and leaves the dates of all others.
pub proof fn lemma_dates_carry_over(
    s: Seq<Evidence>,
    documents: Seq<Document>,
    from: u128,
    to: u128,
    id: u128,
)
    requires
        forall|i: int| 0 <= i < s.len() ==> (#[trigger] s[i]).fact_id != to,
    ensures
        dated_at(evidence_copied(s, from, to), documents, id) == if id == to {
            dated_at(s, documents, from)
        } else {
            dated_at(s, documents, id)
        },
{
    lemma_dated_both(s, s.filter(evidence_of(from)).map_values(evidence_for(to)), documents, id);
    lemma_dated_copies(s, documents, from, to, id);
    if id == to {
        lemma_undated(s, documents, to);
    }
}

/// Facts at different positions have different identifiers.
pub proof fn lemma_apart(l: LedgerModel, i: int, j: int)
    requires
        l.distinct(),
        0 <= i < l.facts.len(),
        0 <= j < l.facts.len(),
        i != j,
    ensures
        l.facts[i].id != l.facts[j].id,
{
    if i < j {
        assert(l.facts[i].id != l.facts[j].id);
    } else {
        assert(l.facts[j].id != l.facts[i].id);
    }
}

/// The present fact at a position is the one that its identifier finds.
pub proof fn lemma_found(l: LedgerModel, i: int)
    requires
        l.distinct(),
        0 <= i < l.facts.len(),
    ensures
        l.facts[i].is_alive() ==> l.alive(l.facts[i].id) == Some(l.facts[i]),
        l.fact(l.facts[i].id) == Some(l.facts[i]),
{
    let id = l.facts[i].id;
    assert forall|j: int| 0 <= j < i implies (#[trigger] l.facts[j]).id != id by {}
    lemma_first_is(l.facts, with_id(id), i);
    if l.facts[i].is_alive() {
        lemma_first_is(l.facts, alive_with_id(id), i);
    }
}

/// Rewriting a fact uses the identifier of the new one, and no other.
pub proof fn lemma_rewrite_unused(
    l: LedgerModel,
    replaced: u128,
    fact: FactModel,
    at: i64,
    other: u128,
)
    requires
        l.unused(other),
        other != fact.id,
    ensures
        l.commit(ChangeModel::Rewrite { replaced, fact, at }).unused(other),
{
    let after = l.commit(ChangeModel::Rewrite { replaced, fact, at });
    let n = l.facts.len() as int;
    assert forall|a: int| 0 <= a < after.facts.len() implies (#[trigger] after.facts[a]).id
        != other by {
        if a < n {
            assert(after.facts[a].id == l.facts[a].id);
        }
    }
    assert forall|a: int| 0 <= a < after.evidence.len() implies (
    #[trigger] after.evidence[a]).fact_id != other by {
        let copies = l.evidence.filter(evidence_of(replaced)).map_values(evidence_for(fact.id));
        if a < l.evidence.len() {
            assert(after.evidence[a] == l.evidence[a]);
        } else {
            assert(after.evidence[a] == copies[a - l.evidence.len()]);
        }
    }
}

/// Closing a row at another: the fact leaves the present record, and one follows that says the
/// same but for its end. All other rows stay.
pub proof fn lemma_close_at(d: Desk, scope: Scope, i: int, next: RowModel)
    requires
        d.supplied(1),
        0 <= i < d.ledger.facts.len(),
        d.ledger.facts[i].is_alive(),
    ensures
        ({
            let n = d.ledger.facts.len() as int;
            let id = d.ids[0];
            let after = d.close_at(d.ledger.row(i), next);
            &&& after.supplied(d.ids.len() - 1)
            &&& after.now == d.now
            &&& after.ids == d.ids.drop_first()
            &&& after.ledger.facts.len() == n + 1
            &&& after.ledger.facts[n] == closed_by(d.ledger.facts[i], id, next, d.now)
            &&& after.ledger.facts[i] == (FactModel {
                invalidated_at: Some(d.now),
                ..d.ledger.facts[i]
            })
            &&& forall|j: int|
                0 <= j < n && j != i ==> #[trigger] after.ledger.facts[j] == d.ledger.facts[j]
            &&& forall|j: int|
                0 <= j < n && j != i ==> #[trigger] after.ledger.row(j) == d.ledger.row(j)
            &&& after.ledger.row(n) == (RowModel {
                id,
                valid_to: closed_by(d.ledger.facts[i], id, next, d.now).valid_to,
                valid_to_precision: closed_by(
                    d.ledger.facts[i],
                    id,
                    next,
                    d.now,
                ).valid_to_precision,
                attested_to: closed_by(d.ledger.facts[i], id, next, d.now).attested_to,
                ..d.ledger.row(i)
            })
            &&& d.ledger.stands(scope, i) ==> after.ledger.stands(scope, n)
            &&& forall|j: int|
                0 <= j < n ==> (#[trigger] after.ledger.stands(scope, j) <==> j != i
                    && d.ledger.stands(scope, j))
        }),
{
    let l = d.ledger;
    let n = l.facts.len() as int;
    let f = l.facts[i];
    let id = d.ids[0];
    let after = d.close_at(l.row(i), next);
    lemma_found(l, i);
    assert(l.alive(l.row(i).id) == Some(f));
    let g = closed_by(f, id, next, d.now);
    let l1 = after.ledger;
    assert(l.unused(id));
    assert(l1.facts =~= l.facts.map_values(struck(f.id, d.now)).push(g));
    assert forall|j: int| 0 <= j < n && j != i implies #[trigger] l1.facts[j] == l.facts[j] by {
        lemma_apart(l, i, j);
    }
    assert forall|j: int| 0 <= j < n && j != i implies #[trigger] l1.row(j) == l.row(j) by {
        assert(l1.facts[j] == l.facts[j]);
        lemma_dates_carry_over(l.evidence, l.documents, f.id, id, l.facts[j].id);
    }
    lemma_dates_carry_over(l.evidence, l.documents, f.id, id, id);
    assert(l1.distinct()) by {
        assert forall|a: int, b: int| 0 <= a < b < l1.facts.len() implies (#[trigger] l1.facts[a]).id
            != (#[trigger] l1.facts[b]).id by {
            assert(l1.facts[a].id == l.facts[a].id);
            if b < n {
                assert(l1.facts[b].id == l.facts[b].id);
            }
        }
    }
    assert forall|k: int| 0 <= k < after.ids.len() implies l1.unused(
        #[trigger] after.ids[k],
    ) by {
        let other = d.ids[k + 1];
        assert(after.ids[k] == other);
        assert(other != id);
        assert(l.unused(other));
        lemma_rewrite_unused(l, f.id, g, d.now, other);
    }
    assert(after.ids.no_duplicates()) by {
        assert forall|a: int, b: int|
            0 <= a < after.ids.len() && 0 <= b < after.ids.len() && a != b implies after.ids[a]
            != after.ids[b] by {
            assert(after.ids[a] == d.ids[a + 1]);
            assert(after.ids[b] == d.ids[b + 1]);
        }
    }
}

} // verus!
