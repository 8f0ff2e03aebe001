//! What each change does to the tables, row by row; and what the views of the tables hold.

use crate::candidates::{
    candidate_models, value_models, HolderExample, Literal, OpenValue, UniquenessCandidate,
};
use crate::engine::ReconcileReport;
use crate::errors::{AppError, ErrorModel};
use crate::identity::lemma_filter_contains;
use crate::ledger::{
    conflict_between, evidence_for, evidence_of, pending_between, qualifier_for, qualifier_of,
    Change, ChangeModel, ConflictModel, Evidence, Fact, FactConflict, FactModel, Ledger,
    LedgerModel, Qualifier,
};
use crate::order::lemma_first;
use crate::review::{conflict_views, ConflictView};
use crate::text::opt_text;
use crate::timeline::{row_models, Row};
use crate::validity::Validity;
use vstd::prelude::*;

verus! {

/// Two facts are the same but for when they were invalidated.
pub open spec fn same_but_invalidated(f: FactModel, g: FactModel) -> bool {
    &&& g.id == f.id
    &&& g.kb_id == f.kb_id
    &&& g.subject_id == f.subject_id
    &&& g.predicate_id == f.predicate_id
    &&& g.object_id == f.object_id
    &&& g.object_value == f.object_value
    &&& g.valid_from == f.valid_from
    &&& g.valid_from_precision == f.valid_from_precision
    &&& g.valid_to == f.valid_to
    &&& g.valid_to_precision == f.valid_to_precision
    &&& g.confidence == f.confidence
    &&& g.supersedes == f.supersedes
    &&& g.attested_from == f.attested_from
    &&& g.attested_to == f.attested_to
    &&& g.recorded_at == f.recorded_at
}

/// The facts `id`, and no others, were invalidated at a moment; behind them may stand more.
pub open spec fn only_invalidated(l: LedgerModel, after: LedgerModel, id: u128, at: i64) -> bool {
    &&& l.facts.len() <= after.facts.len()
    &&& forall|i: int|
        0 <= i < l.facts.len() ==> {
            &&& same_but_invalidated(l.facts[i], #[trigger] after.facts[i])
            &&& after.facts[i].invalidated_at == if l.facts[i].id == id {
                Some(at)
            } else {
                l.facts[i].invalidated_at
            }
        }
}

/// Two pieces of evidence are the same but for the fact.
pub open spec fn same_evidence(e: Evidence, c: Evidence) -> bool {
    &&& c.chunk_id == e.chunk_id
    &&& c.quote == e.quote
    &&& c.proposed_predicate == e.proposed_predicate
    &&& c.document_id == e.document_id
    &&& c.doc_version == e.doc_version
}

/// Two qualifiers are the same but for the fact.
pub open spec fn same_qualifier(q: Qualifier, c: Qualifier) -> bool {
    &&& c.qualifier_type_id == q.qualifier_type_id
    &&& c.value == q.value
    &&& c.entity_id == q.entity_id
}

/// What is read of documents, relations and entities stays.
pub open spec fn same_lists(l: LedgerModel, after: LedgerModel) -> bool {
    &&& after.documents == l.documents
    &&& after.relations == l.relations
    &&& after.entities == l.entities
}

/// `x` is what `f` makes of an element that meets `p`.
spec fn is_copy<A>(s: Seq<A>, p: spec_fn(A) -> bool, f: spec_fn(A) -> A, x: A) -> bool {
    exists|i: int| 0 <= i < s.len() && p(s[i]) && x == f(#[trigger] s[i])
}

/// What was copied by a filter and a map.
proof fn lemma_copies<A>(s: Seq<A>, p: spec_fn(A) -> bool, f: spec_fn(A) -> A)
    ensures
        forall|j: int|
            0 <= j < s.filter(p).map_values(f).len() ==> is_copy(
                s,
                p,
                f,
                #[trigger] s.filter(p).map_values(f)[j],
            ),
        forall|i: int|
            0 <= i < s.len() && p(#[trigger] s[i]) ==> s.filter(p).map_values(f).contains(f(s[i])),
{
    let kept = s.filter(p);
    let copies = kept.map_values(f);
    assert forall|j: int| 0 <= j < copies.len() implies is_copy(s, p, f, #[trigger] copies[j]) by {
        assert(kept.contains(kept[j]));
        lemma_filter_contains(s, p, kept[j]);
        let i = choose|i: int| 0 <= i < s.len() && s[i] == kept[j];
        assert(copies[j] == f(s[i]) && p(s[i]));
    }
    assert forall|i: int| 0 <= i < s.len() && p(#[trigger] s[i]) implies copies.contains(
        f(s[i]),
    ) by {
        assert(s.contains(s[i]));
        lemma_filter_contains(s, p, s[i]);
        let j = choose|j: int| 0 <= j < kept.len() && kept[j] == s[i];
        assert(copies[j] == f(s[i]));
    }
}

/// How many of some pieces of evidence are of a fact.
pub open spec fn evidence_count(s: Seq<Evidence>, fact_id: u128) -> nat
    decreases s.len(),
{
    if s.len() == 0 {
        0
    } else {
        evidence_count(s.drop_last(), fact_id) + if s.last().fact_id == fact_id {
            1nat
        } else {
            0nat
        }
    }
}

/// How many of some qualifiers are of a fact.
pub open spec fn qualifier_count(s: Seq<Qualifier>, fact_id: u128) -> nat
    decreases s.len(),
{
    if s.len() == 0 {
        0
    } else {
        qualifier_count(s.drop_last(), fact_id) + if s.last().fact_id == fact_id {
            1nat
        } else {
            0nat
        }
    }
}

proof fn lemma_evidence_count(s: Seq<Evidence>, fact_id: u128)
    ensures
        s.filter(evidence_of(fact_id)).len() == evidence_count(s, fact_id),
    decreases s.len(),
{
    reveal(Seq::filter);
    if s.len() > 0 {
        lemma_evidence_count(s.drop_last(), fact_id);
    }
}

proof fn lemma_qualifier_count(s: Seq<Qualifier>, fact_id: u128)
    ensures
        s.filter(qualifier_of(fact_id)).len() == qualifier_count(s, fact_id),
    decreases s.len(),
{
    reveal(Seq::filter);
    if s.len() > 0 {
        lemma_qualifier_count(s.drop_last(), fact_id);
    }
}

/// To rewrite a fact is to invalidate it and to write one more. The new one gets a copy of each
/// piece of evidence and of each qualifier, the same in all but the fact; nothing else is changed,
/// and nothing is taken away.
pub proof fn law_rewriting_copies_what_belongs_to_a_fact(
    l: LedgerModel,
    replaced: u128,
    fact: FactModel,
    at: i64,
)
    ensures
        ({
            let after = l.commit(ChangeModel::Rewrite { replaced, fact, at });
            let e = l.evidence.len();
            let q = l.qualifiers.len();
            &&& only_invalidated(l, after, replaced, at)
            &&& after.facts.len() == l.facts.len() + 1
            &&& after.facts[l.facts.len() as int] == fact
            &&& after.evidence.len() == e + evidence_count(l.evidence, replaced)
            &&& forall|i: int| 0 <= i < e ==> #[trigger] after.evidence[i] == l.evidence[i]
            &&& forall|j: int|
                e <= j < after.evidence.len() ==> (#[trigger] after.evidence[j]).fact_id == fact.id
                    && exists|i: int|
                    0 <= i < e && (#[trigger] l.evidence[i]).fact_id == replaced && same_evidence(
                        l.evidence[i],
                        after.evidence[j],
                    )
            &&& forall|i: int|
                0 <= i < e && (#[trigger] l.evidence[i]).fact_id == replaced ==> exists|j: int|
                    e <= j < after.evidence.len() && same_evidence(
                        l.evidence[i],
                        #[trigger] after.evidence[j],
                    )
            &&& after.qualifiers.len() == q + qualifier_count(l.qualifiers, replaced)
            &&& forall|i: int| 0 <= i < q ==> #[trigger] after.qualifiers[i] == l.qualifiers[i]
            &&& forall|j: int|
                q <= j < after.qualifiers.len() ==> (#[trigger] after.qualifiers[j]).fact_id
                    == fact.id && exists|i: int|
                    0 <= i < q && (#[trigger] l.qualifiers[i]).fact_id == replaced
                        && same_qualifier(l.qualifiers[i], after.qualifiers[j])
            &&& forall|i: int|
                0 <= i < q && (#[trigger] l.qualifiers[i]).fact_id == replaced ==> exists|j: int|
                    q <= j < after.qualifiers.len() && same_qualifier(
                        l.qualifiers[i],
                        #[trigger] after.qualifiers[j],
                    )
            &&& after.conflicts == l.conflicts
            &&& same_lists(l, after)
            &&& after.changes == l.changes.push(ChangeModel::Rewrite { replaced, fact, at })
        }),
{
    let after = l.commit(ChangeModel::Rewrite { replaced, fact, at });
    let e = l.evidence.len() as int;
    let q = l.qualifiers.len() as int;
    let of = l.evidence.filter(evidence_of(replaced)).map_values(evidence_for(fact.id));
    let qs = l.qualifiers.filter(qualifier_of(replaced)).map_values(qualifier_for(fact.id));
    lemma_copies(l.evidence, evidence_of(replaced), evidence_for(fact.id));
    lemma_copies(l.qualifiers, qualifier_of(replaced), qualifier_for(fact.id));
    lemma_evidence_count(l.evidence, replaced);
    lemma_qualifier_count(l.qualifiers, replaced);
    assert forall|j: int| e <= j < after.evidence.len() implies (
    #[trigger] after.evidence[j]).fact_id == fact.id && exists|i: int|
        0 <= i < e && (#[trigger] l.evidence[i]).fact_id == replaced && same_evidence(
            l.evidence[i],
            after.evidence[j],
        ) by {
        assert(after.evidence[j] == of[j - e]);
        assert(is_copy(l.evidence, evidence_of(replaced), evidence_for(fact.id), of[j - e]));
        let i = choose|i: int|
            0 <= i < e && evidence_of(replaced)(l.evidence[i]) && of[j - e] == evidence_for(
                fact.id,
            )(#[trigger] l.evidence[i]);
        assert(l.evidence[i].fact_id == replaced);
    }
    assert forall|i: int|
        0 <= i < e && (#[trigger] l.evidence[i]).fact_id == replaced implies exists|j: int|
        e <= j < after.evidence.len() && same_evidence(
            l.evidence[i],
            #[trigger] after.evidence[j],
        ) by {
        assert(evidence_of(replaced)(l.evidence[i]));
        let k = choose|k: int| 0 <= k < of.len() && of[k] == evidence_for(fact.id)(l.evidence[i]);
        assert(after.evidence[e + k] == of[k]);
    }
    assert forall|j: int| q <= j < after.qualifiers.len() implies (
    #[trigger] after.qualifiers[j]).fact_id == fact.id && exists|i: int|
        0 <= i < q && (#[trigger] l.qualifiers[i]).fact_id == replaced && same_qualifier(
            l.qualifiers[i],
            after.qualifiers[j],
        ) by {
        assert(after.qualifiers[j] == qs[j - q]);
        assert(is_copy(l.qualifiers, qualifier_of(replaced), qualifier_for(fact.id), qs[j - q]));
        let i = choose|i: int|
            0 <= i < q && qualifier_of(replaced)(l.qualifiers[i]) && qs[j - q] == qualifier_for(
                fact.id,
            )(#[trigger] l.qualifiers[i]);
        assert(l.qualifiers[i].fact_id == replaced);
    }
    assert forall|i: int|
        0 <= i < q && (#[trigger] l.qualifiers[i]).fact_id == replaced implies exists|j: int|
        q <= j < after.qualifiers.len() && same_qualifier(
            l.qualifiers[i],
            #[trigger] after.qualifiers[j],
        ) by {
        assert(qualifier_of(replaced)(l.qualifiers[i]));
        let k = choose|k: int|
            0 <= k < qs.len() && qs[k] == qualifier_for(fact.id)(l.qualifiers[i]);
        assert(after.qualifiers[q + k] == qs[k]);
    }
}

/// To invalidate a fact changes nothing but when it was invalidated.
pub proof fn law_invalidating_strikes_one_fact(l: LedgerModel, fact_id: u128, at: i64)
    ensures
        ({
            let after = l.commit(ChangeModel::Invalidate { fact_id, at });
            &&& only_invalidated(l, after, fact_id, at)
            &&& after.facts.len() == l.facts.len()
            &&& after.evidence == l.evidence
            &&& after.qualifiers == l.qualifiers
            &&& after.conflicts == l.conflicts
            &&& same_lists(l, after)
            &&& after.changes == l.changes.push(ChangeModel::Invalidate { fact_id, at })
        }),
{
}

/// To restore a fact brings it back as it was, and changes no other.
pub proof fn law_restoring_brings_back_one_fact(l: LedgerModel, fact_id: u128)
    ensures
        ({
            let after = l.commit(ChangeModel::Restore { fact_id });
            &&& after.facts.len() == l.facts.len()
            &&& forall|i: int|
                0 <= i < l.facts.len() ==> {
                    &&& same_but_invalidated(l.facts[i], #[trigger] after.facts[i])
                    &&& after.facts[i].invalidated_at == if l.facts[i].id == fact_id {
                        None
                    } else {
                        l.facts[i].invalidated_at
                    }
                }
            &&& after.evidence == l.evidence
            &&& after.qualifiers == l.qualifiers
            &&& after.conflicts == l.conflicts
            &&& same_lists(l, after)
            &&& after.changes == l.changes.push(ChangeModel::Restore { fact_id })
        }),
{
}

/// A conflict was resolved: nothing else of it was changed.
pub open spec fn is_settled_as(
    c: ConflictModel,
    after: ConflictModel,
    resolution: Seq<char>,
    at: i64,
) -> bool {
    &&& after.id == c.id
    &&& after.kb_id == c.kb_id
    &&& after.old_fact_id == c.old_fact_id
    &&& after.new_fact_id == c.new_fact_id
    &&& after.reason == c.reason
    &&& after.created_at == c.created_at
    &&& after.status == "resolved"@
    &&& after.resolution == Some(resolution)
    &&& after.resolved_at == Some(at)
}

/// The facts, and what belongs to them, stay.
pub open spec fn same_facts(l: LedgerModel, after: LedgerModel) -> bool {
    &&& after.facts == l.facts
    &&& after.evidence == l.evidence
    &&& after.qualifiers == l.qualifiers
}

/// To raise a conflict adds it behind the others, unless there is one of the same two facts in this
/// order, or an open one in the other; nothing else is changed.
pub proof fn law_raising_adds_one_conflict(l: LedgerModel, conflict: ConflictModel)
    ensures
        ({
            let after = l.commit(ChangeModel::Raise { conflict });
            let known = exists|i: int|
                0 <= i < l.conflicts.len() && {
                    ||| (#[trigger] l.conflicts[i]).old_fact_id == conflict.old_fact_id
                        && l.conflicts[i].new_fact_id == conflict.new_fact_id
                    ||| l.conflicts[i].old_fact_id == conflict.new_fact_id
                        && l.conflicts[i].new_fact_id == conflict.old_fact_id
                        && l.conflicts[i].status == "open"@
                };
            &&& known ==> after.conflicts == l.conflicts
            &&& !known ==> after.conflicts == l.conflicts.push(conflict)
            &&& same_facts(l, after)
            &&& same_lists(l, after)
            &&& after.changes == l.changes.push(ChangeModel::Raise { conflict })
        }),
{
    let p = conflict_between(conflict.old_fact_id, conflict.new_fact_id);
    let q = pending_between(conflict.new_fact_id, conflict.old_fact_id);
    lemma_first(l.conflicts, p);
    lemma_first(l.conflicts, q);
    if exists|i: int|
        0 <= i < l.conflicts.len() && {
            ||| (#[trigger] l.conflicts[i]).old_fact_id == conflict.old_fact_id
                && l.conflicts[i].new_fact_id == conflict.new_fact_id
            ||| l.conflicts[i].old_fact_id == conflict.new_fact_id && l.conflicts[i].new_fact_id
                == conflict.old_fact_id && l.conflicts[i].status == "open"@
        } {
        let i = choose|i: int|
            0 <= i < l.conflicts.len() && {
                ||| (#[trigger] l.conflicts[i]).old_fact_id == conflict.old_fact_id
                    && l.conflicts[i].new_fact_id == conflict.new_fact_id
                ||| l.conflicts[i].old_fact_id == conflict.new_fact_id
                    && l.conflicts[i].new_fact_id == conflict.old_fact_id
                    && l.conflicts[i].status == "open"@
            };
        assert(p(l.conflicts[i]) || q(l.conflicts[i]));
    } else {
        assert forall|i: int| 0 <= i < l.conflicts.len() implies !p(#[trigger] l.conflicts[i])
            && !q(l.conflicts[i]) by {}
    }
}

/// To settle a conflict changes that one of the knowledge base, and no other.
pub proof fn law_settling_answers_one_question(
    l: LedgerModel,
    kb_id: u128,
    conflict_id: u128,
    resolution: Seq<char>,
    at: i64,
)
    ensures
        ({
            let after = l.commit(ChangeModel::Settle { kb_id, conflict_id, resolution, at });
            &&& after.conflicts.len() == l.conflicts.len()
            &&& forall|i: int|
                0 <= i < l.conflicts.len() ==> if l.conflicts[i].id == conflict_id
                    && l.conflicts[i].kb_id == kb_id {
                    is_settled_as(l.conflicts[i], #[trigger] after.conflicts[i], resolution, at)
                } else {
                    after.conflicts[i] == l.conflicts[i]
                }
            &&& same_facts(l, after)
            &&& same_lists(l, after)
            &&& after.changes == l.changes.push(
                ChangeModel::Settle { kb_id, conflict_id, resolution, at },
            )
        }),
{
}

/// To settle the other conflicts of a new fact changes those that are open, and no others.
pub proof fn law_settling_siblings_answers_what_is_open(
    l: LedgerModel,
    new_fact_id: u128,
    except: u128,
    resolution: Seq<char>,
    at: i64,
)
    ensures
        ({
            let after = l.commit(
                ChangeModel::SettleSiblings { new_fact_id, except, resolution, at },
            );
            &&& after.conflicts.len() == l.conflicts.len()
            &&& forall|i: int|
                0 <= i < l.conflicts.len() ==> if l.conflicts[i].new_fact_id == new_fact_id
                    && l.conflicts[i].status == "open"@ && l.conflicts[i].id != except {
                    is_settled_as(l.conflicts[i], #[trigger] after.conflicts[i], resolution, at)
                } else {
                    after.conflicts[i] == l.conflicts[i]
                }
            &&& same_facts(l, after)
            &&& same_lists(l, after)
            &&& after.changes == l.changes.push(
                ChangeModel::SettleSiblings { new_fact_id, except, resolution, at },
            )
        }),
{
}

/// The view of a fact holds each of its columns.
pub proof fn law_a_fact_is_seen_as_it_is(f: Fact)
    ensures
        f@.id == f.id,
        f@.kb_id == f.kb_id,
        f@.subject_id == f.subject_id,
        f@.predicate_id == f.predicate_id,
        f@.object_id == f.object_id,
        f@.object_value == opt_text(f.object_value),
        f@.valid_from == f.valid_from,
        f@.valid_from_precision == opt_text(f.valid_from_precision),
        f@.valid_to == f.valid_to,
        f@.valid_to_precision == opt_text(f.valid_to_precision),
        f@.confidence == f.confidence,
        f@.supersedes == f.supersedes,
        f@.attested_from == f.attested_from,
        f@.attested_to == f.attested_to,
        f@.recorded_at == f.recorded_at,
        f@.invalidated_at == f.invalidated_at,
        f@.is_alive() <==> f.invalidated_at is None,
        f@.is_open() <==> f.valid_to is None && f.valid_to_precision is None,
{
}

/// The view of a nullable text holds the text.
pub proof fn law_a_text_is_seen_as_it_is(t: Option<String>)
    ensures
        opt_text(t) is Some <==> t is Some,
        t is Some ==> opt_text(t)->0 == t->0@,
{
}

/// The view of a conflict holds each of its columns.
pub proof fn law_a_conflict_is_seen_as_it_is(c: FactConflict)
    ensures
        c@.id == c.id,
        c@.kb_id == c.kb_id,
        c@.old_fact_id == c.old_fact_id,
        c@.new_fact_id == c.new_fact_id,
        c@.reason == c.reason@,
        c@.status == c.status@,
        c@.resolution == opt_text(c.resolution),
        c@.created_at == c.created_at,
        c@.resolved_at == c.resolved_at,
{
}

/// The view of a shown conflict holds each of its parts.
pub proof fn law_a_question_is_seen_as_it_is(v: ConflictView)
    ensures
        v@.id == v.id,
        v@.reason == v.reason@,
        v@.created_at == v.created_at,
        v@.predicate_label == v.predicate_label@,
        v@.old_fact_id == v.old_fact_id,
        v@.old_subject == v.old_subject@,
        v@.old_object == opt_text(v.old_object),
        v@.old_valid_from == v.old_valid_from,
        v@.new_fact_id == v.new_fact_id,
        v@.new_subject == v.new_subject@,
        v@.new_object == opt_text(v.new_object),
        v@.new_valid_from == v.new_valid_from,
        v@.new_confidence == v.new_confidence,
{
}

/// The view of a row holds each of its parts.
pub proof fn law_a_row_is_seen_as_it_is(r: Row)
    ensures
        r@.id == r.id,
        r@.subject_id == r.subject_id,
        r@.object_id == r.object_id,
        r@.object_value == opt_text(r.object_value),
        r@.valid_from == r.valid_from,
        r@.valid_from_precision == opt_text(r.valid_from_precision),
        r@.valid_to == r.valid_to,
        r@.valid_to_precision == opt_text(r.valid_to_precision),
        r@.attested_to == r.attested_to,
        r@.confidence == r.confidence,
        r@.dated_at == r.dated_at,
{
}

/// The view of a ledger holds each of its tables, row by row.
pub proof fn law_a_ledger_is_seen_as_it_is(ledger: Ledger)
    ensures
        ledger@.facts.len() == ledger.facts@.len(),
        forall|i: int|
            0 <= i < ledger.facts@.len() ==> #[trigger] ledger@.facts[i] == ledger.facts@[i]@,
        ledger@.evidence == ledger.evidence@,
        ledger@.documents == ledger.documents@,
        ledger@.qualifiers == ledger.qualifiers@,
        ledger@.relations == ledger.relations@,
        ledger@.entities == ledger.entities@,
        ledger@.conflicts.len() == ledger.conflicts@.len(),
        forall|i: int|
            0 <= i < ledger.conflicts@.len() ==> #[trigger] ledger@.conflicts[i]
                == ledger.conflicts@[i]@,
        ledger@.changes.len() == ledger.changes@.len(),
        forall|i: int|
            0 <= i < ledger.changes@.len() ==> #[trigger] ledger@.changes[i]
                == ledger.changes@[i]@,
{
}

/// The view of a change is of the same kind, and holds each of its parts.
pub proof fn law_a_change_is_seen_as_it_is(change: Change)
    ensures
        match change {
            Change::Rewrite { replaced, fact, at } => change@ == (ChangeModel::Rewrite {
                replaced,
                fact: fact@,
                at,
            }),
            Change::Invalidate { fact_id, at } => change@ == (ChangeModel::Invalidate {
                fact_id,
                at,
            }),
            Change::Restore { fact_id } => change@ == (ChangeModel::Restore { fact_id }),
            Change::Raise { conflict } => change@ == (ChangeModel::Raise { conflict: conflict@ }),
            Change::Settle { kb_id, conflict_id, resolution, at } => change@ == (
            ChangeModel::Settle { kb_id, conflict_id, resolution: resolution@, at }),
            Change::SettleSiblings { new_fact_id, except, resolution, at } => change@ == (
            ChangeModel::SettleSiblings { new_fact_id, except, resolution: resolution@, at }),
        },
{
}

/// The view of a report holds what was corrected, and the count.
pub proof fn law_a_report_is_seen_as_it_is(r: ReconcileReport)
    ensures
        r@.corrected == r.corrected@,
        r@.conflicts == r.conflicts,
{
}

/// The view of an interval holds its ends and their precision.
pub proof fn law_an_interval_is_seen_as_it_is(v: Validity)
    ensures
        v@.from == v.from,
        v@.to == v.to,
        v@.from_precision is Some <==> v.from_precision is Some,
        v.from_precision is Some ==> v@.from_precision == Some(v.from_precision->0@),
        v@.to_precision is Some <==> v.to_precision is Some,
        v.to_precision is Some ==> v@.to_precision == Some(v.to_precision->0@),
{
}

/// The view of an open value holds each of its parts.
pub proof fn law_a_value_is_seen_as_it_is(v: OpenValue)
    ensures
        v@.fact_id == v.fact_id,
        v@.name == v.name@,
        v@.valid_from == v.valid_from,
        v@.confidence == v.confidence,
{
}

/// The view of a holder holds its name and its values, one by one.
pub proof fn law_a_holder_is_seen_as_it_is(h: HolderExample)
    ensures
        h@.holder == h.holder@,
        h@.values.len() == h.values@.len(),
        forall|i: int| 0 <= i < h.values@.len() ==> #[trigger] h@.values[i] == h.values@[i]@,
{
}

/// The view of a candidate holds each of its parts.
pub proof fn law_a_candidate_is_seen_as_it_is(c: UniquenessCandidate)
    ensures
        c@.predicate_id == c.predicate_id,
        c@.key == c.key@,
        c@.label == c.label@,
        c@.kind == c.kind@,
        c@.side == c.side@,
        c@.declared == c.declared,
        c@.holders == c.holders,
        c@.open_facts == c.open_facts,
        c@.would_close == c.would_close,
        c@.would_review == c.would_review,
        c@.examples.len() == c.examples@.len(),
        forall|i: int| 0 <= i < c.examples@.len() ==> #[trigger] c@.examples[i] == c.examples@[i]@,
{
}

/// The view of what was read of a literal holds each of its parts.
pub proof fn law_a_literal_is_seen_as_it_is(v: Literal)
    ensures
        v@.text == opt_text(v.text),
        v@.value == opt_text(v.value),
        v@.value_text == opt_text(v.value_text),
        v@.unit == opt_text(v.unit),
        v@.whole == v.whole@,
{
}

/// The view of a refusal is of the same kind, and holds its words.
pub proof fn law_a_refusal_is_seen_as_it_is(e: AppError)
    ensures
        match e {
            AppError::NotFound => e@ == ErrorModel::NotFound,
            AppError::Invalid { code, message } => e@ == (ErrorModel::Invalid {
                code: code@,
                message: message@,
            }),
            AppError::Validation(message) => e@ == ErrorModel::Validation(message@),
            AppError::NegativeOffset => e@ == ErrorModel::NegativeOffset,
            AppError::NegativeLimit => e@ == ErrorModel::NegativeLimit,
        },
{
}

/// The views of lists are the views of what they hold, in the same order.
pub proof fn law_lists_are_seen_as_they_are(
    views: Seq<ConflictView>,
    rows: Seq<Row>,
    values: Seq<OpenValue>,
    found: Seq<UniquenessCandidate>,
)
    ensures
        conflict_views(views).len() == views.len(),
        forall|i: int| 0 <= i < views.len() ==> #[trigger] conflict_views(views)[i] == views[i]@,
        row_models(rows).len() == rows.len(),
        forall|i: int| 0 <= i < rows.len() ==> #[trigger] row_models(rows)[i] == rows[i]@,
        value_models(values).len() == values.len(),
        forall|i: int| 0 <= i < values.len() ==> #[trigger] value_models(values)[i] == values[i]@,
        candidate_models(found).len() == found.len(),
        forall|i: int| 0 <= i < found.len() ==> #[trigger] candidate_models(found)[i] == found[i]@,
{
}

} // verus!
