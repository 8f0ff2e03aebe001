//! The tables of the ledger, and the changes that may be made to them.
//!
//! A [`Ledger`] is the part of the stored tables that an operation works on. Every change to it
//! is also written to its `changes`, in order, so that the same changes can be made to the
//! stored tables.

use crate::confidence::Confidence;
use crate::order::{first, lemma_first, lemma_first_is};
use crate::text::{copy_text, opt_text, same_text};
use vstd::prelude::*;

verus! {

/// A fact: that a subject stands in a relation to an entity or a literal, for some time.
///
/// `object_value` is the JSON text of a literal. A fact is never edited: it is replaced by
/// another that supersedes it, and then has an `invalidated_at`.
#[derive(Debug)]
pub struct Fact {
    pub id: u128,
    pub kb_id: u128,
    pub subject_id: u128,
    pub predicate_id: Option<u128>,
    pub object_id: Option<u128>,
    pub object_value: Option<String>,
    pub valid_from: Option<i64>,
    pub valid_from_precision: Option<String>,
    pub valid_to: Option<i64>,
    pub valid_to_precision: Option<String>,
    pub confidence: Confidence,
    pub supersedes: Option<u128>,
    pub attested_from: Option<i64>,
    pub attested_to: Option<i64>,
    pub recorded_at: i64,
    pub invalidated_at: Option<i64>,
}

/// What a [`Fact`] says.
pub struct FactModel {
    pub id: u128,
    pub kb_id: u128,
    pub subject_id: u128,
    pub predicate_id: Option<u128>,
    pub object_id: Option<u128>,
    pub object_value: Option<Seq<char>>,
    pub valid_from: Option<i64>,
    pub valid_from_precision: Option<Seq<char>>,
    pub valid_to: Option<i64>,
    pub valid_to_precision: Option<Seq<char>>,
    pub confidence: Confidence,
    pub supersedes: Option<u128>,
    pub attested_from: Option<i64>,
    pub attested_to: Option<i64>,
    pub recorded_at: i64,
    pub invalidated_at: Option<i64>,
}

impl FactModel {
    /// The fact is part of the present record.
    pub open spec fn is_alive(self) -> bool {
        self.invalidated_at is None
    }

    /// The fact has no end, neither a known nor an unknown one.
    pub open spec fn is_open(self) -> bool {
        self.valid_to is None && self.valid_to_precision is None
    }
}

impl View for Fact {
    type V = FactModel;

    open spec fn view(&self) -> FactModel {
        FactModel {
            id: self.id,
            kb_id: self.kb_id,
            subject_id: self.subject_id,
            predicate_id: self.predicate_id,
            object_id: self.object_id,
            object_value: opt_text(self.object_value),
            valid_from: self.valid_from,
            valid_from_precision: opt_text(self.valid_from_precision),
            valid_to: self.valid_to,
            valid_to_precision: opt_text(self.valid_to_precision),
            confidence: self.confidence,
            supersedes: self.supersedes,
            attested_from: self.attested_from,
            attested_to: self.attested_to,
            recorded_at: self.recorded_at,
            invalidated_at: self.invalidated_at,
        }
    }
}

impl Fact {
    /// Whether the fact is part of the present record.
    pub fn is_alive(&self) -> (r: bool)
        ensures
            r == self@.is_alive(),
    {
        self.invalidated_at.is_none()
    }

    /// Whether the fact has no end, neither a known nor an unknown one.
    pub fn is_open(&self) -> (r: bool)
        ensures
            r == self@.is_open(),
    {
        self.valid_to.is_none() && self.valid_to_precision.is_none()
    }

    /// A copy of the fact.
    pub fn copied(&self) -> (r: Fact)
        ensures
            r == *self,
    {
        Fact {
            id: self.id,
            kb_id: self.kb_id,
            subject_id: self.subject_id,
            predicate_id: self.predicate_id,
            object_id: self.object_id,
            object_value: copy_text(&self.object_value),
            valid_from: self.valid_from,
            valid_from_precision: copy_text(&self.valid_from_precision),
            valid_to: self.valid_to,
            valid_to_precision: copy_text(&self.valid_to_precision),
            confidence: self.confidence,
            supersedes: self.supersedes,
            attested_from: self.attested_from,
            attested_to: self.attested_to,
            recorded_at: self.recorded_at,
            invalidated_at: self.invalidated_at,
        }
    }
}

/// Where a fact was read: a place in a document, and the words there.
#[derive(Debug)]
pub struct Evidence {
    pub fact_id: u128,
    pub chunk_id: Option<u128>,
    pub quote: Option<String>,
    pub proposed_predicate: Option<String>,
    pub document_id: Option<u128>,
    pub doc_version: Option<i64>,
}

/// A document, its date, and where that date is from.
#[derive(Debug)]
pub struct Document {
    pub id: u128,
    pub doc_time: Option<i64>,
    pub doc_time_source: Option<String>,
}

/// What qualifies a fact: an amount, an office.
#[derive(Debug)]
pub struct Qualifier {
    pub fact_id: u128,
    pub qualifier_type_id: u128,
    pub value: Option<String>,
    pub entity_id: Option<u128>,
}

/// A relation or an attribute, and what is declared of it.
#[derive(Debug)]
pub struct RelationType {
    pub id: u128,
    pub kb_id: u128,
    pub key: String,
    pub label: String,
    pub kind: String,
    pub temporal: String,
    pub functional: bool,
    pub inverse_functional: bool,
    pub builtin: bool,
}

/// An entity and its name.
#[derive(Debug)]
pub struct Entity {
    pub id: u128,
    pub canonical_name: String,
}

/// Two facts that a person has to decide between.
#[derive(Debug)]
pub struct FactConflict {
    pub id: u128,
    pub kb_id: u128,
    pub old_fact_id: u128,
    pub new_fact_id: u128,
    pub reason: String,
    pub status: String,
    pub resolution: Option<String>,
    pub created_at: i64,
    pub resolved_at: Option<i64>,
}

/// What a [`FactConflict`] says.
pub struct ConflictModel {
    pub id: u128,
    pub kb_id: u128,
    pub old_fact_id: u128,
    pub new_fact_id: u128,
    pub reason: Seq<char>,
    pub status: Seq<char>,
    pub resolution: Option<Seq<char>>,
    pub created_at: i64,
    pub resolved_at: Option<i64>,
}

impl View for FactConflict {
    type V = ConflictModel;

    open spec fn view(&self) -> ConflictModel {
        ConflictModel {
            id: self.id,
            kb_id: self.kb_id,
            old_fact_id: self.old_fact_id,
            new_fact_id: self.new_fact_id,
            reason: self.reason@,
            status: self.status@,
            resolution: opt_text(self.resolution),
            created_at: self.created_at,
            resolved_at: self.resolved_at,
        }
    }
}

impl FactConflict {
    /// A copy of the conflict.
    pub fn copied(&self) -> (r: FactConflict)
        ensures
            r == *self,
    {
        FactConflict {
            id: self.id,
            kb_id: self.kb_id,
            old_fact_id: self.old_fact_id,
            new_fact_id: self.new_fact_id,
            reason: self.reason.clone(),
            status: self.status.clone(),
            resolution: copy_text(&self.resolution),
            created_at: self.created_at,
            resolved_at: self.resolved_at,
        }
    }
}

/// A change to the tables.
#[derive(Debug)]
pub enum Change {
    /// Insert a fact in the place of another: the other is invalidated, and its evidence and its
    /// qualifiers are copied to the new one.
    Rewrite { replaced: u128, fact: Fact, at: i64 },
    /// Take a fact out of the present record.
    Invalidate { fact_id: u128, at: i64 },
    /// Take a fact back into the present record.
    Restore { fact_id: u128 },
    /// Insert a conflict, unless there is one of the same two facts, or an open one of the two in
    /// the other order.
    Raise { conflict: FactConflict },
    /// Mark a conflict as resolved.
    Settle { kb_id: u128, conflict_id: u128, resolution: String, at: i64 },
    /// Mark the other open conflicts of a new fact as resolved.
    SettleSiblings { new_fact_id: u128, except: u128, resolution: String, at: i64 },
}

/// What a [`Change`] says.
pub enum ChangeModel {
    Rewrite { replaced: u128, fact: FactModel, at: i64 },
    Invalidate { fact_id: u128, at: i64 },
    Restore { fact_id: u128 },
    Raise { conflict: ConflictModel },
    Settle { kb_id: u128, conflict_id: u128, resolution: Seq<char>, at: i64 },
    SettleSiblings { new_fact_id: u128, except: u128, resolution: Seq<char>, at: i64 },
}

impl View for Change {
    type V = ChangeModel;

    open spec fn view(&self) -> ChangeModel {
        match *self {
            Change::Rewrite { replaced, fact, at } => ChangeModel::Rewrite {
                replaced,
                fact: fact@,
                at,
            },
            Change::Invalidate { fact_id, at } => ChangeModel::Invalidate { fact_id, at },
            Change::Restore { fact_id } => ChangeModel::Restore { fact_id },
            Change::Raise { conflict } => ChangeModel::Raise { conflict: conflict@ },
            Change::Settle { kb_id, conflict_id, resolution, at } => ChangeModel::Settle {
                kb_id,
                conflict_id,
                resolution: resolution@,
                at,
            },
            Change::SettleSiblings {
                new_fact_id,
                except,
                resolution,
                at,
            } => ChangeModel::SettleSiblings { new_fact_id, except, resolution: resolution@, at },
        }
    }
}

/// The part of the stored tables that an operation works on.
///
/// `relations` and `entities` are in the order in which they are to be shown: by key and by
/// name, as the store collates them.
#[derive(Debug)]
pub struct Ledger {
    pub facts: Vec<Fact>,
    pub evidence: Vec<Evidence>,
    pub documents: Vec<Document>,
    pub qualifiers: Vec<Qualifier>,
    pub relations: Vec<RelationType>,
    pub entities: Vec<Entity>,
    pub conflicts: Vec<FactConflict>,
    pub changes: Vec<Change>,
}

/// What a [`Ledger`] holds.
#[verifier::ext_equal]
pub struct LedgerModel {
    pub facts: Seq<FactModel>,
    pub evidence: Seq<Evidence>,
    pub documents: Seq<Document>,
    pub qualifiers: Seq<Qualifier>,
    pub relations: Seq<RelationType>,
    pub entities: Seq<Entity>,
    pub conflicts: Seq<ConflictModel>,
    pub changes: Seq<ChangeModel>,
}

/// The contents of a list of facts.
pub open spec fn fact_models(s: Seq<Fact>) -> Seq<FactModel> {
    Seq::new(s.len(), |i: int| s[i]@)
}

/// The contents of a list of conflicts.
pub open spec fn conflict_models(s: Seq<FactConflict>) -> Seq<ConflictModel> {
    Seq::new(s.len(), |i: int| s[i]@)
}

/// The contents of a list of changes.
pub open spec fn change_models(s: Seq<Change>) -> Seq<ChangeModel> {
    Seq::new(s.len(), |i: int| s[i]@)
}

impl View for Ledger {
    type V = LedgerModel;

    open spec fn view(&self) -> LedgerModel {
        LedgerModel {
            facts: fact_models(self.facts@),
            evidence: self.evidence@,
            documents: self.documents@,
            qualifiers: self.qualifiers@,
            relations: self.relations@,
            entities: self.entities@,
            conflicts: conflict_models(self.conflicts@),
            changes: change_models(self.changes@),
        }
    }
}

/// A fact as it is once the fact `id` is invalidated.
pub open spec fn struck(id: u128, at: i64) -> spec_fn(FactModel) -> FactModel {
    |f: FactModel|
        if f.id == id {
            FactModel { invalidated_at: Some(at), ..f }
        } else {
            f
        }
}

/// A fact as it is once the fact `id` is restored.
pub open spec fn revived(id: u128) -> spec_fn(FactModel) -> FactModel {
    |f: FactModel|
        if f.id == id {
            FactModel { invalidated_at: None, ..f }
        } else {
            f
        }
}

/// Evidence of a fact.
pub open spec fn evidence_of(fact_id: u128) -> spec_fn(Evidence) -> bool {
    |e: Evidence| e.fact_id == fact_id
}

/// The same evidence, of another fact.
pub open spec fn evidence_for(fact_id: u128) -> spec_fn(Evidence) -> Evidence {
    |e: Evidence| Evidence { fact_id, ..e }
}

/// A qualifier of a fact.
pub open spec fn qualifier_of(fact_id: u128) -> spec_fn(Qualifier) -> bool {
    |q: Qualifier| q.fact_id == fact_id
}

/// The same qualifier, of another fact.
pub open spec fn qualifier_for(fact_id: u128) -> spec_fn(Qualifier) -> Qualifier {
    |q: Qualifier| Qualifier { fact_id, ..q }
}

/// The evidence with that of `from` once more, for `to`.
pub open spec fn evidence_copied(s: Seq<Evidence>, from: u128, to: u128) -> Seq<Evidence> {
    s + s.filter(evidence_of(from)).map_values(evidence_for(to))
}

/// The qualifiers with those of `from` once more, for `to`.
pub open spec fn qualifiers_copied(s: Seq<Qualifier>, from: u128, to: u128) -> Seq<Qualifier> {
    s + s.filter(qualifier_of(from)).map_values(qualifier_for(to))
}

/// A conflict of these two facts.
pub open spec fn conflict_between(old_fact_id: u128, new_fact_id: u128) -> spec_fn(
    ConflictModel,
) -> bool {
    |c: ConflictModel| c.old_fact_id == old_fact_id && c.new_fact_id == new_fact_id
}

/// A conflict of these two facts, in this order, that is open.
pub open spec fn pending_between(old_fact_id: u128, new_fact_id: u128) -> spec_fn(
    ConflictModel,
) -> bool {
    |c: ConflictModel|
        c.old_fact_id == old_fact_id && c.new_fact_id == new_fact_id && c.status == "open"@
}

/// These two facts are left to a person, in this order, at a moment.
pub open spec fn asks(old_fact_id: u128, new_fact_id: u128, at: i64) -> spec_fn(ChangeModel) -> bool {
    |change: ChangeModel|
        match change {
            ChangeModel::Raise { conflict } => {
                &&& conflict.old_fact_id == old_fact_id
                &&& conflict.new_fact_id == new_fact_id
                &&& conflict.created_at == at
            },
            _ => false,
        }
}

/// A conflict as it is once resolved.
pub open spec fn resolved(c: ConflictModel, resolution: Seq<char>, at: i64) -> ConflictModel {
    ConflictModel {
        status: "resolved"@,
        resolution: Some(resolution),
        resolved_at: Some(at),
        ..c
    }
}

/// A conflict as it is once the conflict `conflict_id` of a knowledge base is settled.
pub open spec fn settled(
    kb_id: u128,
    conflict_id: u128,
    resolution: Seq<char>,
    at: i64,
) -> spec_fn(ConflictModel) -> ConflictModel {
    |c: ConflictModel|
        if c.id == conflict_id && c.kb_id == kb_id {
            resolved(c, resolution, at)
        } else {
            c
        }
}

/// A conflict as it is once the other open conflicts of a new fact are settled.
pub open spec fn settled_sibling(
    new_fact_id: u128,
    except: u128,
    resolution: Seq<char>,
    at: i64,
) -> spec_fn(ConflictModel) -> ConflictModel {
    |c: ConflictModel|
        if c.new_fact_id == new_fact_id && c.status == "open"@ && c.id != except {
            resolved(c, resolution, at)
        } else {
            c
        }
}

impl LedgerModel {
    /// The two facts are with a person, in this order.
    pub open spec fn is_pending(self, old_fact_id: u128, new_fact_id: u128) -> bool {
        first(self.conflicts, pending_between(old_fact_id, new_fact_id)) is Some
    }

    /// The two facts are with a person, and need not be left to one again at a moment, that of a
    /// transaction: they are in the other order, or the transaction has done it already.
    pub open spec fn is_asked(self, old_fact_id: u128, new_fact_id: u128, at: i64) -> bool {
        ||| self.is_pending(new_fact_id, old_fact_id)
        ||| self.is_pending(old_fact_id, new_fact_id) && first(
            self.changes,
            asks(old_fact_id, new_fact_id, at),
        ) is Some
    }

    /// The tables after a change. `changes` stays.
    pub open spec fn apply(self, change: ChangeModel) -> LedgerModel {
        match change {
            ChangeModel::Rewrite { replaced, fact, at } => LedgerModel {
                facts: self.facts.map_values(struck(replaced, at)).push(fact),
                evidence: evidence_copied(self.evidence, replaced, fact.id),
                qualifiers: qualifiers_copied(self.qualifiers, replaced, fact.id),
                ..self
            },
            ChangeModel::Invalidate { fact_id, at } => LedgerModel {
                facts: self.facts.map_values(struck(fact_id, at)),
                ..self
            },
            ChangeModel::Restore { fact_id } => LedgerModel {
                facts: self.facts.map_values(revived(fact_id)),
                ..self
            },
            ChangeModel::Raise { conflict } => if first(
                self.conflicts,
                conflict_between(conflict.old_fact_id, conflict.new_fact_id),
            ) is Some || self.is_pending(conflict.new_fact_id, conflict.old_fact_id) {
                self
            } else {
                LedgerModel { conflicts: self.conflicts.push(conflict), ..self }
            },
            ChangeModel::Settle { kb_id, conflict_id, resolution, at } => LedgerModel {
                conflicts: self.conflicts.map_values(settled(kb_id, conflict_id, resolution, at)),
                ..self
            },
            ChangeModel::SettleSiblings {
                new_fact_id,
                except,
                resolution,
                at,
            } => LedgerModel {
                conflicts: self.conflicts.map_values(
                    settled_sibling(new_fact_id, except, resolution, at),
                ),
                ..self
            },
        }
    }

    /// The ledger after a change that is also written down.
    pub open spec fn commit(self, change: ChangeModel) -> LedgerModel {
        LedgerModel { changes: self.changes.push(change), ..self.apply(change) }
    }

    /// The tables after a list of changes. `changes` stays.
    pub open spec fn replay(self, changes: Seq<ChangeModel>) -> LedgerModel
        decreases changes.len(),
    {
        if changes.len() == 0 {
            self
        } else {
            self.replay(changes.drop_last()).apply(changes.last())
        }
    }
}

/// Copies the evidence of a fact to the one that supersedes it: an interval was corrected, not
/// what the text says.
pub fn copy_evidence(evidence: &mut Vec<Evidence>, from: u128, to: u128)
    ensures
        final(evidence)@ == evidence_copied(old(evidence)@, from, to),
{
    let ghost all = evidence@;
    let n: usize = evidence.len();
    let mut i: usize = 0;
    proof {
        reveal(Seq::filter);
        assert(all.take(0).filter(evidence_of(from)).map_values(evidence_for(to)) =~= Seq::<
            Evidence,
        >::empty());
        assert(evidence@ =~= all + all.take(0).filter(evidence_of(from)).map_values(
            evidence_for(to),
        ));
    }
    while i < n
        invariant
            i <= n,
            n == all.len(),
            evidence@ == all + all.take(i as int).filter(evidence_of(from)).map_values(
                evidence_for(to),
            ),
        decreases n - i,
    {
        proof {
            reveal(Seq::filter);
            assert(all.take(i + 1).drop_last() =~= all.take(i as int));
            assert(evidence@[i as int] == all[i as int]);
        }
        let ghost copies = all.take(i as int).filter(evidence_of(from));
        if evidence[i].fact_id == from {
            let copy = Evidence {
                fact_id: to,
                chunk_id: evidence[i].chunk_id,
                quote: copy_text(&evidence[i].quote),
                proposed_predicate: copy_text(&evidence[i].proposed_predicate),
                document_id: evidence[i].document_id,
                doc_version: evidence[i].doc_version,
            };
            evidence.push(copy);
            assert(copies.push(all[i as int]).map_values(evidence_for(to)) =~= copies.map_values(
                evidence_for(to),
            ).push(copy));
            assert(evidence@ =~= all + copies.push(all[i as int]).map_values(evidence_for(to)));
        }
        i = i + 1;
    }
    assert(all.take(n as int) =~= all);
}

/// Copies the qualifiers of a fact to the one that supersedes it.
pub fn copy_qualifiers(qualifiers: &mut Vec<Qualifier>, from: u128, to: u128)
    ensures
        final(qualifiers)@ == qualifiers_copied(old(qualifiers)@, from, to),
{
    let ghost all = qualifiers@;
    let n: usize = qualifiers.len();
    let mut i: usize = 0;
    proof {
        reveal(Seq::filter);
        assert(all.take(0).filter(qualifier_of(from)).map_values(qualifier_for(to)) =~= Seq::<
            Qualifier,
        >::empty());
        assert(qualifiers@ =~= all + all.take(0).filter(qualifier_of(from)).map_values(
            qualifier_for(to),
        ));
    }
    while i < n
        invariant
            i <= n,
            n == all.len(),
            qualifiers@ == all + all.take(i as int).filter(qualifier_of(from)).map_values(
                qualifier_for(to),
            ),
        decreases n - i,
    {
        proof {
            reveal(Seq::filter);
            assert(all.take(i + 1).drop_last() =~= all.take(i as int));
            assert(qualifiers@[i as int] == all[i as int]);
        }
        let ghost copies = all.take(i as int).filter(qualifier_of(from));
        if qualifiers[i].fact_id == from {
            let copy = Qualifier {
                fact_id: to,
                qualifier_type_id: qualifiers[i].qualifier_type_id,
                value: copy_text(&qualifiers[i].value),
                entity_id: qualifiers[i].entity_id,
            };
            qualifiers.push(copy);
            assert(copies.push(all[i as int]).map_values(qualifier_for(to)) =~= copies.map_values(
                qualifier_for(to),
            ).push(copy));
            assert(qualifiers@ =~= all + copies.push(all[i as int]).map_values(qualifier_for(to)));
        }
        i = i + 1;
    }
    assert(all.take(n as int) =~= all);
}

impl Ledger {
    /// An empty ledger.
    pub fn new() -> (r: Ledger)
        ensures
            r@ == (LedgerModel {
                facts: Seq::empty(),
                evidence: Seq::empty(),
                documents: Seq::empty(),
                qualifiers: Seq::empty(),
                relations: Seq::empty(),
                entities: Seq::empty(),
                conflicts: Seq::empty(),
                changes: Seq::empty(),
            }),
    {
        let r = Ledger {
            facts: Vec::new(),
            evidence: Vec::new(),
            documents: Vec::new(),
            qualifiers: Vec::new(),
            relations: Vec::new(),
            entities: Vec::new(),
            conflicts: Vec::new(),
            changes: Vec::new(),
        };
        assert(r@.facts =~= Seq::empty());
        assert(r@.conflicts =~= Seq::empty());
        assert(r@.changes =~= Seq::empty());
        r
    }

    /// Sets when the fact `id` was invalidated.
    fn set_invalidated(&mut self, id: u128, at: Option<i64>)
        ensures
            final(self)@.facts == old(self)@.facts.map_values(
                |f: FactModel|
                    if f.id == id {
                        FactModel { invalidated_at: at, ..f }
                    } else {
                        f
                    },
            ),
            final(self)@ == (LedgerModel { facts: final(self)@.facts, ..old(self)@ }),
    {
        let mut i: usize = 0;
        while i < self.facts.len()
            invariant
                i <= self.facts@.len(),
                self.facts@.len() == old(self).facts@.len(),
                self@ == (LedgerModel { facts: self@.facts, ..old(self)@ }),
                forall|j: int|
                    0 <= j < i ==> #[trigger] self@.facts[j] == if old(self)@.facts[j].id == id {
                        FactModel { invalidated_at: at, ..old(self)@.facts[j] }
                    } else {
                        old(self)@.facts[j]
                    },
                forall|j: int|
                    i <= j < self.facts@.len() ==> #[trigger] self@.facts[j]
                        == old(self)@.facts[j],
            decreases self.facts@.len() - i,
        {
            let ghost before = self@.facts;
            assert(self@.facts[i as int] == self.facts@[i as int]@);
            if self.facts[i].id == id {
                self.facts[i].invalidated_at = at;
                assert(forall|j: int|
                    0 <= j < self.facts@.len() && j != i ==> #[trigger] self@.facts[j]
                        == before[j]);
            }
            i = i + 1;
        }
        assert(self@.facts =~= old(self)@.facts.map_values(
            |f: FactModel|
                if f.id == id {
                    FactModel { invalidated_at: at, ..f }
                } else {
                    f
                },
        ));
    }

    /// Writes a change down.
    fn log(&mut self, change: Change)
        ensures
            final(self)@ == (LedgerModel {
                changes: old(self)@.changes.push(change@),
                ..old(self)@
            }),
    {
        self.changes.push(change);
        assert(self@.changes =~= old(self)@.changes.push(change@));
    }

    /// Inserts `fact` in the place of the fact `replaced`, which is invalidated. Its evidence and
    /// its qualifiers go along.
    pub fn rewrite(&mut self, replaced: u128, fact: Fact, at: i64)
        ensures
            final(self)@ == old(self)@.commit(
                ChangeModel::Rewrite { replaced, fact: fact@, at },
            ),
    {
        let id: u128 = fact.id;
        let written = fact.copied();
        self.set_invalidated(replaced, Some(at));
        assert(self@.facts =~= old(self)@.facts.map_values(struck(replaced, at)));
        let ghost before = self@.facts;
        self.facts.push(fact);
        assert(self@.facts =~= before.push(fact@));
        copy_evidence(&mut self.evidence, replaced, id);
        copy_qualifiers(&mut self.qualifiers, replaced, id);
        self.log(Change::Rewrite { replaced, fact: written, at });
    }

    /// Takes a fact out of the present record.
    pub fn invalidate(&mut self, fact_id: u128, at: i64)
        ensures
            final(self)@ == old(self)@.commit(ChangeModel::Invalidate { fact_id, at }),
    {
        self.set_invalidated(fact_id, Some(at));
        assert(self@.facts =~= old(self)@.facts.map_values(struck(fact_id, at)));
        self.log(Change::Invalidate { fact_id, at });
    }

    /// Takes a fact back into the present record.
    pub fn restore(&mut self, fact_id: u128)
        ensures
            final(self)@ == old(self)@.commit(ChangeModel::Restore { fact_id }),
    {
        self.set_invalidated(fact_id, None);
        assert(self@.facts =~= old(self)@.facts.map_values(revived(fact_id)));
        self.log(Change::Restore { fact_id });
    }

    /// Whether there is a conflict of these two facts.
    fn has_conflict(&self, old_fact_id: u128, new_fact_id: u128) -> (r: bool)
        ensures
            r == (first(self@.conflicts, conflict_between(old_fact_id, new_fact_id)) is Some),
    {
        let ghost p = conflict_between(old_fact_id, new_fact_id);
        let mut i: usize = 0;
        while i < self.conflicts.len()
            invariant
                i <= self.conflicts@.len(),
                p == conflict_between(old_fact_id, new_fact_id),
                forall|j: int| 0 <= j < i ==> !p(#[trigger] self@.conflicts[j]),
            decreases self.conflicts@.len() - i,
        {
            assert(self@.conflicts[i as int] == self.conflicts@[i as int]@);
            if self.conflicts[i].old_fact_id == old_fact_id && self.conflicts[i].new_fact_id
                == new_fact_id {
                proof {
                    lemma_first_is(self@.conflicts, p, i as int);
                }
                return true;
            }
            i = i + 1;
        }
        proof {
            lemma_first(self@.conflicts, p);
        }
        false
    }

    /// Whether the two facts are with a person, in this order.
    pub fn pending(&self, old_fact_id: u128, new_fact_id: u128) -> (r: bool)
        ensures
            r == self@.is_pending(old_fact_id, new_fact_id),
    {
        let ghost p = pending_between(old_fact_id, new_fact_id);
        let mut i: usize = 0;
        while i < self.conflicts.len()
            invariant
                i <= self.conflicts@.len(),
                p == pending_between(old_fact_id, new_fact_id),
                forall|j: int| 0 <= j < i ==> !p(#[trigger] self@.conflicts[j]),
            decreases self.conflicts@.len() - i,
        {
            assert(self@.conflicts[i as int] == self.conflicts@[i as int]@);
            if self.conflicts[i].old_fact_id == old_fact_id && self.conflicts[i].new_fact_id
                == new_fact_id && same_text(self.conflicts[i].status.as_str(), "open") {
                proof {
                    lemma_first_is(self@.conflicts, p, i as int);
                }
                return true;
            }
            i = i + 1;
        }
        proof {
            lemma_first(self@.conflicts, p);
        }
        false
    }

    /// Whether the two facts are with a person, and need not be left to one again at a moment.
    pub fn asked(&self, old_fact_id: u128, new_fact_id: u128, at: i64) -> (r: bool)
        ensures
            r == self@.is_asked(old_fact_id, new_fact_id, at),
    {
        if self.pending(new_fact_id, old_fact_id) {
            return true;
        }
        if !self.pending(old_fact_id, new_fact_id) {
            return false;
        }
        let ghost p = asks(old_fact_id, new_fact_id, at);
        let mut i: usize = 0;
        while i < self.changes.len()
            invariant
                i <= self.changes@.len(),
                p == asks(old_fact_id, new_fact_id, at),
                self@.is_pending(old_fact_id, new_fact_id),
                forall|j: int| 0 <= j < i ==> !p(#[trigger] self@.changes[j]),
            decreases self.changes@.len() - i,
        {
            assert(self@.changes[i as int] == self.changes@[i as int]@);
            let found: bool = match &self.changes[i] {
                Change::Raise { conflict } => conflict.old_fact_id == old_fact_id
                    && conflict.new_fact_id == new_fact_id && conflict.created_at == at,
                _ => false,
            };
            if found {
                proof {
                    lemma_first_is(self@.changes, p, i as int);
                }
                return true;
            }
            i = i + 1;
        }
        proof {
            lemma_first(self@.changes, p);
        }
        false
    }

    /// Inserts a conflict, unless there is one of the same two facts, or an open one of the two in
    /// the other order.
    pub fn raise(&mut self, conflict: FactConflict)
        ensures
            final(self)@ == old(self)@.commit(ChangeModel::Raise { conflict: conflict@ }),
    {
        let written = conflict.copied();
        if !self.has_conflict(conflict.old_fact_id, conflict.new_fact_id) && !self.pending(
            conflict.new_fact_id,
            conflict.old_fact_id,
        ) {
            self.conflicts.push(conflict);
            assert(self@.conflicts =~= old(self)@.conflicts.push(conflict@));
        }
        self.log(Change::Raise { conflict: written });
    }

    /// Marks a conflict as resolved.
    pub fn settle(&mut self, kb_id: u128, conflict_id: u128, resolution: &str, at: i64)
        ensures
            final(self)@ == old(self)@.commit(
                ChangeModel::Settle { kb_id, conflict_id, resolution: resolution@, at },
            ),
    {
        let ghost change = settled(kb_id, conflict_id, resolution@, at);
        let mut i: usize = 0;
        while i < self.conflicts.len()
            invariant
                i <= self.conflicts@.len(),
                change == settled(kb_id, conflict_id, resolution@, at),
                self.conflicts@.len() == old(self).conflicts@.len(),
                self@ == (LedgerModel { conflicts: self@.conflicts, ..old(self)@ }),
                forall|j: int|
                    0 <= j < i ==> #[trigger] self@.conflicts[j] == change(
                        old(self)@.conflicts[j],
                    ),
                forall|j: int|
                    i <= j < self.conflicts@.len() ==> #[trigger] self@.conflicts[j]
                        == old(self)@.conflicts[j],
            decreases self.conflicts@.len() - i,
        {
            let ghost before = self@.conflicts;
            assert(self@.conflicts[i as int] == self.conflicts@[i as int]@);
            if self.conflicts[i].id == conflict_id && self.conflicts[i].kb_id == kb_id {
                self.conflicts[i].status = "resolved".to_owned();
                self.conflicts[i].resolution = Some(resolution.to_owned());
                self.conflicts[i].resolved_at = Some(at);
                assert(forall|j: int|
                    0 <= j < self.conflicts@.len() && j != i ==> #[trigger] self@.conflicts[j]
                        == before[j]);
            }
            i = i + 1;
        }
        assert(self@.conflicts =~= old(self)@.conflicts.map_values(change));
        self.log(Change::Settle { kb_id, conflict_id, resolution: resolution.to_owned(), at });
    }

    /// Marks the other open conflicts of a new fact as resolved.
    pub fn settle_siblings(&mut self, new_fact_id: u128, except: u128, resolution: &str, at: i64)
        ensures
            final(self)@ == old(self)@.commit(
                ChangeModel::SettleSiblings { new_fact_id, except, resolution: resolution@, at },
            ),
    {
        let ghost change = settled_sibling(new_fact_id, except, resolution@, at);
        let mut i: usize = 0;
        while i < self.conflicts.len()
            invariant
                i <= self.conflicts@.len(),
                change == settled_sibling(new_fact_id, except, resolution@, at),
                self.conflicts@.len() == old(self).conflicts@.len(),
                self@ == (LedgerModel { conflicts: self@.conflicts, ..old(self)@ }),
                forall|j: int|
                    0 <= j < i ==> #[trigger] self@.conflicts[j] == change(
                        old(self)@.conflicts[j],
                    ),
                forall|j: int|
                    i <= j < self.conflicts@.len() ==> #[trigger] self@.conflicts[j]
                        == old(self)@.conflicts[j],
            decreases self.conflicts@.len() - i,
        {
            let ghost before = self@.conflicts;
            assert(self@.conflicts[i as int] == self.conflicts@[i as int]@);
            if self.conflicts[i].new_fact_id == new_fact_id && same_text(
                self.conflicts[i].status.as_str(),
                "open",
            ) && self.conflicts[i].id != except {
                self.conflicts[i].status = "resolved".to_owned();
                self.conflicts[i].resolution = Some(resolution.to_owned());
                self.conflicts[i].resolved_at = Some(at);
                assert(forall|j: int|
                    0 <= j < self.conflicts@.len() && j != i ==> #[trigger] self@.conflicts[j]
                        == before[j]);
            }
            i = i + 1;
        }
        assert(self@.conflicts =~= old(self)@.conflicts.map_values(change));
        self.log(
            Change::SettleSiblings { new_fact_id, except, resolution: resolution.to_owned(), at },
        );
    }
}

} // verus!
