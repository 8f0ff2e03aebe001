//! What a person decides: the conflicts that the engine left open, and how they are resolved.

use crate::confidence::Confidence;
use crate::decisions::{
    answered_one, law_closing_answers_one_question, law_keeping_answers_one_question,
};
use crate::errors::{AppError, ErrorModel};
use crate::identity::{lemma_filter_contains, lemma_found};
use crate::ledger::{
    struck, ChangeModel, ConflictModel, Entity, FactConflict, FactModel, Ledger, LedgerModel,
};
use crate::order::{
    arrange, first, lemma_arrange, lemma_first, lemma_first_is, lemma_sorted, selected,
    sorted_positions,
};
use crate::rewrite::{
    alive_with_id, close_superseded, ended_at, find_alive, find_fact, find_relation, Tx,
};
use crate::tables::same_facts;
use crate::text::{joined, opt_text, same_text};
use vstd::prelude::*;

verus! {

/// A conflict as a person sees it: the two facts, their names, and when they began.
#[derive(Debug)]
pub struct ConflictView {
    pub id: u128,
    pub reason: String,
    pub created_at: i64,
    pub predicate_label: String,
    pub old_fact_id: u128,
    pub old_subject: String,
    pub old_object: Option<String>,
    pub old_valid_from: Option<i64>,
    pub new_fact_id: u128,
    pub new_subject: String,
    pub new_object: Option<String>,
    pub new_valid_from: Option<i64>,
    pub new_confidence: Confidence,
}

/// What a [`ConflictView`] says.
pub struct ConflictViewModel {
    pub id: u128,
    pub reason: Seq<char>,
    pub created_at: i64,
    pub predicate_label: Seq<char>,
    pub old_fact_id: u128,
    pub old_subject: Seq<char>,
    pub old_object: Option<Seq<char>>,
    pub old_valid_from: Option<i64>,
    pub new_fact_id: u128,
    pub new_subject: Seq<char>,
    pub new_object: Option<Seq<char>>,
    pub new_valid_from: Option<i64>,
    pub new_confidence: Confidence,
}

impl View for ConflictView {
    type V = ConflictViewModel;

    open spec fn view(&self) -> ConflictViewModel {
        ConflictViewModel {
            id: self.id,
            reason: self.reason@,
            created_at: self.created_at,
            predicate_label: self.predicate_label@,
            old_fact_id: self.old_fact_id,
            old_subject: self.old_subject@,
            old_object: opt_text(self.old_object),
            old_valid_from: self.old_valid_from,
            new_fact_id: self.new_fact_id,
            new_subject: self.new_subject@,
            new_object: opt_text(self.new_object),
            new_valid_from: self.new_valid_from,
            new_confidence: self.new_confidence,
        }
    }
}

/// The contents of a list of conflicts as a person sees them.
pub open spec fn conflict_views(s: Seq<ConflictView>) -> Seq<ConflictViewModel> {
    Seq::new(s.len(), |i: int| s[i]@)
}

/// An entity with that identifier.
pub open spec fn entity_with_id(id: u128) -> spec_fn(Entity) -> bool {
    |e: Entity| e.id == id
}

impl LedgerModel {
    /// The name of the entity with that identifier.
    pub open spec fn name_of(self, id: u128) -> Option<Seq<char>> {
        match first(self.entities, entity_with_id(id)) {
            Some(e) => Some(e.canonical_name@),
            None => None,
        }
    }

    /// The name of an object, where it is an entity.
    pub open spec fn object_name(self, object_id: Option<u128>) -> Option<Seq<char>> {
        match object_id {
            Some(id) => self.name_of(id),
            None => None,
        }
    }

    /// The label of a relation.
    pub open spec fn label_of(self, predicate_id: Option<u128>) -> Option<Seq<char>> {
        match predicate_id {
            Some(p) => match self.relation(p) {
                Some(r) => Some(r.label@),
                None => None,
            },
            None => None,
        }
    }

    /// A conflict as a person sees it. `None`: one of the facts, its subject or the relation is
    /// not there.
    pub open spec fn view_of(self, c: ConflictModel) -> Option<ConflictViewModel> {
        match (self.fact(c.old_fact_id), self.fact(c.new_fact_id)) {
            (Some(o), Some(n)) => match (
                self.name_of(o.subject_id),
                self.name_of(n.subject_id),
                self.label_of(o.predicate_id),
            ) {
                (Some(old_subject), Some(new_subject), Some(predicate_label)) => Some(
                    ConflictViewModel {
                        id: c.id,
                        reason: c.reason,
                        created_at: c.created_at,
                        predicate_label,
                        old_fact_id: c.old_fact_id,
                        old_subject,
                        old_object: self.object_name(o.object_id),
                        old_valid_from: o.valid_from,
                        new_fact_id: c.new_fact_id,
                        new_subject,
                        new_object: self.object_name(n.object_id),
                        new_valid_from: n.valid_from,
                        new_confidence: n.confidence,
                    },
                ),
                _ => None,
            },
            _ => None,
        }
    }
}

/// An open conflict of a knowledge base that can be shown. Where one of its facts has left the
/// present record there is nothing left to decide: such a conflict is stale, and is not shown.
pub open spec fn to_show(l: LedgerModel, kb_id: u128) -> spec_fn(ConflictModel) -> bool {
    |c: ConflictModel|
        {
            &&& c.kb_id == kb_id
            &&& c.status == "open"@
            &&& l.alive(c.old_fact_id) is Some
            &&& l.alive(c.new_fact_id) is Some
            &&& l.view_of(c) is Some
        }
}

/// Conflicts are sorted from the newest to the oldest, and those of one moment by descending
/// identifier.
pub open spec fn newest_first() -> spec_fn(ConflictModel) -> (int, int) {
    |c: ConflictModel| (-(c.created_at as int), u128::MAX - c.id)
}

/// A conflict as a person sees it.
pub open spec fn shown(l: LedgerModel) -> spec_fn(ConflictModel) -> ConflictViewModel {
    |c: ConflictModel| l.view_of(c)->0
}

/// At most `limit` elements, from behind the first `offset`.
pub open spec fn page<A>(s: Seq<A>, limit: int, offset: int) -> Seq<A> {
    let rest = if offset < s.len() {
        s.skip(offset)
    } else {
        Seq::empty()
    };
    if limit < rest.len() {
        rest.take(limit)
    } else {
        rest
    }
}

/// The name of the entity with that identifier.
pub fn find_name(ledger: &Ledger, id: u128) -> (r: Option<String>)
    ensures
        opt_text(r) == ledger@.name_of(id),
{
    let ghost p = entity_with_id(id);
    let mut i: usize = 0;
    while i < ledger.entities.len()
        invariant
            i <= ledger.entities@.len(),
            p == entity_with_id(id),
            forall|j: int| 0 <= j < i ==> !p(#[trigger] ledger.entities@[j]),
        decreases ledger.entities@.len() - i,
    {
        if ledger.entities[i].id == id {
            proof {
                lemma_first_is(ledger.entities@, p, i as int);
            }
            return Some(ledger.entities[i].canonical_name.clone());
        }
        i = i + 1;
    }
    proof {
        lemma_first(ledger.entities@, p);
    }
    None
}

/// The name of an object, where it is an entity.
pub fn find_object_name(ledger: &Ledger, object_id: Option<u128>) -> (r: Option<String>)
    ensures
        opt_text(r) == ledger@.object_name(object_id),
{
    match object_id {
        Some(id) => find_name(ledger, id),
        None => None,
    }
}

/// The label of a relation.
fn find_label(ledger: &Ledger, predicate_id: Option<u128>) -> (r: Option<String>)
    ensures
        opt_text(r) == ledger@.label_of(predicate_id),
{
    match predicate_id {
        None => None,
        Some(p) => match find_relation(ledger, p) {
            None => None,
            Some(i) => Some(ledger.relations[i].label.clone()),
        },
    }
}

/// A conflict as a person sees it.
fn conflict_view(ledger: &Ledger, c: &FactConflict) -> (r: Option<ConflictView>)
    ensures
        match r {
            Some(v) => ledger@.view_of(c@) == Some(v@),
            None => ledger@.view_of(c@) is None,
        },
{
    match (find_fact(ledger, c.old_fact_id), find_fact(ledger, c.new_fact_id)) {
        (Some(o), Some(n)) => {
            let old = &ledger.facts[o];
            let new = &ledger.facts[n];
            match (
                find_name(ledger, old.subject_id),
                find_name(ledger, new.subject_id),
                find_label(ledger, old.predicate_id),
            ) {
                (Some(old_subject), Some(new_subject), Some(predicate_label)) => Some(
                    ConflictView {
                        id: c.id,
                        reason: c.reason.clone(),
                        created_at: c.created_at,
                        predicate_label,
                        old_fact_id: c.old_fact_id,
                        old_subject,
                        old_object: find_object_name(ledger, old.object_id),
                        old_valid_from: old.valid_from,
                        new_fact_id: c.new_fact_id,
                        new_subject,
                        new_object: find_object_name(ledger, new.object_id),
                        new_valid_from: new.valid_from,
                        new_confidence: new.confidence,
                    },
                ),
                _ => None,
            }
        },
        _ => None,
    }
}

/// The positions of the conflicts to be shown, from the newest to the oldest.
fn newest_open(ledger: &Ledger, kb_id: u128) -> (r: Vec<usize>)
    ensures
        selected(ledger@.conflicts, r@) == arrange(
            ledger@.conflicts.filter(to_show(ledger@, kb_id)),
            newest_first(),
        ),
        forall|j: int|
            0 <= j < r@.len() ==> (#[trigger] r@[j]) < ledger.conflicts@.len() && to_show(
                ledger@,
                kb_id,
            )(ledger@.conflicts[r@[j] as int]),
{
    let ghost p = to_show(ledger@, kb_id);
    let ghost all = ledger@.conflicts;
    let mut picked: Vec<usize> = Vec::new();
    let mut keys: Vec<(i128, u128)> = Vec::new();
    let mut i: usize = 0;
    proof {
        reveal(Seq::filter);
        assert(selected(all, picked@) =~= all.take(0).filter(p));
    }
    while i < ledger.conflicts.len()
        invariant
            i <= ledger.conflicts@.len(),
            p == to_show(ledger@, kb_id),
            all == ledger@.conflicts,
            selected(all, picked@) == all.take(i as int).filter(p),
            keys@.len() == picked@.len(),
            forall|j: int|
                0 <= j < picked@.len() ==> (#[trigger] picked@[j]) < ledger.conflicts@.len() && p(
                    all[picked@[j] as int],
                ) && newest_first()(all[picked@[j] as int]) == (
                    keys@[j].0 as int,
                    keys@[j].1 as int,
                ),
        decreases ledger.conflicts@.len() - i,
    {
        proof {
            reveal(Seq::filter);
            assert(all.take(i + 1).drop_last() =~= all.take(i as int));
            assert(all[i as int] == ledger.conflicts@[i as int]@);
        }
        let ghost before = picked@;
        let c = &ledger.conflicts[i];
        if c.kb_id == kb_id && same_text(c.status.as_str(), "open") && find_alive(
            ledger,
            c.old_fact_id,
        ).is_some() && find_alive(ledger, c.new_fact_id).is_some() && conflict_view(
            ledger,
            c,
        ).is_some() {
            picked.push(i);
            keys.push((-(c.created_at as i128), u128::MAX - c.id));
            assert(selected(all, picked@) =~= selected(all, before).push(all[i as int]));
        }
        i = i + 1;
    }
    let ghost found = selected(all, picked@);
    assert(all.take(i as int) =~= all);
    let sorted = sorted_positions(&keys);
    proof {
        assert forall|j: int| 0 <= j < found.len() implies newest_first()(#[trigger] found[j]) == (
            keys@[j].0 as int,
            keys@[j].1 as int,
        ) by {
            assert(found[j] == all[picked@[j] as int]);
        }
        lemma_sorted(found, newest_first(), keys@, sorted@);
    }
    let mut r: Vec<usize> = Vec::new();
    let mut k: usize = 0;
    while k < sorted.len()
        invariant
            k <= sorted@.len(),
            sorted@.len() == picked@.len(),
            p == to_show(ledger@, kb_id),
            all == ledger@.conflicts,
            forall|j: int| 0 <= j < sorted@.len() ==> (#[trigger] sorted@[j]) < picked@.len(),
            forall|j: int|
                0 <= j < picked@.len() ==> (#[trigger] picked@[j]) < ledger.conflicts@.len() && p(
                    all[picked@[j] as int],
                ),
            r@.len() == k,
            forall|j: int|
                0 <= j < k ==> #[trigger] r@[j] == picked@[sorted@[j] as int] && r@[j]
                    < ledger.conflicts@.len() && p(all[r@[j] as int]),
        decreases sorted@.len() - k,
    {
        assert(sorted@[k as int] < picked@.len());
        assert(picked@[sorted@[k as int] as int] < ledger.conflicts@.len());
        r.push(picked[sorted[k]]);
        k = k + 1;
    }
    assert(selected(all, r@) =~= selected(found, sorted@));
    r
}

/// The open conflicts of a knowledge base, from the newest to the oldest: at most `limit`, from
/// behind the first `offset`. One with a fact that has left the present record is not among them.
/// Nothing is changed by reading them.
pub fn list_conflicts(ledger: &Ledger, kb_id: u128, limit: i64, offset: i64) -> (r: Result<
    Vec<ConflictView>,
    AppError,
>)
    ensures
        if offset < 0 {
            r matches Err(e) && e@ == ErrorModel::NegativeOffset
        } else if limit < 0 {
            r matches Err(e) && e@ == ErrorModel::NegativeLimit
        } else {
            r matches Ok(views) && conflict_views(views@) == listed(
                ledger@,
                kb_id,
                limit as int,
                offset as int,
            )
        },
{
    if offset < 0 {
        return Err(AppError::NegativeOffset);
    }
    if limit < 0 {
        return Err(AppError::NegativeLimit);
    }
    let order = newest_open(ledger, kb_id);
    let ghost sorted = selected(ledger@.conflicts, order@);
    let n: usize = order.len();
    let start: usize = if (offset as u128) < n as u128 {
        offset as usize
    } else {
        n
    };
    let stop: usize = if (limit as u128) < (n - start) as u128 {
        start + limit as usize
    } else {
        n
    };
    let mut views: Vec<ConflictView> = Vec::new();
    let mut i: usize = start;
    while i < stop
        invariant
            start <= i <= stop <= order@.len(),
            sorted == selected(ledger@.conflicts, order@),
            forall|j: int|
                0 <= j < order@.len() ==> (#[trigger] order@[j]) < ledger.conflicts@.len()
                    && to_show(ledger@, kb_id)(ledger@.conflicts[order@[j] as int]),
            views@.len() == i - start,
            forall|j: int|
                0 <= j < views@.len() ==> (#[trigger] views@[j])@ == shown(ledger@)(
                    sorted[start + j],
                ),
        decreases stop - i,
    {
        let at: usize = order[i];
        assert(ledger@.conflicts[at as int] == ledger.conflicts@[at as int]@);
        assert(sorted[i as int] == ledger@.conflicts[at as int]);
        if let Some(view) = conflict_view(ledger, &ledger.conflicts[at]) {
            views.push(view);
        }
        i = i + 1;
    }
    proof {
        let wanted = page(sorted, limit as int, offset as int);
        assert(wanted.len() == stop - start);
        assert forall|j: int| 0 <= j < wanted.len() implies wanted[j] == sorted[start + j] by {}
        assert(conflict_views(views@) =~= wanted.map_values(shown(ledger@)));
    }
    Ok(views)
}

/// An open conflict of a knowledge base, of which the new fact is there.
pub open spec fn undecided(l: LedgerModel, kb_id: u128, id: u128) -> spec_fn(
    ConflictModel,
) -> bool {
    |c: ConflictModel|
        {
            &&& c.id == id
            &&& c.kb_id == kb_id
            &&& c.status == "open"@
            &&& l.fact(c.new_fact_id) is Some
        }
}

/// Where a fact is closed, and how precise that is: what the person said; or else where the new
/// fact began, as precise as that is known.
pub open spec fn closing_point(
    close_at: Option<i64>,
    close_at_precision: Seq<char>,
    new: FactModel,
) -> Option<(i64, Seq<char>)> {
    match close_at {
        Some(at) => Some((at, close_at_precision)),
        None => match new.valid_from {
            Some(at) => Some(
                (
                    at,
                    match new.valid_from_precision {
                        Some(p) => p,
                        None => "day"@,
                    },
                ),
            ),
            None => None,
        },
    }
}

/// Why a decision is refused.
pub open spec fn undecidable(
    l: LedgerModel,
    kb_id: u128,
    conflict_id: u128,
    resolution: Seq<char>,
    close_at: Option<i64>,
) -> Option<ErrorModel> {
    match first(l.conflicts, undecided(l, kb_id, conflict_id)) {
        None => Some(ErrorModel::NotFound),
        Some(c) => if resolution == "close"@ {
            if close_at is None && l.fact(c.new_fact_id)->0.valid_from is None {
                Some(
                    ErrorModel::Invalid {
                        code: "close_at_required"@,
                        message: "close_at is required when the new fact has no start time"@,
                    },
                )
            } else {
                None
            }
        } else if resolution == "keep"@ || resolution == "reject_new"@ {
            None
        } else {
            Some(ErrorModel::Validation("Unknown resolution: "@ + resolution))
        },
    }
}

/// The ledger after the old fact was closed, with `id` for the row that supersedes it, and the
/// conflict settled.
pub open spec fn decided_close(
    l: LedgerModel,
    kb_id: u128,
    c: ConflictModel,
    at: i64,
    precision: Seq<char>,
    id: u128,
    now: i64,
) -> LedgerModel {
    let closed = match l.alive(c.old_fact_id) {
        Some(f) => l.commit(
            ChangeModel::Rewrite {
                replaced: c.old_fact_id,
                fact: ended_at(f, id, at, precision, now),
                at: now,
            },
        ),
        None => l,
    };
    closed.commit(
        ChangeModel::Settle { kb_id, conflict_id: c.id, resolution: "closed"@, at: now },
    )
}

/// The ledger after both facts were kept.
pub open spec fn decided_keep(l: LedgerModel, kb_id: u128, c: ConflictModel, now: i64) -> LedgerModel {
    l.commit(ChangeModel::Settle { kb_id, conflict_id: c.id, resolution: "kept_both"@, at: now })
}

/// The ledger after the new fact was rejected. The other conflicts of that fact are settled with
/// it: there is nothing left to decide.
pub open spec fn decided_reject(
    l: LedgerModel,
    kb_id: u128,
    c: ConflictModel,
    now: i64,
) -> LedgerModel {
    l.commit(ChangeModel::Invalidate { fact_id: c.new_fact_id, at: now }).commit(
        ChangeModel::SettleSiblings {
            new_fact_id: c.new_fact_id,
            except: c.id,
            resolution: "rejected_new"@,
            at: now,
        },
    ).commit(
        ChangeModel::Settle { kb_id, conflict_id: c.id, resolution: "rejected_new"@, at: now },
    )
}

/// The position of an open conflict of a knowledge base, and that of its new fact.
fn find_undecided(ledger: &Ledger, kb_id: u128, id: u128) -> (r: Option<(usize, usize)>)
    ensures
        match r {
            Some((i, n)) => {
                &&& i < ledger.conflicts@.len()
                &&& n < ledger.facts@.len()
                &&& first(ledger@.conflicts, undecided(ledger@, kb_id, id)) == Some(
                    ledger.conflicts@[i as int]@,
                )
                &&& ledger@.fact(ledger.conflicts@[i as int].new_fact_id) == Some(
                    ledger.facts@[n as int]@,
                )
            },
            None => first(ledger@.conflicts, undecided(ledger@, kb_id, id)) is None,
        },
{
    let ghost p = undecided(ledger@, kb_id, id);
    let mut i: usize = 0;
    while i < ledger.conflicts.len()
        invariant
            i <= ledger.conflicts@.len(),
            p == undecided(ledger@, kb_id, id),
            forall|j: int| 0 <= j < i ==> !p(#[trigger] ledger@.conflicts[j]),
        decreases ledger.conflicts@.len() - i,
    {
        assert(ledger@.conflicts[i as int] == ledger.conflicts@[i as int]@);
        let c = &ledger.conflicts[i];
        if c.id == id && c.kb_id == kb_id && same_text(c.status.as_str(), "open") {
            if let Some(n) = find_fact(ledger, c.new_fact_id) {
                proof {
                    lemma_first_is(ledger@.conflicts, p, i as int);
                }
                return Some((i, n));
            }
        }
        i = i + 1;
    }
    proof {
        lemma_first(ledger@.conflicts, p);
    }
    None
}

/// Resolves a conflict as a person decided: `close` ends the old fact at `close_at`, or else
/// where the new one began; `keep` lets both stand; `reject_new` takes the new fact out of the
/// record.
pub fn resolve_conflict(
    ledger: &mut Ledger,
    tx: &mut Tx,
    kb_id: u128,
    conflict_id: u128,
    resolution: &str,
    close_at: Option<i64>,
    close_at_precision: &str,
) -> (r: Result<(), AppError>)
    ensures
        match undecidable(old(ledger)@, kb_id, conflict_id, resolution@, close_at) {
            Some(error) => {
                &&& r matches Err(e) && e@ == error
                &&& *final(ledger) == *old(ledger)
                &&& *final(tx) == *old(tx)
            },
            None => {
                let l = old(ledger)@;
                let c = first(l.conflicts, undecided(l, kb_id, conflict_id))->0;
                let now = old(tx).now;
                &&& r is Ok
                &&& final(tx).now == now
                &&& if resolution@ == "close"@ {
                    let point = closing_point(
                        close_at,
                        close_at_precision@,
                        l.fact(c.new_fact_id)->0,
                    )->0;
                    if l.alive(c.old_fact_id) is Some {
                        &&& final(tx).drawn().len() == old(tx).drawn().len() + 1
                        &&& final(tx).drawn().drop_last() == old(tx).drawn()
                        &&& final(ledger)@ == decided_close(
                            l,
                            kb_id,
                            c,
                            point.0,
                            point.1,
                            final(tx).drawn().last(),
                            now,
                        )
                    } else {
                        &&& final(tx).drawn() == old(tx).drawn()
                        &&& final(ledger)@ == decided_close(
                            l,
                            kb_id,
                            c,
                            point.0,
                            point.1,
                            0,
                            now,
                        )
                    }
                } else {
                    &&& final(tx).drawn() == old(tx).drawn()
                    &&& final(ledger)@ == if resolution@ == "keep"@ {
                        decided_keep(l, kb_id, c, now)
                    } else {
                        decided_reject(l, kb_id, c, now)
                    }
                }
            },
        },
        r is Ok && resolution@ == "keep"@ ==> {
            &&& answered_one(
                old(ledger)@,
                final(ledger)@,
                kb_id,
                conflict_id,
                "kept_both"@,
                old(tx).now,
            )
            &&& same_facts(old(ledger)@, final(ledger)@)
        },
        r is Ok && resolution@ == "close"@ ==> answered_one(
            old(ledger)@,
            final(ledger)@,
            kb_id,
            conflict_id,
            "closed"@,
            old(tx).now,
        ),
        r is Ok ==> !still_open(final(ledger)@, kb_id, conflict_id),
{
    let ghost p = undecided(ledger@, kb_id, conflict_id);
    proof {
        lemma_first(ledger@.conflicts, p);
        reveal_strlit("close");
        reveal_strlit("keep");
        reveal_strlit("reject_new");
        assert("close"@.len() != "keep"@.len());
        assert("close"@.len() != "reject_new"@.len());
        assert("keep"@.len() != "reject_new"@.len());
    }
    let ghost before = ledger@;
    let ghost c = first(before.conflicts, p)->0;
    proof {
        law_keeping_answers_one_question(before, kb_id, c, tx.now);
    }
    match find_undecided(ledger, kb_id, conflict_id) {
        None => Err(AppError::NotFound),
        Some((i, n)) => {
            let old_fact_id: u128 = ledger.conflicts[i].old_fact_id;
            let new_fact_id: u128 = ledger.conflicts[i].new_fact_id;
            if same_text(resolution, "close") {
                let point: Option<(i64, String)> = match close_at {
                    Some(at) => Some((at, close_at_precision.to_owned())),
                    None => match ledger.facts[n].valid_from {
                        Some(at) => match &ledger.facts[n].valid_from_precision {
                            Some(p) => Some((at, p.clone())),
                            None => Some((at, "day".to_owned())),
                        },
                        None => None,
                    },
                };
                match point {
                    None => Err(
                        AppError::invalid(
                            "close_at_required",
                            "close_at is required when the new fact has no start time",
                        ),
                    ),
                    Some((at, precision)) => {
                        let closed = close_superseded(
                            ledger,
                            tx,
                            old_fact_id,
                            at,
                            precision.as_str(),
                        );
                        proof {
                            if let Some(id) = closed {
                                assert(tx.drawn().drop_last() =~= old(tx).drawn());
                            }
                        }
                        let ghost closed_ledger = ledger@;
                        ledger.settle(kb_id, conflict_id, "closed", tx.now);
                        proof {
                            let id = match closed {
                                Some(id) => id,
                                None => 0,
                            };
                            law_closing_answers_one_question(
                                before,
                                kb_id,
                                c,
                                at,
                                precision@,
                                id,
                                tx.now,
                            );
                            law_a_settled_conflict_is_not_open(
                                closed_ledger,
                                kb_id,
                                conflict_id,
                                "closed"@,
                                tx.now,
                                resolution@,
                                close_at,
                            );
                        }
                        Ok(())
                    },
                }
            } else if same_text(resolution, "keep") {
                ledger.settle(kb_id, conflict_id, "kept_both", tx.now);
                proof {
                    law_a_settled_conflict_is_not_open(
                        before,
                        kb_id,
                        conflict_id,
                        "kept_both"@,
                        tx.now,
                        resolution@,
                        close_at,
                    );
                }
                Ok(())
            } else if same_text(resolution, "reject_new") {
                ledger.invalidate(new_fact_id, tx.now);
                ledger.settle_siblings(new_fact_id, conflict_id, "rejected_new", tx.now);
                let ghost rejected = ledger@;
                ledger.settle(kb_id, conflict_id, "rejected_new", tx.now);
                proof {
                    law_a_settled_conflict_is_not_open(
                        rejected,
                        kb_id,
                        conflict_id,
                        "rejected_new"@,
                        tx.now,
                        resolution@,
                        close_at,
                    );
                }
                Ok(())
            } else {
                Err(AppError::Validation(joined("Unknown resolution: ", resolution)))
            }
        },
    }
}

/// A conflict of an identifier is open.
pub open spec fn still_open(l: LedgerModel, kb_id: u128, id: u128) -> bool {
    exists|i: int|
        0 <= i < l.conflicts.len() && (#[trigger] l.conflicts[i]).id == id && l.conflicts[i].kb_id
            == kb_id && l.conflicts[i].status == "open"@
}

/// A settled conflict is no longer open, and to resolve it once more finds nothing.
pub proof fn law_a_settled_conflict_is_not_open(
    l: LedgerModel,
    kb_id: u128,
    conflict_id: u128,
    stored: Seq<char>,
    at: i64,
    resolution: Seq<char>,
    close_at: Option<i64>,
)
    ensures
        ({
            let after = l.commit(
                ChangeModel::Settle { kb_id, conflict_id, resolution: stored, at },
            );
            &&& !still_open(after, kb_id, conflict_id)
            &&& undecidable(after, kb_id, conflict_id, resolution, close_at) == Some(
                ErrorModel::NotFound,
            )
        }),
{
    let after = l.commit(ChangeModel::Settle { kb_id, conflict_id, resolution: stored, at });
    reveal_strlit("open");
    reveal_strlit("resolved");
    assert("open"@.len() != "resolved"@.len());
    assert forall|i: int| 0 <= i < after.conflicts.len() && (#[trigger] after.conflicts[i]).id
        == conflict_id && after.conflicts[i].kb_id == kb_id implies after.conflicts[i].status
        != "open"@ by {
        assert(after.conflicts[i].status == "resolved"@);
    }
    lemma_first(after.conflicts, undecided(after, kb_id, conflict_id));
}

/// Closing ends the old fact: it leaves the present record, and the row that supersedes it ends on
/// the given day, cut down to its precision.
pub proof fn law_closing_ends_the_old_fact(
    l: LedgerModel,
    kb_id: u128,
    c: ConflictModel,
    at: i64,
    precision: Seq<char>,
    id: u128,
    now: i64,
    i: int,
)
    requires
        l.distinct(),
        l.unused(id),
        0 <= i < l.facts.len(),
        l.facts[i].is_alive(),
        l.facts[i].id == c.old_fact_id,
    ensures
        ({
            let after = decided_close(l, kb_id, c, at, precision, id, now);
            &&& after.alive(c.old_fact_id) is None
            &&& after.alive(id) == Some(ended_at(l.facts[i], id, at, precision, now))
        }),
{
    lemma_found(l, i);
    let after = decided_close(l, kb_id, c, at, precision, id, now);
    let n = l.facts.len() as int;
    let g = ended_at(l.facts[i], id, at, precision, now);
    assert(after.facts.len() == n + 1);
    assert(after.facts[n] == g);
    assert forall|j: int| 0 <= j < n implies (#[trigger] after.facts[j]).id == l.facts[j].id by {}
    assert forall|j: int| 0 <= j < after.facts.len() implies !alive_with_id(c.old_fact_id)(
        #[trigger] after.facts[j],
    ) by {
        if j < n {
            assert(after.facts[j] == struck(c.old_fact_id, now)(l.facts[j]));
        }
    }
    lemma_first(after.facts, alive_with_id(c.old_fact_id));
    assert forall|j: int| 0 <= j < n implies !alive_with_id(id)(#[trigger] after.facts[j]) by {
        assert(l.facts[j].id != id);
    }
    lemma_first_is(after.facts, alive_with_id(id), n);
}

/// Rejecting the new fact takes it out of the present record, and no conflict of it stays open
/// but those of other knowledge bases with the same identifier.
pub proof fn law_rejecting_settles_all_conflicts_of_a_fact(
    l: LedgerModel,
    kb_id: u128,
    c: ConflictModel,
    now: i64,
)
    ensures
        ({
            let after = decided_reject(l, kb_id, c, now);
            &&& after.alive(c.new_fact_id) is None
            &&& forall|i: int|
                0 <= i < after.conflicts.len() && (#[trigger] after.conflicts[i]).new_fact_id
                    == c.new_fact_id && after.conflicts[i].status == "open"@
                    ==> after.conflicts[i].id == c.id && after.conflicts[i].kb_id != kb_id
        }),
{
    reveal_strlit("open");
    reveal_strlit("resolved");
    assert("open"@.len() != "resolved"@.len());
    let after = decided_reject(l, kb_id, c, now);
    assert forall|j: int| 0 <= j < after.facts.len() implies !alive_with_id(c.new_fact_id)(
        #[trigger] after.facts[j],
    ) by {
        assert(after.facts[j] == struck(c.new_fact_id, now)(l.facts[j]));
    }
    lemma_first(after.facts, alive_with_id(c.new_fact_id));
}

/// What a person sees among the open conflicts of a knowledge base.
pub open spec fn listed(l: LedgerModel, kb_id: u128, limit: int, offset: int) -> Seq<
    ConflictViewModel,
> {
    page(
        arrange(l.conflicts.filter(to_show(l, kb_id)), newest_first()),
        limit,
        offset,
    ).map_values(shown(l))
}

/// Nobody is asked about what has left the record: both facts of a listed conflict are present,
/// and the conflict is open.
pub proof fn law_no_listed_conflict_is_stale(
    l: LedgerModel,
    kb_id: u128,
    limit: int,
    offset: int,
    v: ConflictViewModel,
)
    requires
        limit >= 0,
        offset >= 0,
        listed(l, kb_id, limit, offset).contains(v),
    ensures
        l.alive(v.old_fact_id) is Some,
        l.alive(v.new_fact_id) is Some,
        still_open(l, kb_id, v.id),
{
    let p = to_show(l, kb_id);
    let kept = l.conflicts.filter(p);
    let sorted = arrange(kept, newest_first());
    let wanted = page(sorted, limit, offset);
    lemma_arrange(kept, newest_first());
    let k = choose|k: int|
        0 <= k < listed(l, kb_id, limit, offset).len() && listed(l, kb_id, limit, offset)[k] == v;
    let c = wanted[k];
    assert(sorted.contains(c)) by {
        assert(c == sorted[offset + k]);
    }
    assert(kept.contains(c));
    lemma_filter_contains(l.conflicts, p, c);
    assert(p(c));
    assert(v == l.view_of(c)->0);
    let i = choose|i: int| 0 <= i < l.conflicts.len() && l.conflicts[i] == c;
    assert(l.conflicts[i].id == v.id);
}

} // verus!
