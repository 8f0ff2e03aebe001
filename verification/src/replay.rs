//! Reconciling facts that are already in the ledger: after entities were merged, after a relation
//! was declared unique, and after a merge was reverted.

use crate::engine::{
    desk, lemma_no_work, lemma_worked_on, nothing, place, reconcile_into, tidy, worked, Desk,
    ReconcileReport,
};
use crate::errors::{AppError, ErrorModel};
use crate::identity::{lemma_filter_contains, lemma_found, lemma_timeline};
use crate::ledger::{
    fact_models, revived, struck, ChangeModel, Fact, FactModel, Ledger, LedgerModel, RelationType,
};
use crate::order::{
    arrange, first, lemma_first, lemma_first_is, lemma_sorted, selected, sorted_positions,
};
use crate::rewrite::{alive_with_id, find_alive, find_fact, find_relation, with_id, Tx};
use crate::text::same_text;
use crate::timeline::{
    by_recorded, dated_at, first_dated, load_timeline, row_models, start_or_date, timeline, Row,
    RowModel, Scope, Uniqueness,
};
use crate::validity::{Validity, ValidityModel};
use vstd::prelude::*;

verus! {

/// In which order facts are reconciled once more.
#[derive(Debug, Clone, Copy, PartialEq, Eq, Structural)]
pub enum ReplayOrder {
    /// As they were recorded: what happened is played again.
    Recorded,
    /// As they began, those without a start last; then as they were recorded.
    Chronological,
}

/// Facts are sorted by their start, those without one last; then by when they were recorded.
pub open spec fn by_start() -> spec_fn(FactModel) -> (int, int) {
    |f: FactModel|
        (
            match f.valid_from {
                Some(t) => t as int,
                None => i64::MAX + 1,
            },
            f.recorded_at - i64::MIN,
        )
}

/// What facts are sorted by.
pub open spec fn replay_key(order: ReplayOrder) -> spec_fn(FactModel) -> (int, int) {
    match order {
        ReplayOrder::Recorded => by_recorded(),
        ReplayOrder::Chronological => by_start(),
    }
}

/// A state that is unique on some side.
pub open spec fn unique_state(r: RelationType) -> bool {
    r.temporal@ == "state"@ && (r.functional || r.inverse_functional)
}

impl LedgerModel {
    /// The relation of a fact, if it is a state that is unique on some side.
    pub open spec fn unique_relation(self, f: FactModel) -> Option<RelationType> {
        match f.predicate_id {
            Some(p) => match self.relation(p) {
                Some(r) => if unique_state(r) {
                    Some(r)
                } else {
                    None
                },
                None => None,
            },
            None => None,
        }
    }
}

/// A fact among `ids` that is present and open, of a relation that is a unique state.
pub open spec fn to_reconcile(l: LedgerModel, kb_id: u128, ids: Seq<u128>) -> spec_fn(
    FactModel,
) -> bool {
    |f: FactModel|
        {
            &&& f.kb_id == kb_id
            &&& ids.contains(f.id)
            &&& f.is_alive()
            &&& f.is_open()
            &&& l.unique_relation(f) is Some
        }
}

/// The interval of an open fact.
pub open spec fn since_start(f: FactModel) -> ValidityModel {
    ValidityModel {
        from: f.valid_from,
        from_precision: f.valid_from_precision,
        to: None,
        to_precision: None,
    }
}

impl Desk {
    /// A fact is reconciled on each side on which its relation is unique.
    pub open spec fn reconcile_sides(self, kb_id: u128, f: FactModel, r: RelationType) -> Desk {
        let one = if r.functional {
            self.reconcile(
                kb_id,
                f.id,
                f.subject_id,
                r.id,
                f.object_id,
                Uniqueness::SubjectSide,
                since_start(f),
            )
        } else {
            self
        };
        if r.inverse_functional {
            one.reconcile(
                kb_id,
                f.id,
                f.subject_id,
                r.id,
                f.object_id,
                Uniqueness::ObjectSide,
                since_start(f),
            )
        } else {
            one
        }
    }

    /// A fact is reconciled once more, unless it says nothing of an object, or was rewritten in
    /// the meantime.
    pub open spec fn reconcile_again(self, kb_id: u128, f: FactModel) -> Desk {
        if f.object_id is None && f.object_value is None {
            self
        } else if self.ledger.alive_open(f.id) is None {
            self
        } else {
            match self.ledger.unique_relation(f) {
                Some(r) => self.reconcile_sides(kb_id, f, r),
                None => self,
            }
        }
    }

    /// Each of some facts, in turn, is reconciled once more.
    pub open spec fn reconcile_each(self, kb_id: u128, facts: Seq<FactModel>) -> Desk
        decreases facts.len(),
    {
        if facts.len() == 0 {
            self
        } else {
            self.reconcile_each(kb_id, facts.drop_last()).reconcile_again(kb_id, facts.last())
        }
    }

    /// The open facts among `ids` are reconciled once more, in some order.
    pub open spec fn reconcile_open(
        self,
        kb_id: u128,
        ids: Seq<u128>,
        order: ReplayOrder,
    ) -> Desk {
        self.reconcile_each(
            kb_id,
            arrange(
                self.ledger.facts.filter(to_reconcile(self.ledger, kb_id, ids)),
                replay_key(order),
            ),
        )
    }
}

impl Desk {
    /// The facts `ids`, which have come to other holders, are reconciled in the order in which they
    /// were recorded: what happened is played again.
    pub open spec fn reconcile_moved(self, kb_id: u128, ids: Seq<u128>) -> Desk {
        self.reconcile_open(kb_id, ids, ReplayOrder::Recorded)
    }

    /// All present and open facts of a relation are reconciled in the order in which they began.
    pub open spec fn reconcile_relation(self, kb_id: u128, predicate_id: u128) -> Desk {
        self.reconcile_open(
            kb_id,
            self.ledger.facts.filter(open_under(kb_id, predicate_id)).map_values(id_of()),
            ReplayOrder::Chronological,
        )
    }
}

/// Whether an identifier is among some.
fn is_among(ids: &[u128], id: u128) -> (r: bool)
    ensures
        r == ids@.contains(id),
{
    let mut i: usize = 0;
    while i < ids.len()
        invariant
            i <= ids@.len(),
            forall|j: int| 0 <= j < i ==> #[trigger] ids@[j] != id,
        decreases ids@.len() - i,
    {
        if ids[i] == id {
            assert(ids@[i as int] == id);
            return true;
        }
        i = i + 1;
    }
    false
}

/// The position of the relation of a fact, if it is a state that is unique on some side.
fn find_unique_relation(ledger: &Ledger, f: &Fact) -> (r: Option<usize>)
    ensures
        match r {
            Some(i) => i < ledger.relations@.len() && ledger@.unique_relation(f@) == Some(
                ledger.relations@[i as int],
            ),
            None => ledger@.unique_relation(f@) is None,
        },
{
    match f.predicate_id {
        None => None,
        Some(p) => match find_relation(ledger, p) {
            None => None,
            Some(i) => {
                let r = &ledger.relations[i];
                if same_text(r.temporal.as_str(), "state") && (r.functional
                    || r.inverse_functional) {
                    Some(i)
                } else {
                    None
                }
            },
        },
    }
}

/// What a fact is sorted by.
pub fn sort_key(f: &Fact, order: ReplayOrder) -> (r: (i128, u128))
    ensures
        replay_key(order)(f@) == (r.0 as int, r.1 as int),
{
    match order {
        ReplayOrder::Recorded => (f.recorded_at as i128, 0),
        ReplayOrder::Chronological => (
            match f.valid_from {
                Some(t) => t as i128,
                None => i64::MAX as i128 + 1,
            },
            (f.recorded_at as i128 - i64::MIN as i128) as u128,
        ),
    }
}

/// Copies of the open facts among `ids`, in some order.
fn load_open(ledger: &Ledger, kb_id: u128, ids: &[u128], order: ReplayOrder) -> (r: Vec<Fact>)
    ensures
        fact_models(r@) == arrange(
            ledger@.facts.filter(to_reconcile(ledger@, kb_id, ids@)),
            replay_key(order),
        ),
{
    let ghost p = to_reconcile(ledger@, kb_id, ids@);
    let ghost facts = ledger@.facts;
    let mut picked: Vec<usize> = Vec::new();
    let mut keys: Vec<(i128, u128)> = Vec::new();
    let mut i: usize = 0;
    proof {
        reveal(Seq::filter);
        assert(selected(facts, picked@) =~= facts.take(0).filter(p));
    }
    while i < ledger.facts.len()
        invariant
            i <= ledger.facts@.len(),
            p == to_reconcile(ledger@, kb_id, ids@),
            facts == ledger@.facts,
            selected(facts, picked@) == facts.take(i as int).filter(p),
            keys@.len() == picked@.len(),
            forall|j: int|
                0 <= j < picked@.len() ==> (#[trigger] picked@[j]) < ledger.facts@.len()
                    && replay_key(order)(facts[picked@[j] as int]) == (
                    keys@[j].0 as int,
                    keys@[j].1 as int,
                ),
        decreases ledger.facts@.len() - i,
    {
        proof {
            reveal(Seq::filter);
            assert(facts.take(i + 1).drop_last() =~= facts.take(i as int));
            assert(facts[i as int] == ledger.facts@[i as int]@);
        }
        let ghost before = picked@;
        let f = &ledger.facts[i];
        if f.kb_id == kb_id && is_among(ids, f.id) && f.is_alive() && f.is_open()
            && find_unique_relation(ledger, f).is_some() {
            picked.push(i);
            keys.push(sort_key(f, order));
            assert(selected(facts, picked@) =~= selected(facts, before).push(facts[i as int]));
        }
        i = i + 1;
    }
    let ghost found = selected(facts, picked@);
    assert(facts.take(i as int) =~= facts);
    let sorted = sorted_positions(&keys);
    proof {
        assert forall|j: int| 0 <= j < found.len() implies replay_key(order)(#[trigger] found[j])
            == (keys@[j].0 as int, keys@[j].1 as int) by {
            assert(found[j] == facts[picked@[j] as int]);
        }
        lemma_sorted(found, replay_key(order), keys@, sorted@);
    }
    let mut r: Vec<Fact> = Vec::new();
    let mut k: usize = 0;
    while k < sorted.len()
        invariant
            k <= sorted@.len(),
            sorted@.len() == picked@.len(),
            facts == ledger@.facts,
            found == selected(facts, picked@),
            forall|j: int| 0 <= j < sorted@.len() ==> (#[trigger] sorted@[j]) < picked@.len(),
            forall|j: int|
                0 <= j < picked@.len() ==> (#[trigger] picked@[j]) < ledger.facts@.len(),
            r@.len() == k,
            forall|j: int| 0 <= j < k ==> (#[trigger] r@[j])@ == selected(found, sorted@)[j],
        decreases sorted@.len() - k,
    {
        assert(sorted@[k as int] < picked@.len());
        assert(picked@[sorted@[k as int] as int] < ledger.facts@.len());
        r.push(ledger.facts[picked[sorted[k]]].copied());
        k = k + 1;
    }
    assert(fact_models(r@) =~= selected(found, sorted@));
    r
}

/// Reconciles a fact once more, and adds to a report.
fn reconcile_again(
    ledger: &mut Ledger,
    tx: &mut Tx,
    report: &mut ReconcileReport,
    kb_id: u128,
    f: &Fact,
)
    ensures
        worked(
            *old(tx),
            old(ledger)@,
            old(report)@,
            *final(tx),
            final(ledger)@,
            final(report)@,
            |d: Desk| d.reconcile_again(kb_id, f@),
        ),
{
    let ghost step = |d: Desk| d.reconcile_again(kb_id, f@);
    if f.object_id.is_none() && f.object_value.is_none() {
        proof {
            lemma_no_work(*tx, ledger@, report@, step);
        }
        return ;
    }
    let open: bool = match find_alive(ledger, f.id) {
        Some(i) => ledger.facts[i].is_open(),
        None => false,
    };
    if !open {
        proof {
            lemma_no_work(*tx, ledger@, report@, step);
        }
        return ;
    }
    match find_unique_relation(ledger, f) {
        None => {
            proof {
                lemma_no_work(*tx, ledger@, report@, step);
            }
        },
        Some(k) => {
            let ghost r = ledger.relations@[k as int];
            let functional: bool = ledger.relations[k].functional;
            let inverse_functional: bool = ledger.relations[k].inverse_functional;
            let predicate_id: u128 = ledger.relations[k].id;
            let from_precision: Option<&str> = match &f.valid_from_precision {
                Some(p) => Some(p.as_str()),
                None => None,
            };
            let validity = Validity::starting(f.valid_from, from_precision);
            assert(validity@ == since_start(f@));
            let ghost one = |d: Desk|
                if functional {
                    d.reconcile(
                        kb_id,
                        f.id,
                        f.subject_id,
                        predicate_id,
                        f.object_id,
                        Uniqueness::SubjectSide,
                        since_start(f@),
                    )
                } else {
                    d
                };
            let ghost two = |d: Desk|
                if inverse_functional {
                    d.reconcile(
                        kb_id,
                        f.id,
                        f.subject_id,
                        predicate_id,
                        f.object_id,
                        Uniqueness::ObjectSide,
                        since_start(f@),
                    )
                } else {
                    d
                };
            if functional {
                reconcile_into(
                    ledger,
                    tx,
                    report,
                    kb_id,
                    f.id,
                    f.subject_id,
                    predicate_id,
                    f.object_id,
                    Uniqueness::SubjectSide,
                    validity,
                );
            } else {
                proof {
                    lemma_no_work(*tx, ledger@, report@, one);
                }
            }
            let ghost ledger1 = *ledger;
            let ghost tx1 = *tx;
            let ghost report1 = *report;
            if inverse_functional {
                reconcile_into(
                    ledger,
                    tx,
                    report,
                    kb_id,
                    f.id,
                    f.subject_id,
                    predicate_id,
                    f.object_id,
                    Uniqueness::ObjectSide,
                    validity,
                );
            } else {
                proof {
                    lemma_no_work(*tx, ledger@, report@, two);
                }
            }
            proof {
                lemma_worked_on(
                    *old(tx),
                    old(ledger)@,
                    old(report)@,
                    tx1,
                    ledger1@,
                    report1@,
                    *tx,
                    ledger@,
                    report@,
                    one,
                    two,
                    |d: Desk| two(one(d)),
                );
            }
        },
    }
}

/// Reconciles the open facts among `ids` once more, in some order.
fn reconcile_open(
    ledger: &mut Ledger,
    tx: &mut Tx,
    kb_id: u128,
    ids: &[u128],
    order: ReplayOrder,
) -> (r: ReconcileReport)
    ensures
        worked(
            *old(tx),
            old(ledger)@,
            nothing(),
            *final(tx),
            final(ledger)@,
            r@,
            |d: Desk| d.reconcile_open(kb_id, ids@, order),
        ),
{
    let facts = load_open(ledger, kb_id, ids, order);
    let ghost all = fact_models(facts@);
    let mut report = ReconcileReport::default();
    let mut i: usize = 0;
    proof {
        lemma_no_work(
            *tx,
            ledger@,
            report@,
            |d: Desk| d.reconcile_each(kb_id, all.take(0)),
        );
    }
    while i < facts.len()
        invariant
            i <= facts@.len(),
            all == fact_models(facts@),
            worked(
                *old(tx),
                old(ledger)@,
                nothing(),
                *tx,
                ledger@,
                report@,
                |d: Desk| d.reconcile_each(kb_id, all.take(i as int)),
            ),
        decreases facts@.len() - i,
    {
        let ghost ledger1 = *ledger;
        let ghost tx1 = *tx;
        let ghost report1 = report;
        reconcile_again(ledger, tx, &mut report, kb_id, &facts[i]);
        proof {
            let f = facts@[i as int]@;
            assert(all.take(i + 1).drop_last() =~= all.take(i as int));
            lemma_worked_on(
                *old(tx),
                old(ledger)@,
                nothing(),
                tx1,
                ledger1@,
                report1@,
                *tx,
                ledger@,
                report@,
                |d: Desk| d.reconcile_each(kb_id, all.take(i as int)),
                |d: Desk| d.reconcile_again(kb_id, f),
                |d: Desk| d.reconcile_each(kb_id, all.take(i + 1)),
            );
        }
        i = i + 1;
    }
    assert(all.take(i as int) =~= all);
    report
}

/// Reconciles the facts that changed hands when entities were merged, in the order in which they
/// were recorded: to their new holder each is a new observation.
pub fn reconcile_moved_facts(
    ledger: &mut Ledger,
    tx: &mut Tx,
    kb_id: u128,
    fact_ids: &[u128],
) -> (r: ReconcileReport)
    ensures
        worked(
            *old(tx),
            old(ledger)@,
            nothing(),
            *final(tx),
            final(ledger)@,
            r@,
            |d: Desk| d.reconcile_open(kb_id, fact_ids@, ReplayOrder::Recorded),
        ),
        worked(
            *old(tx),
            old(ledger)@,
            nothing(),
            *final(tx),
            final(ledger)@,
            r@,
            |d: Desk| d.reconcile_moved(kb_id, fact_ids@),
        ),
{
    reconcile_open(ledger, tx, kb_id, fact_ids, ReplayOrder::Recorded)
}

/// A relation of a knowledge base.
pub open spec fn relation_of(kb_id: u128, id: u128) -> spec_fn(RelationType) -> bool {
    |r: RelationType| r.kb_id == kb_id && r.id == id
}

/// A present and open fact of a relation.
pub open spec fn open_under(kb_id: u128, predicate_id: u128) -> spec_fn(FactModel) -> bool {
    |f: FactModel|
        {
            &&& f.kb_id == kb_id
            &&& f.predicate_id == Some(predicate_id)
            &&& f.is_alive()
            &&& f.is_open()
        }
}

/// The identifier of a fact.
pub open spec fn id_of() -> spec_fn(FactModel) -> u128 {
    |f: FactModel| f.id
}

/// Why the facts of a relation cannot be reconciled: it is not there, is not a state, or nobody
/// declared it unique.
pub open spec fn refusal(l: LedgerModel, kb_id: u128, predicate_id: u128) -> Option<ErrorModel> {
    match first(l.relations, relation_of(kb_id, predicate_id)) {
        None => Some(ErrorModel::NotFound),
        Some(r) => if r.temporal@ != "state"@ {
            Some(
                ErrorModel::Invalid {
                    code: "not_a_state"@,
                    message: "only a state relation has intervals to close"@,
                },
            )
        } else if !r.functional && !r.inverse_functional {
            Some(
                ErrorModel::Invalid {
                    code: "not_unique"@,
                    message: "declare the relation functional or inverse-functional first; the engine does not infer it"@,
                },
            )
        } else {
            None
        },
    }
}

/// The position of a relation of a knowledge base.
fn find_relation_of(ledger: &Ledger, kb_id: u128, id: u128) -> (r: Option<usize>)
    ensures
        match r {
            Some(i) => i < ledger.relations@.len() && first(
                ledger@.relations,
                relation_of(kb_id, id),
            ) == Some(ledger.relations@[i as int]),
            None => first(ledger@.relations, relation_of(kb_id, id)) is None,
        },
{
    let ghost p = relation_of(kb_id, id);
    let mut i: usize = 0;
    while i < ledger.relations.len()
        invariant
            i <= ledger.relations@.len(),
            p == relation_of(kb_id, id),
            forall|j: int| 0 <= j < i ==> !p(#[trigger] ledger.relations@[j]),
        decreases ledger.relations@.len() - i,
    {
        if ledger.relations[i].kb_id == kb_id && ledger.relations[i].id == id {
            proof {
                lemma_first_is(ledger.relations@, p, i as int);
            }
            return Some(i);
        }
        i = i + 1;
    }
    proof {
        lemma_first(ledger.relations@, p);
    }
    None
}

/// The identifiers of the present and open facts of a relation.
fn open_facts_of(ledger: &Ledger, kb_id: u128, predicate_id: u128) -> (r: Vec<u128>)
    ensures
        r@ == ledger@.facts.filter(open_under(kb_id, predicate_id)).map_values(id_of()),
{
    let ghost p = open_under(kb_id, predicate_id);
    let ghost facts = ledger@.facts;
    let mut r: Vec<u128> = Vec::new();
    let mut i: usize = 0;
    proof {
        reveal(Seq::filter);
        assert(r@ =~= facts.take(0).filter(p).map_values(id_of()));
    }
    while i < ledger.facts.len()
        invariant
            i <= ledger.facts@.len(),
            p == open_under(kb_id, predicate_id),
            facts == ledger@.facts,
            r@ == facts.take(i as int).filter(p).map_values(id_of()),
        decreases ledger.facts@.len() - i,
    {
        proof {
            reveal(Seq::filter);
            assert(facts.take(i + 1).drop_last() =~= facts.take(i as int));
            assert(facts[i as int] == ledger.facts@[i as int]@);
        }
        let ghost found = facts.take(i as int).filter(p);
        let f = &ledger.facts[i];
        let related: bool = match f.predicate_id {
            Some(id) => id == predicate_id,
            None => false,
        };
        if f.kb_id == kb_id && related && f.is_alive() && f.is_open() {
            r.push(f.id);
            assert(r@ =~= found.push(facts[i as int]).map_values(id_of()));
        }
        i = i + 1;
    }
    assert(facts.take(i as int) =~= facts);
    r
}

/// Reconciles all open facts of a relation that was declared unique after they were recorded, in
/// the order of time: a predecessor ends at its earliest successor, whichever was recorded first.
/// A relation that is not declared unique is refused: the engine does not infer it.
pub fn reconcile_predicate(
    ledger: &mut Ledger,
    tx: &mut Tx,
    kb_id: u128,
    predicate_id: u128,
) -> (r: Result<ReconcileReport, AppError>)
    ensures
        match refusal(old(ledger)@, kb_id, predicate_id) {
            Some(e) => {
                &&& r matches Err(error) && error@ == e
                &&& *final(ledger) == *old(ledger)
                &&& *final(tx) == *old(tx)
            },
            None => r matches Ok(report) && worked(
                *old(tx),
                old(ledger)@,
                nothing(),
                *final(tx),
                final(ledger)@,
                report@,
                |d: Desk|
                    d.reconcile_open(
                        kb_id,
                        old(ledger)@.facts.filter(open_under(kb_id, predicate_id)).map_values(
                            id_of(),
                        ),
                        ReplayOrder::Chronological,
                    ),
            ) && worked(
                *old(tx),
                old(ledger)@,
                nothing(),
                *final(tx),
                final(ledger)@,
                report@,
                |d: Desk| d.reconcile_relation(kb_id, predicate_id),
            ),
        },
{
    match find_relation_of(ledger, kb_id, predicate_id) {
        None => Err(AppError::NotFound),
        Some(i) => {
            let relation = &ledger.relations[i];
            if !same_text(relation.temporal.as_str(), "state") {
                return Err(
                    AppError::invalid(
                        "not_a_state",
                        "only a state relation has intervals to close",
                    ),
                );
            }
            if !relation.functional && !relation.inverse_functional {
                return Err(
                    AppError::invalid(
                        "not_unique",
                        "declare the relation functional or inverse-functional first; the engine does not infer it",
                    ),
                );
            }
            let ids = open_facts_of(ledger, kb_id, predicate_id);
            Ok(reconcile_open(ledger, tx, kb_id, ids.as_slice(), ReplayOrder::Chronological))
        },
    }
}

/// A fact among `ids` that can be placed in time.
pub open spec fn placed_among(l: LedgerModel, ids: Seq<u128>) -> spec_fn(FactModel) -> bool {
    |f: FactModel| ids.contains(f.id) && moment_of(l)(f) is Some
}

/// When a fact is placed: its start, or else the date of its first evidence.
pub open spec fn moment_of(l: LedgerModel) -> spec_fn(FactModel) -> Option<i64> {
    |f: FactModel| start_or_date(f.valid_from, dated_at(l.evidence, l.documents, f.id))
}

/// When some facts are placed.
pub open spec fn moments(l: LedgerModel, ids: Seq<u128>) -> Seq<Option<i64>> {
    l.facts.filter(placed_among(l, ids)).map_values(moment_of(l))
}

/// A row that ends where a row started that is gone, and where none of `rows` starts.
pub open spec fn abandoned(rows: Seq<RowModel>, gone: Seq<Option<i64>>) -> spec_fn(
    RowModel,
) -> bool {
    |row: RowModel|
        {
            &&& row.end() is Some
            &&& gone.contains(row.end())
            &&& forall|i: int| 0 <= i < rows.len() ==> (#[trigger] rows[i]).key() != row.end()
        }
}

impl LedgerModel {
    /// The fact that the fact `id` closed: the one that it supersedes, with the same start, and
    /// open.
    pub open spec fn original(self, id: u128) -> Option<u128> {
        match self.fact(id) {
            Some(c) => match c.supersedes {
                Some(s) => match self.fact(s) {
                    Some(o) => if o.valid_from == c.valid_from && o.is_open() {
                        Some(s)
                    } else {
                        None
                    },
                    None => None,
                },
                None => None,
            },
            None => None,
        }
    }
}

/// A row of which is known what it closed.
pub open spec fn has_original(l: LedgerModel) -> spec_fn(RowModel) -> bool {
    |row: RowModel| l.original(row.id) is Some
}

/// A row, and the fact that it closed.
pub open spec fn with_original(l: LedgerModel) -> spec_fn(RowModel) -> (u128, u128) {
    |row: RowModel| (row.id, l.original(row.id)->0)
}

/// What is to be reopened on a timeline: the rows that were closed at the start of a fact that is
/// gone, each with the fact that it closed. An interval that was corrected by hand is not of this
/// shape.
pub open spec fn to_reopen(l: LedgerModel, scope: Scope, gone: Seq<Option<i64>>) -> Seq<
    (u128, u128),
> {
    let rows = timeline(l, scope);
    rows.filter(abandoned(rows, gone)).filter(has_original(l)).map_values(with_original(l))
}

/// The second of a pair.
pub open spec fn second() -> spec_fn((u128, u128)) -> u128 {
    |pair: (u128, u128)| pair.1
}

/// A relation, unique on some side, of one of the facts among `ids`.
pub open spec fn touched_by(l: LedgerModel, ids: Seq<u128>) -> spec_fn(RelationType) -> bool {
    |r: RelationType|
        {
            &&& unique_state(r)
            &&& exists|i: int|
                0 <= i < l.facts.len() && ids.contains((#[trigger] l.facts[i]).id)
                    && l.facts[i].predicate_id == Some(r.id)
        }
}

impl Desk {
    /// Each of some facts is reopened: the row that closed it leaves the present record, and the
    /// fact comes back.
    pub open spec fn reopen_each(self, pairs: Seq<(u128, u128)>) -> Desk
        decreases pairs.len(),
    {
        if pairs.len() == 0 {
            self
        } else {
            let before = self.reopen_each(pairs.drop_last());
            let (row, original) = pairs.last();
            Desk {
                ledger: before.ledger.commit(
                    ChangeModel::Invalidate { fact_id: row, at: before.now },
                ).commit(ChangeModel::Restore { fact_id: original }),
                ..before
            }
        }
    }

    /// Each of some facts, in turn, is placed on a timeline.
    pub open spec fn place_each(self, scope: Scope, ids: Seq<u128>) -> Desk
        decreases ids.len(),
    {
        if ids.len() == 0 {
            self
        } else {
            self.place_each(scope, ids.drop_last()).place(scope, ids.last())
        }
    }

    /// A timeline from which facts are gone is tidied anew: what was closed at the start of one
    /// of them is reopened, and placed once more among what is left.
    pub open spec fn retidy_side(self, scope: Scope, gone: Seq<Option<i64>>) -> Desk {
        let pairs = to_reopen(self.ledger, scope, gone);
        self.reopen_each(pairs).place_each(scope, pairs.map_values(second())).tidy(scope)
    }

    /// The timelines of a holder under a relation are tidied anew.
    pub open spec fn retidy_relation(
        self,
        kb_id: u128,
        holder: u128,
        r: RelationType,
        gone: Seq<Option<i64>>,
    ) -> Desk {
        let one = if r.functional {
            self.retidy_side(
                Scope { kb_id, holder, predicate_id: r.id, side: Uniqueness::SubjectSide },
                gone,
            )
        } else {
            self
        };
        if r.inverse_functional {
            one.retidy_side(
                Scope { kb_id, holder, predicate_id: r.id, side: Uniqueness::ObjectSide },
                gone,
            )
        } else {
            one
        }
    }

    /// The timelines of a holder under each of some relations are tidied anew.
    pub open spec fn retidy_each(
        self,
        kb_id: u128,
        holder: u128,
        relations: Seq<RelationType>,
        gone: Seq<Option<i64>>,
    ) -> Desk
        decreases relations.len(),
    {
        if relations.len() == 0 {
            self
        } else {
            self.retidy_each(kb_id, holder, relations.drop_last(), gone).retidy_relation(
                kb_id,
                holder,
                relations.last(),
                gone,
            )
        }
    }

    /// The timelines of a holder from which the facts `removed` are gone are tidied anew.
    pub open spec fn retidy(self, kb_id: u128, holder: u128, removed: Seq<u128>) -> Desk {
        self.retidy_each(
            kb_id,
            holder,
            self.ledger.relations.filter(touched_by(self.ledger, removed)),
            moments(self.ledger, removed),
        )
    }
}

/// When a fact is placed.
fn fact_moment(ledger: &Ledger, f: &Fact) -> (r: Option<i64>)
    ensures
        r == moment_of(ledger@)(f@),
{
    if f.valid_from.is_some() {
        f.valid_from
    } else {
        first_dated(ledger, f.id)
    }
}

/// When some facts are placed.
fn load_moments(ledger: &Ledger, ids: &[u128]) -> (r: Vec<Option<i64>>)
    ensures
        r@ == moments(ledger@, ids@),
{
    let ghost p = placed_among(ledger@, ids@);
    let ghost facts = ledger@.facts;
    let ghost moment = moment_of(ledger@);
    let mut r: Vec<Option<i64>> = Vec::new();
    let mut i: usize = 0;
    proof {
        reveal(Seq::filter);
        assert(r@ =~= facts.take(0).filter(p).map_values(moment));
    }
    while i < ledger.facts.len()
        invariant
            i <= ledger.facts@.len(),
            p == placed_among(ledger@, ids@),
            facts == ledger@.facts,
            moment == moment_of(ledger@),
            r@ == facts.take(i as int).filter(p).map_values(moment),
        decreases ledger.facts@.len() - i,
    {
        proof {
            reveal(Seq::filter);
            assert(facts.take(i + 1).drop_last() =~= facts.take(i as int));
            assert(facts[i as int] == ledger.facts@[i as int]@);
        }
        let ghost found = facts.take(i as int).filter(p);
        if is_among(ids, ledger.facts[i].id) {
            let at = fact_moment(ledger, &ledger.facts[i]);
            if at.is_some() {
                r.push(at);
                assert(r@ =~= found.push(facts[i as int]).map_values(moment));
            }
        }
        i = i + 1;
    }
    assert(facts.take(i as int) =~= facts);
    r
}

/// Whether a row ends where a row started that is gone, and where none of `rows` starts.
fn is_abandoned(rows: &Vec<Row>, gone: &Vec<Option<i64>>, n: usize) -> (r: bool)
    requires
        n < rows@.len(),
    ensures
        r == abandoned(row_models(rows@), gone@)(row_models(rows@)[n as int]),
{
    let ghost all = row_models(rows@);
    let end = rows[n].end();
    if end.is_none() {
        return false;
    }
    let mut found: bool = false;
    let mut i: usize = 0;
    while i < gone.len()
        invariant
            i <= gone@.len(),
            found == exists|j: int| 0 <= j < i && #[trigger] gone@[j] == end,
        decreases gone@.len() - i,
    {
        if gone[i] == end {
            found = true;
            assert(gone@[i as int] == end);
        }
        i = i + 1;
    }
    if !found {
        return false;
    }
    let mut k: usize = 0;
    while k < rows.len()
        invariant
            k <= rows@.len(),
            n < rows@.len(),
            all == row_models(rows@),
            end == all[n as int].end(),
            forall|j: int| 0 <= j < k ==> (#[trigger] all[j]).key() != end,
        decreases rows@.len() - k,
    {
        assert(all[k as int] == rows@[k as int]@);
        if rows[k].key() == end {
            return false;
        }
        k = k + 1;
    }
    true
}

/// The fact that the fact `id` closed.
fn find_original(ledger: &Ledger, id: u128) -> (r: Option<u128>)
    ensures
        r == ledger@.original(id),
{
    match find_fact(ledger, id) {
        None => None,
        Some(c) => match ledger.facts[c].supersedes {
            None => None,
            Some(s) => match find_fact(ledger, s) {
                None => None,
                Some(o) => if ledger.facts[o].valid_from == ledger.facts[c].valid_from
                    && ledger.facts[o].is_open() {
                    Some(s)
                } else {
                    None
                },
            },
        },
    }
}

/// What is to be reopened on a timeline.
fn load_to_reopen(ledger: &Ledger, scope: Scope, gone: &Vec<Option<i64>>) -> (r: Vec<(u128, u128)>)
    ensures
        r@ == to_reopen(ledger@, scope, gone@),
{
    let rows = load_timeline(ledger, scope);
    let ghost all = row_models(rows@);
    let ghost p = abandoned(all, gone@);
    let ghost q = has_original(ledger@);
    let ghost pair = with_original(ledger@);
    let mut r: Vec<(u128, u128)> = Vec::new();
    let mut i: usize = 0;
    proof {
        reveal(Seq::filter);
        assert(all.take(0).filter(p) =~= Seq::<RowModel>::empty());
        assert(r@ =~= all.take(0).filter(p).filter(q).map_values(pair));
    }
    while i < rows.len()
        invariant
            i <= rows@.len(),
            all == row_models(rows@),
            p == abandoned(all, gone@),
            q == has_original(ledger@),
            pair == with_original(ledger@),
            r@ == all.take(i as int).filter(p).filter(q).map_values(pair),
        decreases rows@.len() - i,
    {
        let ghost ends = all.take(i as int).filter(p);
        let ghost found = ends.filter(q);
        proof {
            reveal(Seq::filter);
            assert(all.take(i + 1).drop_last() =~= all.take(i as int));
            assert(all[i as int] == rows@[i as int]@);
            assert(ends.push(all[i as int]).drop_last() =~= ends);
        }
        if is_abandoned(&rows, gone, i) {
            if let Some(o) = find_original(ledger, rows[i].id) {
                r.push((rows[i].id, o));
                assert(r@ =~= found.push(all[i as int]).map_values(pair));
            }
        }
        i = i + 1;
    }
    assert(all.take(i as int) =~= all);
    r
}

/// Reopens some facts.
fn reopen_each(ledger: &mut Ledger, tx: &Tx, report: &ReconcileReport, pairs: &Vec<(u128, u128)>)
    ensures
        worked(
            *tx,
            old(ledger)@,
            report@,
            *tx,
            final(ledger)@,
            report@,
            |d: Desk| d.reopen_each(pairs@),
        ),
{
    let mut i: usize = 0;
    proof {
        lemma_no_work(*tx, ledger@, report@, |d: Desk| d.reopen_each(pairs@.take(0)));
    }
    while i < pairs.len()
        invariant
            i <= pairs@.len(),
            worked(
                *tx,
                old(ledger)@,
                report@,
                *tx,
                ledger@,
                report@,
                |d: Desk| d.reopen_each(pairs@.take(i as int)),
            ),
        decreases pairs@.len() - i,
    {
        let ghost ledger1 = *ledger;
        ledger.invalidate(pairs[i].0, tx.now);
        ledger.restore(pairs[i].1);
        proof {
            assert(pairs@.take(i + 1).drop_last() =~= pairs@.take(i as int));
            assert forall|rest: Seq<u128>|
                (#[trigger] desk(
                    old(ledger)@,
                    tx.since(*tx) + rest,
                    tx.now,
                    report@,
                )).reopen_each(pairs@.take(i + 1)) == desk(ledger@, rest, tx.now, report@) by {
                let start = desk(old(ledger)@, tx.since(*tx) + rest, tx.now, report@);
                assert(start.reopen_each(pairs@.take(i as int)) == desk(
                    ledger1@,
                    rest,
                    tx.now,
                    report@,
                ));
            }
        }
        i = i + 1;
    }
    assert(pairs@.take(i as int) =~= pairs@);
}

/// Places some facts on a timeline, one after another.
fn place_each(
    ledger: &mut Ledger,
    tx: &mut Tx,
    report: &mut ReconcileReport,
    scope: Scope,
    pairs: &Vec<(u128, u128)>,
)
    ensures
        worked(
            *old(tx),
            old(ledger)@,
            old(report)@,
            *final(tx),
            final(ledger)@,
            final(report)@,
            |d: Desk| d.place_each(scope, pairs@.map_values(second())),
        ),
{
    let ghost ids = pairs@.map_values(second());
    let mut i: usize = 0;
    proof {
        lemma_no_work(*tx, ledger@, report@, |d: Desk| d.place_each(scope, ids.take(0)));
    }
    while i < pairs.len()
        invariant
            i <= pairs@.len(),
            ids == pairs@.map_values(second()),
            worked(
                *old(tx),
                old(ledger)@,
                old(report)@,
                *tx,
                ledger@,
                report@,
                |d: Desk| d.place_each(scope, ids.take(i as int)),
            ),
        decreases pairs@.len() - i,
    {
        let ghost ledger1 = *ledger;
        let ghost tx1 = *tx;
        let ghost report1 = *report;
        place(ledger, tx, report, scope, pairs[i].1);
        proof {
            let id = ids[i as int];
            assert(ids.take(i + 1).drop_last() =~= ids.take(i as int));
            lemma_worked_on(
                *old(tx),
                old(ledger)@,
                old(report)@,
                tx1,
                ledger1@,
                report1@,
                *tx,
                ledger@,
                report@,
                |d: Desk| d.place_each(scope, ids.take(i as int)),
                |d: Desk| d.place(scope, id),
                |d: Desk| d.place_each(scope, ids.take(i + 1)),
            );
        }
        i = i + 1;
    }
    assert(ids.take(i as int) =~= ids);
}

/// Tidies a timeline anew from which facts are gone.
fn retidy_side(
    ledger: &mut Ledger,
    tx: &mut Tx,
    report: &mut ReconcileReport,
    scope: Scope,
    gone: &Vec<Option<i64>>,
)
    ensures
        worked(
            *old(tx),
            old(ledger)@,
            old(report)@,
            *final(tx),
            final(ledger)@,
            final(report)@,
            |d: Desk| d.retidy_side(scope, gone@),
        ),
{
    let pairs = load_to_reopen(ledger, scope, gone);
    reopen_each(ledger, tx, report, &pairs);
    let ghost ledger1 = *ledger;
    place_each(ledger, tx, report, scope, &pairs);
    let ghost ledger2 = *ledger;
    let ghost tx2 = *tx;
    let ghost report2 = *report;
    tidy(ledger, tx, report, scope);
    proof {
        let reopening = |d: Desk| d.reopen_each(pairs@);
        let placing = |d: Desk| d.place_each(scope, pairs@.map_values(second()));
        let tidying = |d: Desk| d.tidy(scope);
        lemma_worked_on(
            *old(tx),
            old(ledger)@,
            old(report)@,
            *old(tx),
            ledger1@,
            old(report)@,
            tx2,
            ledger2@,
            report2@,
            reopening,
            placing,
            |d: Desk| placing(reopening(d)),
        );
        lemma_worked_on(
            *old(tx),
            old(ledger)@,
            old(report)@,
            tx2,
            ledger2@,
            report2@,
            *tx,
            ledger@,
            report@,
            |d: Desk| placing(reopening(d)),
            tidying,
            |d: Desk| tidying(placing(reopening(d))),
        );
    }
}

/// Whether a relation is a unique state of one of the facts among `ids`.
fn is_touched(ledger: &Ledger, ids: &[u128], k: usize) -> (r: bool)
    requires
        k < ledger.relations@.len(),
    ensures
        r == touched_by(ledger@, ids@)(ledger.relations@[k as int]),
{
    let relation = &ledger.relations[k];
    if !same_text(relation.temporal.as_str(), "state") || !(relation.functional
        || relation.inverse_functional) {
        return false;
    }
    let mut i: usize = 0;
    while i < ledger.facts.len()
        invariant
            i <= ledger.facts@.len(),
            k < ledger.relations@.len(),
            *relation == ledger.relations@[k as int],
            unique_state(*relation),
            forall|j: int|
                0 <= j < i ==> !(ids@.contains((#[trigger] ledger@.facts[j]).id)
                    && ledger@.facts[j].predicate_id == Some(relation.id)),
        decreases ledger.facts@.len() - i,
    {
        assert(ledger@.facts[i as int] == ledger.facts@[i as int]@);
        if is_among(ids, ledger.facts[i].id) {
            if let Some(p) = ledger.facts[i].predicate_id {
                if p == relation.id {
                    return true;
                }
            }
        }
        i = i + 1;
    }
    false
}

/// What tells the timelines under a relation: its identifier, and the sides on which it is unique.
pub open spec fn sides_of() -> spec_fn(RelationType) -> (u128, bool, bool) {
    |r: RelationType| (r.id, r.functional, r.inverse_functional)
}

/// The relations, unique on some side, of the facts among `ids`.
fn load_touched(ledger: &Ledger, ids: &[u128]) -> (r: Vec<(u128, bool, bool)>)
    ensures
        r@ == ledger@.relations.filter(touched_by(ledger@, ids@)).map_values(sides_of()),
{
    let ghost p = touched_by(ledger@, ids@);
    let ghost relations = ledger@.relations;
    let mut r: Vec<(u128, bool, bool)> = Vec::new();
    let mut i: usize = 0;
    proof {
        reveal(Seq::filter);
        assert(r@ =~= relations.take(0).filter(p).map_values(sides_of()));
    }
    while i < ledger.relations.len()
        invariant
            i <= ledger.relations@.len(),
            p == touched_by(ledger@, ids@),
            relations == ledger@.relations,
            r@ == relations.take(i as int).filter(p).map_values(sides_of()),
        decreases ledger.relations@.len() - i,
    {
        let ghost found = relations.take(i as int).filter(p);
        proof {
            reveal(Seq::filter);
            assert(relations.take(i + 1).drop_last() =~= relations.take(i as int));
        }
        if is_touched(ledger, ids, i) {
            let relation = &ledger.relations[i];
            r.push((relation.id, relation.functional, relation.inverse_functional));
            assert(r@ =~= found.push(relations[i as int]).map_values(sides_of()));
        }
        i = i + 1;
    }
    assert(relations.take(i as int) =~= relations);
    r
}

/// Tidies the timelines of a holder under a relation anew.
fn retidy_relation(
    ledger: &mut Ledger,
    tx: &mut Tx,
    report: &mut ReconcileReport,
    kb_id: u128,
    holder: u128,
    sides: (u128, bool, bool),
    gone: &Vec<Option<i64>>,
)
    ensures
        forall|r: RelationType|
            #[trigger] sides_of()(r) == sides ==> worked(
                *old(tx),
                old(ledger)@,
                old(report)@,
                *final(tx),
                final(ledger)@,
                final(report)@,
                |d: Desk| d.retidy_relation(kb_id, holder, r, gone@),
            ),
{
    let (predicate_id, functional, inverse_functional) = sides;
    let on_subject = Scope { kb_id, holder, predicate_id, side: Uniqueness::SubjectSide };
    let on_object = Scope { kb_id, holder, predicate_id, side: Uniqueness::ObjectSide };
    let ghost one = |d: Desk|
        if functional {
            d.retidy_side(on_subject, gone@)
        } else {
            d
        };
    let ghost two = |d: Desk|
        if inverse_functional {
            d.retidy_side(on_object, gone@)
        } else {
            d
        };
    if functional {
        retidy_side(ledger, tx, report, on_subject, gone);
    } else {
        proof {
            lemma_no_work(*tx, ledger@, report@, one);
        }
    }
    let ghost ledger1 = *ledger;
    let ghost tx1 = *tx;
    let ghost report1 = *report;
    if inverse_functional {
        retidy_side(ledger, tx, report, on_object, gone);
    } else {
        proof {
            lemma_no_work(*tx, ledger@, report@, two);
        }
    }
    proof {
        lemma_worked_on(
            *old(tx),
            old(ledger)@,
            old(report)@,
            tx1,
            ledger1@,
            report1@,
            *tx,
            ledger@,
            report@,
            one,
            two,
            |d: Desk| two(one(d)),
        );
    }
}

/// Tidies the timelines of `target_id` anew after a merge was reverted and the facts `removed`
/// went back to their former holder. A row that the engine closed at the start of one of them is
/// brought back as it was, and placed once more among what is left: its end would be a boundary
/// that is no longer there.
pub fn retidy_after_revert(
    ledger: &mut Ledger,
    tx: &mut Tx,
    kb_id: u128,
    target_id: u128,
    removed: &[u128],
)
    ensures
        final(tx).continues(*old(tx)),
        forall|rest: Seq<u128>|
            {
                let end = (#[trigger] desk(
                    old(ledger)@,
                    final(tx).since(*old(tx)) + rest,
                    old(tx).now,
                    nothing(),
                )).retidy(kb_id, target_id, removed@);
                end.ledger == final(ledger)@ && end.ids == rest
            },
{
    let touched = load_touched(ledger, removed);
    let gone = load_moments(ledger, removed);
    let ghost relations = ledger@.relations.filter(touched_by(ledger@, removed@));
    let mut report = ReconcileReport::default();
    let mut i: usize = 0;
    proof {
        lemma_no_work(
            *tx,
            ledger@,
            report@,
            |d: Desk| d.retidy_each(kb_id, target_id, relations.take(0), gone@),
        );
    }
    while i < touched.len()
        invariant
            i <= touched@.len(),
            touched@ == relations.map_values(sides_of()),
            worked(
                *old(tx),
                old(ledger)@,
                nothing(),
                *tx,
                ledger@,
                report@,
                |d: Desk| d.retidy_each(kb_id, target_id, relations.take(i as int), gone@),
            ),
        decreases touched@.len() - i,
    {
        let ghost ledger1 = *ledger;
        let ghost tx1 = *tx;
        let ghost report1 = report;
        retidy_relation(ledger, tx, &mut report, kb_id, target_id, touched[i], &gone);
        proof {
            let r = relations[i as int];
            assert(sides_of()(r) == touched@[i as int]);
            assert(relations.take(i + 1).drop_last() =~= relations.take(i as int));
            lemma_worked_on(
                *old(tx),
                old(ledger)@,
                nothing(),
                tx1,
                ledger1@,
                report1@,
                *tx,
                ledger@,
                report@,
                |d: Desk| d.retidy_each(kb_id, target_id, relations.take(i as int), gone@),
                |d: Desk| d.retidy_relation(kb_id, target_id, r, gone@),
                |d: Desk| d.retidy_each(kb_id, target_id, relations.take(i + 1), gone@),
            );
        }
        i = i + 1;
    }
    proof {
        assert(relations.take(i as int) =~= relations);
        assert(worked(
            *old(tx),
            old(ledger)@,
            nothing(),
            *tx,
            ledger@,
            report@,
            |d: Desk| d.retidy(kb_id, target_id, removed@),
        ));
    }
}

/// The rows that are to be reopened leave the present record, and the facts that they closed are
/// in it again, and open.
pub proof fn law_reopening_brings_back_what_was_closed(
    d: Desk,
    scope: Scope,
    gone: Seq<Option<i64>>,
    pair: (u128, u128),
)
    requires
        d.ledger.distinct(),
        to_reopen(d.ledger, scope, gone).contains(pair),
    ensures
        ({
            let after = d.reopen_each(to_reopen(d.ledger, scope, gone)).ledger;
            &&& after.alive(pair.0) is None
            &&& after.alive_open(pair.1) is Some
        }),
{
    let l = d.ledger;
    let pairs = to_reopen(l, scope, gone);
    let rows = timeline(l, scope);
    let ended = rows.filter(abandoned(rows, gone));
    let kept = ended.filter(has_original(l));
    assert forall|k: int| 0 <= k < pairs.len() implies {
        &&& (#[trigger] pairs[k]).1 == l.original(pairs[k].0)->0
        &&& l.original(pairs[k].0) is Some
        &&& exists|i: int|
            0 <= i < l.facts.len() && (#[trigger] l.facts[i]).id == pairs[k].0
                && !l.facts[i].is_open()
    } by {
        let row = kept[k];
        assert(kept.contains(row));
        lemma_filter_contains(ended, has_original(l), row);
        lemma_filter_contains(rows, abandoned(rows, gone), row);
        lemma_timeline(l, scope);
        let i = choose|i: int| #[trigger] l.stands(scope, i) && l.row(i) == row;
        assert(l.facts[i].id == pairs[k].0);
    }
    lemma_reopened(d, pairs);
    let after = d.reopen_each(pairs).ledger;
    let k = choose|k: int| 0 <= k < pairs.len() && pairs[k] == pair;
    lemma_first(l.facts, with_id(pair.0));
    lemma_first(l.facts, with_id(l.fact(pair.0)->0.supersedes->0));
    assert(l.original(pair.0) == Some(pair.1));
    let o = l.fact(pair.1)->0;
    let m = choose|m: int| 0 <= m < l.facts.len() && l.facts[m] == o;
    assert(o.id == pair.1);
    assert(after.facts[m].is_alive());
    assert(after.distinct()) by {
        assert forall|a: int, b: int| 0 <= a < b < after.facts.len() implies (
        #[trigger] after.facts[a]).id != (#[trigger] after.facts[b]).id by {
            assert(l.facts[a].id != l.facts[b].id);
        }
    }
    lemma_found(after, m);
    assert forall|j: int| 0 <= j < after.facts.len() implies !alive_with_id(pair.0)(
        #[trigger] after.facts[j],
    ) by {}
    lemma_first(after.facts, alive_with_id(pair.0));
}

/// What reopening does to each fact: the ones that closed others are not present, and the ones
/// that were closed are.
proof fn lemma_reopened(d: Desk, pairs: Seq<(u128, u128)>)
    requires
        d.ledger.distinct(),
        forall|k: int|
            0 <= k < pairs.len() ==> {
                &&& (#[trigger] pairs[k]).1 == d.ledger.original(pairs[k].0)->0
                &&& d.ledger.original(pairs[k].0) is Some
                &&& exists|i: int|
                    0 <= i < d.ledger.facts.len() && (#[trigger] d.ledger.facts[i]).id
                        == pairs[k].0 && !d.ledger.facts[i].is_open()
            },
    ensures
        ({
            let after = d.reopen_each(pairs).ledger;
            &&& after.facts.len() == d.ledger.facts.len()
            &&& forall|j: int|
                0 <= j < after.facts.len() ==> #[trigger] after.facts[j] == (FactModel {
                    invalidated_at: after.facts[j].invalidated_at,
                    ..d.ledger.facts[j]
                })
            &&& forall|j: int, k: int|
                0 <= j < after.facts.len() && 0 <= k < pairs.len() && (
                #[trigger] after.facts[j]).id == (#[trigger] pairs[k]).0
                    ==> !after.facts[j].is_alive()
            &&& forall|j: int, k: int|
                0 <= j < after.facts.len() && 0 <= k < pairs.len() && (
                #[trigger] after.facts[j]).id == (#[trigger] pairs[k]).1
                    ==> after.facts[j].is_alive()
        }),
    decreases pairs.len(),
{
    if pairs.len() > 0 {
        let head = pairs.drop_last();
        assert forall|k: int| 0 <= k < head.len() implies {
            &&& (#[trigger] head[k]).1 == d.ledger.original(head[k].0)->0
            &&& d.ledger.original(head[k].0) is Some
            &&& exists|i: int|
                0 <= i < d.ledger.facts.len() && (#[trigger] d.ledger.facts[i]).id == head[k].0
                    && !d.ledger.facts[i].is_open()
        } by {
            assert(head[k] == pairs[k]);
        }
        lemma_reopened(d, head);
        let l = d.ledger;
        let before = d.reopen_each(head);
        let after = d.reopen_each(pairs).ledger;
        let (row, original) = pairs.last();
        assert(pairs[pairs.len() - 1] == (row, original));
        assert(after.facts.len() == l.facts.len());
        assert forall|j: int| 0 <= j < after.facts.len() implies #[trigger] after.facts[j]
            == revived(original)(struck(row, before.now)(before.ledger.facts[j])) by {}
        assert forall|j: int, k: int|
            0 <= j < after.facts.len() && 0 <= k < pairs.len() && (#[trigger] after.facts[j]).id
                == (#[trigger] pairs[k]).0 implies !after.facts[j].is_alive() by {
            lemma_rows_are_no_originals(l, pairs[k].0, row);
            if k < head.len() {
                assert(head[k] == pairs[k]);
                assert(before.ledger.facts[j].id == head[k].0);
            }
        }
        assert forall|j: int, k: int|
            0 <= j < after.facts.len() && 0 <= k < pairs.len() && (#[trigger] after.facts[j]).id
                == (#[trigger] pairs[k]).1 implies after.facts[j].is_alive() by {
            lemma_rows_are_no_originals(l, row, pairs[k].0);
            if k < head.len() {
                assert(head[k] == pairs[k]);
                assert(before.ledger.facts[j].id == head[k].1);
            }
        }
    }
}

/// A row that has ended is not the open fact that some row closed.
proof fn lemma_rows_are_no_originals(l: LedgerModel, ended: u128, row: u128)
    requires
        l.distinct(),
        exists|i: int|
            0 <= i < l.facts.len() && (#[trigger] l.facts[i]).id == ended
                && !l.facts[i].is_open(),
        l.original(row) is Some,
    ensures
        ended != l.original(row)->0,
{
    let i = choose|i: int|
        0 <= i < l.facts.len() && (#[trigger] l.facts[i]).id == ended && !l.facts[i].is_open();
    lemma_found(l, i);
}

} // verus!
