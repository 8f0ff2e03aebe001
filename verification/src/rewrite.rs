//! Corrections: a fact is never edited, it is invalidated and rewritten.
//!
//! The row that is left behind says what was known, the row that supersedes it what is known
//! now, so that the record of any day can be read as it was on that day.

use crate::history::{law_a_fact_is_closed_once, was_replaced};
use crate::ledger::{
    ChangeModel, ConflictModel, FactConflict, FactModel, Ledger, LedgerModel, RelationType,
};
use crate::order::{first, lemma_first, lemma_first_is};
use crate::outside::new_id;
use crate::rewriting::{is_closed_on, is_closed_unknown, is_corrected_to};
use crate::tables::{law_rewriting_copies_what_belongs_to_a_fact, only_invalidated};
use crate::text::{opt_text, same_text};
use crate::validity::{truncate_to, truncated_to, Validity, ValidityModel, ENDED_UNKNOWN};
use vstd::prelude::*;

verus! {

/// A transaction: its time, and the identifiers that were drawn in it.
pub struct Tx {
    pub now: i64,
    pub drawn: Ghost<Seq<u128>>,
}

impl Tx {
    /// The identifiers that were drawn so far.
    pub open spec fn drawn(self) -> Seq<u128> {
        self.drawn@
    }

    /// The identifiers that were drawn since `before`.
    pub open spec fn since(self, before: Tx) -> Seq<u128> {
        self.drawn().skip(before.drawn().len() as int)
    }

    /// This is the same transaction as `before`, at or after it.
    pub open spec fn continues(self, before: Tx) -> bool {
        &&& self.now == before.now
        &&& before.drawn().len() <= self.drawn().len()
        &&& self.drawn().take(before.drawn().len() as int) == before.drawn()
    }

    /// A transaction that begins.
    pub fn begin(now: i64) -> (r: Tx)
        ensures
            r.now == now,
            r.drawn() == Seq::<u128>::empty(),
    {
        Tx { now, drawn: Ghost(Seq::empty()) }
    }

    /// A new identifier. Its version field is that of a time ordered one.
    pub fn draw(&mut self) -> (id: u128)
        ensures
            final(self).now == old(self).now,
            final(self).drawn() == old(self).drawn().push(id),
            id as int / 0x1_0000_0000_0000_0000_000 % 16 == 7,
    {
        let id: u128 = new_id();
        self.drawn = Ghost(self.drawn@.push(id));
        id
    }
}

/// Drawing one identifier.
pub proof fn lemma_drew(before: Tx, after: Tx, id: u128)
    requires
        after.now == before.now,
        after.drawn() == before.drawn().push(id),
    ensures
        after.continues(before),
        after.since(before) == seq![id],
{
    assert(after.drawn().take(before.drawn().len() as int) =~= before.drawn());
    assert(after.since(before) =~= seq![id]);
}

/// Drawing nothing.
pub proof fn lemma_drew_nothing(before: Tx, after: Tx)
    requires
        after.now == before.now,
        after.drawn() == before.drawn(),
    ensures
        after.continues(before),
        after.since(before) == Seq::<u128>::empty(),
{
    assert(after.drawn().take(before.drawn().len() as int) =~= before.drawn());
    assert(after.since(before) =~= Seq::<u128>::empty());
}

/// One part of a transaction after another.
pub proof fn lemma_continues(a: Tx, b: Tx, c: Tx)
    requires
        b.continues(a),
        c.continues(b),
    ensures
        c.continues(a),
        c.since(a) == b.since(a) + c.since(b),
{
    assert(c.drawn().take(a.drawn().len() as int) =~= c.drawn().take(b.drawn().len() as int).take(
        a.drawn().len() as int,
    ));
    assert forall|i: int| 0 <= i < b.drawn().len() implies c.drawn()[i] == b.drawn()[i] by {
        assert(c.drawn().take(b.drawn().len() as int)[i] == b.drawn()[i]);
    }
    assert(c.since(a) =~= b.since(a) + c.since(b));
}

/// A fact with that identifier.
pub open spec fn with_id(id: u128) -> spec_fn(FactModel) -> bool {
    |f: FactModel| f.id == id
}

/// A present fact with that identifier.
pub open spec fn alive_with_id(id: u128) -> spec_fn(FactModel) -> bool {
    |f: FactModel| f.id == id && f.is_alive()
}

/// A relation with that identifier.
pub open spec fn relation_with_id(id: u128) -> spec_fn(RelationType) -> bool {
    |r: RelationType| r.id == id
}

impl LedgerModel {
    /// The fact with that identifier.
    pub open spec fn fact(self, id: u128) -> Option<FactModel> {
        first(self.facts, with_id(id))
    }

    /// The present fact with that identifier.
    pub open spec fn alive(self, id: u128) -> Option<FactModel> {
        first(self.facts, alive_with_id(id))
    }

    /// The relation with that identifier.
    pub open spec fn relation(self, id: u128) -> Option<RelationType> {
        first(self.relations, relation_with_id(id))
    }

    /// The temporal kind of the relation of a fact.
    pub open spec fn temporal_of(self, fact_id: u128) -> Option<Seq<char>> {
        match self.fact(fact_id) {
            Some(f) => match f.predicate_id {
                Some(p) => match self.relation(p) {
                    Some(r) => Some(r.temporal@),
                    None => None,
                },
                None => None,
            },
            None => None,
        }
    }
}

/// The row that supersedes `f`, recorded at `now`. It says what `f` says.
pub open spec fn superseding(f: FactModel, id: u128, now: i64) -> FactModel {
    FactModel { id, supersedes: Some(f.id), recorded_at: now, invalidated_at: None, ..f }
}

/// `f` rewritten to end on a date, which is cut down to its precision.
pub open spec fn ended_at(
    f: FactModel,
    id: u128,
    valid_to: i64,
    precision: Seq<char>,
    now: i64,
) -> FactModel {
    FactModel {
        valid_to: Some(truncated_to(valid_to, Some(precision))),
        valid_to_precision: Some(precision),
        attested_to: None,
        ..superseding(f, id, now)
    }
}

/// `f` rewritten to have ended on an unknown day, attested at some moment.
pub open spec fn ended_unknown(
    f: FactModel,
    id: u128,
    attested_at: Option<i64>,
    now: i64,
) -> FactModel {
    FactModel {
        valid_to: None,
        valid_to_precision: Some(ENDED_UNKNOWN@),
        attested_to: Some(
            match attested_at {
                Some(t) => t,
                None => now,
            },
        ),
        ..superseding(f, id, now)
    }
}

/// `f` rewritten to hold for another interval.
pub open spec fn with_interval(
    f: FactModel,
    id: u128,
    validity: ValidityModel,
    now: i64,
) -> FactModel {
    FactModel {
        valid_from: validity.from,
        valid_from_precision: validity.from_precision,
        valid_to: validity.to,
        valid_to_precision: validity.to_precision,
        attested_to: if validity.to_precision == Some(ENDED_UNKNOWN@) {
            match f.attested_to {
                Some(t) => Some(t),
                None => Some(now),
            }
        } else {
            None
        },
        ..superseding(f, id, now)
    }
}

/// A conflict as it is raised.
pub open spec fn raised(
    id: u128,
    kb_id: u128,
    old_fact_id: u128,
    new_fact_id: u128,
    reason: Seq<char>,
    now: i64,
) -> ConflictModel {
    ConflictModel {
        id,
        kb_id,
        old_fact_id,
        new_fact_id,
        reason,
        status: "open"@,
        resolution: None,
        created_at: now,
        resolved_at: None,
    }
}

/// The position of the present fact with that identifier.
pub fn find_alive(ledger: &Ledger, id: u128) -> (r: Option<usize>)
    ensures
        match r {
            Some(i) => i < ledger.facts@.len() && ledger@.alive(id) == Some(ledger.facts@[i as int]@),
            None => ledger@.alive(id) is None,
        },
{
    let ghost p = alive_with_id(id);
    let mut i: usize = 0;
    while i < ledger.facts.len()
        invariant
            i <= ledger.facts@.len(),
            p == alive_with_id(id),
            forall|j: int| 0 <= j < i ==> !p(#[trigger] ledger@.facts[j]),
        decreases ledger.facts@.len() - i,
    {
        assert(ledger@.facts[i as int] == ledger.facts@[i as int]@);
        if ledger.facts[i].id == id && ledger.facts[i].is_alive() {
            proof {
                lemma_first_is(ledger@.facts, p, i as int);
            }
            return Some(i);
        }
        i = i + 1;
    }
    proof {
        lemma_first(ledger@.facts, p);
    }
    None
}

/// The position of the fact with that identifier.
pub fn find_fact(ledger: &Ledger, id: u128) -> (r: Option<usize>)
    ensures
        match r {
            Some(i) => i < ledger.facts@.len() && ledger@.fact(id) == Some(ledger.facts@[i as int]@),
            None => ledger@.fact(id) is None,
        },
{
    let ghost p = with_id(id);
    let mut i: usize = 0;
    while i < ledger.facts.len()
        invariant
            i <= ledger.facts@.len(),
            p == with_id(id),
            forall|j: int| 0 <= j < i ==> !p(#[trigger] ledger@.facts[j]),
        decreases ledger.facts@.len() - i,
    {
        assert(ledger@.facts[i as int] == ledger.facts@[i as int]@);
        if ledger.facts[i].id == id {
            proof {
                lemma_first_is(ledger@.facts, p, i as int);
            }
            return Some(i);
        }
        i = i + 1;
    }
    proof {
        lemma_first(ledger@.facts, p);
    }
    None
}

/// The position of the relation with that identifier.
pub fn find_relation(ledger: &Ledger, id: u128) -> (r: Option<usize>)
    ensures
        match r {
            Some(i) => i < ledger.relations@.len() && ledger@.relation(id) == Some(
                ledger.relations@[i as int],
            ),
            None => ledger@.relation(id) is None,
        },
{
    let ghost p = relation_with_id(id);
    let mut i: usize = 0;
    while i < ledger.relations.len()
        invariant
            i <= ledger.relations@.len(),
            p == relation_with_id(id),
            forall|j: int| 0 <= j < i ==> !p(#[trigger] ledger.relations@[j]),
        decreases ledger.relations@.len() - i,
    {
        if ledger.relations[i].id == id {
            proof {
                lemma_first_is(ledger.relations@, p, i as int);
            }
            return Some(i);
        }
        i = i + 1;
    }
    proof {
        lemma_first(ledger.relations@, p);
    }
    None
}

/// Closes a fact on a date, which is cut down to its precision: the fact is invalidated and
/// rewritten, so that closing it again does nothing if the new identifier is another. `None`: it is
/// no longer present, and nothing was done.
pub fn close_superseded(
    ledger: &mut Ledger,
    tx: &mut Tx,
    fact_id: u128,
    valid_to: i64,
    valid_to_precision: &str,
) -> (r: Option<u128>)
    ensures
        final(tx).now == old(tx).now,
        match old(ledger)@.alive(fact_id) {
            Some(f) => {
                &&& r is Some
                &&& final(tx).drawn() == old(tx).drawn().push(r->0)
                &&& final(ledger)@ == old(ledger)@.commit(
                    ChangeModel::Rewrite {
                        replaced: fact_id,
                        fact: ended_at(f, r->0, valid_to, valid_to_precision@, old(tx).now),
                        at: old(tx).now,
                    },
                )
            },
            None => {
                &&& r is None
                &&& final(tx).drawn() == old(tx).drawn()
                &&& final(ledger)@ == old(ledger)@
            },
        },
        r is Some ==> {
            let n = old(ledger)@.facts.len() as int;
            &&& final(ledger)@.facts.len() == n + 1
            &&& final(ledger)@.facts[n].id == r->0
            &&& is_closed_on(
                old(ledger)@.alive(fact_id)->0,
                final(ledger)@.facts[n],
                valid_to,
                valid_to_precision@,
                old(tx).now,
            )
            &&& only_invalidated(old(ledger)@, final(ledger)@, fact_id, old(tx).now)
            &&& final(ledger)@.conflicts == old(ledger)@.conflicts
        },
        r is Some && r->0 != fact_id ==> was_replaced(old(ledger)@, final(ledger)@, fact_id),
{
    let valid_to: i64 = truncate_to(valid_to, Some(valid_to_precision));
    match find_alive(ledger, fact_id) {
        None => None,
        Some(i) => {
            let id: u128 = tx.draw();
            let mut fact = ledger.facts[i].copied();
            proof {
                lemma_first(ledger@.facts, alive_with_id(fact_id));
            }
            fact.id = id;
            fact.supersedes = Some(fact_id);
            fact.valid_to = Some(valid_to);
            fact.valid_to_precision = Some(valid_to_precision.to_owned());
            fact.attested_to = None;
            fact.recorded_at = tx.now;
            fact.invalidated_at = None;
            proof {
                if id != fact_id {
                    law_a_fact_is_closed_once(ledger@, fact_id, fact@, tx.now);
                }
                law_rewriting_copies_what_belongs_to_a_fact(ledger@, fact_id, fact@, tx.now);
            }
            ledger.rewrite(fact_id, fact, tx.now);
            Some(id)
        },
    }
}

/// Closes an open fact on an unknown day: the fact is invalidated and rewritten, attested where
/// its end was told. `None`: it is no longer present or no longer open, and nothing was done.
pub fn close_with_unknown_end(
    ledger: &mut Ledger,
    tx: &mut Tx,
    fact_id: u128,
    attested_at: Option<i64>,
) -> (r: Option<u128>)
    ensures
        final(tx).now == old(tx).now,
        match old(ledger)@.alive_open(fact_id) {
            Some(f) => {
                &&& r is Some
                &&& final(tx).drawn() == old(tx).drawn().push(r->0)
                &&& final(ledger)@ == old(ledger)@.commit(
                    ChangeModel::Rewrite {
                        replaced: fact_id,
                        fact: ended_unknown(f, r->0, attested_at, old(tx).now),
                        at: old(tx).now,
                    },
                )
            },
            None => {
                &&& r is None
                &&& final(tx).drawn() == old(tx).drawn()
                &&& final(ledger)@ == old(ledger)@
            },
        },
        r is Some ==> {
            let n = old(ledger)@.facts.len() as int;
            &&& final(ledger)@.facts.len() == n + 1
            &&& final(ledger)@.facts[n].id == r->0
            &&& is_closed_unknown(
                old(ledger)@.alive(fact_id)->0,
                final(ledger)@.facts[n],
                attested_at,
                old(tx).now,
            )
            &&& only_invalidated(old(ledger)@, final(ledger)@, fact_id, old(tx).now)
            &&& final(ledger)@.conflicts == old(ledger)@.conflicts
        },
        r is Some && r->0 != fact_id ==> was_replaced(old(ledger)@, final(ledger)@, fact_id),
{
    close_with_unknown_end_tx(ledger, tx, fact_id, attested_at, true)
}

impl LedgerModel {
    /// The present fact with that identifier, if it is open.
    pub open spec fn alive_open(self, id: u128) -> Option<FactModel> {
        match self.alive(id) {
            Some(f) => if f.is_open() {
                Some(f)
            } else {
                None
            },
            None => None,
        }
    }
}

/// [`close_with_unknown_end`]; without `require_open` an already closed fact is rewritten too.
pub fn close_with_unknown_end_tx(
    ledger: &mut Ledger,
    tx: &mut Tx,
    fact_id: u128,
    attested_at: Option<i64>,
    require_open: bool,
) -> (r: Option<u128>)
    ensures
        final(tx).now == old(tx).now,
        match (if require_open {
            old(ledger)@.alive_open(fact_id)
        } else {
            old(ledger)@.alive(fact_id)
        }) {
            Some(f) => {
                &&& r is Some
                &&& final(tx).drawn() == old(tx).drawn().push(r->0)
                &&& final(ledger)@ == old(ledger)@.commit(
                    ChangeModel::Rewrite {
                        replaced: fact_id,
                        fact: ended_unknown(f, r->0, attested_at, old(tx).now),
                        at: old(tx).now,
                    },
                )
            },
            None => {
                &&& r is None
                &&& final(tx).drawn() == old(tx).drawn()
                &&& final(ledger)@ == old(ledger)@
            },
        },
        r is Some ==> {
            let n = old(ledger)@.facts.len() as int;
            &&& final(ledger)@.facts.len() == n + 1
            &&& final(ledger)@.facts[n].id == r->0
            &&& is_closed_unknown(
                old(ledger)@.alive(fact_id)->0,
                final(ledger)@.facts[n],
                attested_at,
                old(tx).now,
            )
            &&& only_invalidated(old(ledger)@, final(ledger)@, fact_id, old(tx).now)
            &&& final(ledger)@.conflicts == old(ledger)@.conflicts
        },
        r is Some && r->0 != fact_id ==> was_replaced(old(ledger)@, final(ledger)@, fact_id),
{
    match find_alive(ledger, fact_id) {
        None => None,
        Some(i) => {
            if require_open && !ledger.facts[i].is_open() {
                return None;
            }
            let id: u128 = tx.draw();
            let mut fact = ledger.facts[i].copied();
            proof {
                lemma_first(ledger@.facts, alive_with_id(fact_id));
            }
            fact.id = id;
            fact.supersedes = Some(fact_id);
            fact.valid_to = None;
            fact.valid_to_precision = Some(ENDED_UNKNOWN.to_owned());
            fact.attested_to = match attested_at {
                Some(t) => Some(t),
                None => Some(tx.now),
            };
            fact.recorded_at = tx.now;
            fact.invalidated_at = None;
            proof {
                if id != fact_id {
                    law_a_fact_is_closed_once(ledger@, fact_id, fact@, tx.now);
                }
                law_rewriting_copies_what_belongs_to_a_fact(ledger@, fact_id, fact@, tx.now);
            }
            ledger.rewrite(fact_id, fact, tx.now);
            Some(id)
        },
    }
}

/// The temporal kind of the relation of a fact.
fn predicate_temporal(ledger: &Ledger, fact_id: u128) -> (r: Option<String>)
    ensures
        opt_text(r) == ledger@.temporal_of(fact_id),
{
    match find_fact(ledger, fact_id) {
        None => None,
        Some(i) => match ledger.facts[i].predicate_id {
            None => None,
            Some(p) => match find_relation(ledger, p) {
                None => None,
                Some(k) => Some(ledger.relations[k].temporal.clone()),
            },
        },
    }
}

/// Corrects the interval of a fact by hand: the fact is invalidated and rewritten, with the
/// interval as the relation of the fact can have it and cut down to its precision. `None`: it is
/// no longer present, and nothing was done.
pub fn correct_interval(
    ledger: &mut Ledger,
    tx: &mut Tx,
    fact_id: u128,
    validity: Validity,
) -> (r: Option<u128>)
    ensures
        final(tx).now == old(tx).now,
        final(tx).drawn().len() == old(tx).drawn().len() + 1,
        final(tx).drawn().drop_last() == old(tx).drawn(),
        match old(ledger)@.alive(fact_id) {
            Some(f) => {
                &&& r == Some(final(tx).drawn().last())
                &&& final(ledger)@ == old(ledger)@.commit(
                    ChangeModel::Rewrite {
                        replaced: fact_id,
                        fact: with_interval(
                            f,
                            final(tx).drawn().last(),
                            validity@.under(old(ledger)@.temporal_of(fact_id)).truncated(),
                            old(tx).now,
                        ),
                        at: old(tx).now,
                    },
                )
            },
            None => {
                &&& r is None
                &&& final(ledger)@ == old(ledger)@
            },
        },
        r is Some ==> {
            let n = old(ledger)@.facts.len() as int;
            &&& final(ledger)@.facts.len() == n + 1
            &&& final(ledger)@.facts[n].id == r->0
            &&& is_corrected_to(
                old(ledger)@.alive(fact_id)->0,
                final(ledger)@.facts[n],
                validity@.under(old(ledger)@.temporal_of(fact_id)).truncated(),
                old(tx).now,
            )
            &&& only_invalidated(old(ledger)@, final(ledger)@, fact_id, old(tx).now)
            &&& final(ledger)@.conflicts == old(ledger)@.conflicts
        },
        r is Some && r->0 != fact_id ==> was_replaced(old(ledger)@, final(ledger)@, fact_id),
{
    let temporal = predicate_temporal(ledger, fact_id);
    let kind: Option<&str> = match &temporal {
        Some(t) => Some(t.as_str()),
        None => None,
    };
    let validity = validity.under(kind).truncated();
    let id: u128 = tx.draw();
    assert(tx.drawn().drop_last() =~= old(tx).drawn());
    match find_alive(ledger, fact_id) {
        None => None,
        Some(i) => {
            let mut fact = ledger.facts[i].copied();
            proof {
                lemma_first(ledger@.facts, alive_with_id(fact_id));
            }
            let unknown: bool = match validity.to_precision {
                Some(p) => same_text(p, ENDED_UNKNOWN),
                None => false,
            };
            fact.id = id;
            fact.supersedes = Some(fact_id);
            fact.valid_from = validity.from;
            fact.valid_from_precision = match validity.from_precision {
                Some(p) => Some(p.to_owned()),
                None => None,
            };
            fact.valid_to = validity.to;
            fact.valid_to_precision = match validity.to_precision {
                Some(p) => Some(p.to_owned()),
                None => None,
            };
            fact.attested_to = if unknown {
                match fact.attested_to {
                    Some(t) => Some(t),
                    None => Some(tx.now),
                }
            } else {
                None
            };
            fact.recorded_at = tx.now;
            fact.invalidated_at = None;
            proof {
                if id != fact_id {
                    law_a_fact_is_closed_once(ledger@, fact_id, fact@, tx.now);
                }
                law_rewriting_copies_what_belongs_to_a_fact(ledger@, fact_id, fact@, tx.now);
            }
            ledger.rewrite(fact_id, fact, tx.now);
            Some(id)
        },
    }
}

/// Hands two facts to a person to decide between, unless that was done before, or is pending in
/// the other order.
pub fn record_conflict(
    ledger: &mut Ledger,
    tx: &mut Tx,
    kb_id: u128,
    old_fact_id: u128,
    new_fact_id: u128,
    reason: &str,
) -> (id: u128)
    ensures
        final(tx).now == old(tx).now,
        final(tx).drawn() == old(tx).drawn().push(id),
        final(ledger)@ == old(ledger)@.commit(
            ChangeModel::Raise {
                conflict: raised(id, kb_id, old_fact_id, new_fact_id, reason@, old(tx).now),
            },
        ),
{
    let id: u128 = tx.draw();
    ledger.raise(
        FactConflict {
            id,
            kb_id,
            old_fact_id,
            new_fact_id,
            reason: reason.to_owned(),
            status: "open".to_owned(),
            resolution: None,
            created_at: tx.now,
            resolved_at: None,
        },
    );
    id
}

} // verus!
