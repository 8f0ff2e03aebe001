//! The engine: placing a fact on its timeline, and tidying a timeline.
//!
//! A timeline is one whole: each row ends where the nearest later one begins. The engine brings
//! a timeline into that shape by rule alone. What it cannot tell (a missing time, two rows that
//! start together, a successor of low confidence) it leaves to a person.

use crate::confidence::Confidence;
use crate::ledger::{ChangeModel, FactModel, Ledger, LedgerModel};
use crate::order::{first, lemma_first, lemma_first_is, selected};
use crate::rewrite::{
    close_superseded, close_with_unknown_end_tx, ended_at, ended_unknown, lemma_continues,
    lemma_drew, lemma_drew_nothing, raised, record_conflict, Tx,
};
use crate::timeline::{
    change_due, load_timeline, next_change, row_models, same_value, says_same, timeline, Row,
    RowModel, Scope, Uniqueness,
};
use crate::validity::{Validity, ValidityModel};
use vstd::prelude::*;

verus! {

/// How many rounds a timeline is tidied at most.
pub const MAX_TIDY_ROUNDS: usize = 64;

/// What reconciling did: the rows that were written to close others, and how often something was
/// left to a person.
#[derive(Debug)]
pub struct ReconcileReport {
    pub corrected: Vec<u128>,
    pub conflicts: u32,
}

/// What a [`ReconcileReport`] says.
#[verifier::ext_equal]
pub struct ReportModel {
    pub corrected: Seq<u128>,
    pub conflicts: u32,
}

impl View for ReconcileReport {
    type V = ReportModel;

    open spec fn view(&self) -> ReportModel {
        ReportModel { corrected: self.corrected@, conflicts: self.conflicts }
    }
}

/// A report of nothing.
pub open spec fn nothing() -> ReportModel {
    ReportModel { corrected: Seq::empty(), conflicts: 0 }
}

impl Default for ReconcileReport {
    fn default() -> (r: Self)
        ensures
            r@ == nothing(),
    {
        let r = ReconcileReport { corrected: Vec::new(), conflicts: 0 };
        assert(r@.corrected =~= nothing().corrected);
        r
    }
}

/// The engine at work: the ledger, the identifiers that will be drawn, the time of the
/// transaction, and the report so far.
#[verifier::ext_equal]
pub struct Desk {
    pub ledger: LedgerModel,
    pub ids: Seq<u128>,
    pub now: i64,
    pub report: ReportModel,
}

/// The engine at work on a ledger.
pub open spec fn desk(ledger: LedgerModel, ids: Seq<u128>, now: i64, report: ReportModel) -> Desk {
    Desk { ledger, ids, now, report }
}

/// `f` rewritten to end where `next` starts. Where `next` has no start, `f` has ended on an
/// unknown day, attested by the first dated evidence of `next`: the date of a document is never
/// written as the date of an end.
pub open spec fn closed_by(f: FactModel, id: u128, next: RowModel, now: i64) -> FactModel {
    match next.valid_from {
        Some(start) => ended_at(
            f,
            id,
            start,
            match next.valid_from_precision {
                Some(p) => p,
                None => "day"@,
            },
            now,
        ),
        None => ended_unknown(f, id, next.dated_at, now),
    }
}

/// A row with that identifier.
pub open spec fn row_with_id(id: u128) -> spec_fn(RowModel) -> bool {
    |r: RowModel| r.id == id
}

/// Another row that says something else than `new`.
pub open spec fn is_rival(side: Uniqueness, new: RowModel, o: RowModel) -> bool {
    o.id != new.id && !says_same(side, o, new)
}

/// A rival that is open.
pub open spec fn open_rival(side: Uniqueness, new: RowModel) -> spec_fn(RowModel) -> bool {
    |o: RowModel| is_rival(side, new, o) && o.is_open()
}

/// A rival that starts together with `new` and held for some time: which succeeds which cannot
/// be told.
pub open spec fn simultaneous_rival(side: Uniqueness, new: RowModel) -> spec_fn(RowModel) -> bool {
    |o: RowModel|
        {
            &&& is_rival(side, new, o)
            &&& o.key() == new.key()
            &&& o.is_open() || (o.end() is Some && o.end()->0 > new.key()->0)
        }
}

/// A rival that is open and cannot be placed in time.
pub open spec fn undated_rival(side: Uniqueness, new: RowModel) -> spec_fn(RowModel) -> bool {
    |o: RowModel| is_rival(side, new, o) && o.is_open() && o.key() is None
}

impl Desk {
    /// Two facts are left to a person, unless they are with one in the other order, or this
    /// transaction has left them to one already: a pair is one question.
    pub open spec fn raise(
        self,
        kb_id: u128,
        old_fact_id: u128,
        new_fact_id: u128,
        reason: Seq<char>,
    ) -> Desk {
        if self.ledger.is_asked(old_fact_id, new_fact_id, self.now) {
            self
        } else {
            Desk {
                ledger: self.ledger.commit(
                    ChangeModel::Raise {
                        conflict: raised(
                            self.ids[0],
                            kb_id,
                            old_fact_id,
                            new_fact_id,
                            reason,
                            self.now,
                        ),
                    },
                ),
                ids: self.ids.drop_first(),
                report: ReportModel {
                    conflicts: self.report.conflicts.saturating_add(1),
                    ..self.report
                },
                ..self
            }
        }
    }

    /// `row` is closed where `next` starts, if it is still present.
    pub open spec fn close_at(self, row: RowModel, next: RowModel) -> Desk {
        match self.ledger.alive(row.id) {
            Some(f) => Desk {
                ledger: self.ledger.commit(
                    ChangeModel::Rewrite {
                        replaced: row.id,
                        fact: closed_by(f, self.ids[0], next, self.now),
                        at: self.now,
                    },
                ),
                ids: self.ids.drop_first(),
                report: ReportModel {
                    corrected: self.report.corrected.push(self.ids[0]),
                    ..self.report
                },
                ..self
            },
            None => self,
        }
    }

    /// Each row of `rows`, in turn, is left to a person together with the fact `new_id`.
    pub open spec fn raise_all(
        self,
        kb_id: u128,
        rows: Seq<RowModel>,
        new_id: u128,
        reason: Seq<char>,
    ) -> Desk
        decreases rows.len(),
    {
        if rows.len() == 0 {
            self
        } else {
            self.raise_all(kb_id, rows.drop_last(), new_id, reason).raise(
                kb_id,
                rows.last().id,
                new_id,
                reason,
            )
        }
    }

    /// Each row of `rows`, in turn, is closed where `new` starts, or left to a person where the
    /// confidence in `new` is low.
    pub open spec fn close_all(self, kb_id: u128, rows: Seq<RowModel>, new: RowModel) -> Desk
        decreases rows.len(),
    {
        if rows.len() == 0 {
            self
        } else {
            let before = self.close_all(kb_id, rows.drop_last(), new);
            if new.confidence.is_low() {
                before.raise(kb_id, rows.last().id, new.id, "low_confidence"@)
            } else {
                before.close_at(rows.last(), new)
            }
        }
    }

    /// A timeline is tidied for some rounds, until nothing is due. A pair whose successor has a
    /// low confidence is left to a person, and then held.
    pub open spec fn tidy_rounds(
        self,
        scope: Scope,
        held: Seq<(u128, u128)>,
        rounds: nat,
    ) -> Desk
        decreases rounds,
    {
        if rounds == 0 {
            self
        } else {
            match change_due(scope.side, timeline(self.ledger, scope), held) {
                None => self,
                Some((row, next)) => if next.confidence.is_low() {
                    self.raise(scope.kb_id, row.id, next.id, "low_confidence"@).tidy_rounds(
                        scope,
                        held.push((row.id, next.id)),
                        (rounds - 1) as nat,
                    )
                } else {
                    self.close_at(row, next).tidy_rounds(scope, held, (rounds - 1) as nat)
                },
            }
        }
    }

    /// A timeline is tidied.
    pub open spec fn tidy(self, scope: Scope) -> Desk {
        self.tidy_rounds(scope, Seq::empty(), MAX_TIDY_ROUNDS as nat)
    }

    /// What `new` meets on its timeline before that is tidied: what cannot be told is left to a
    /// person, and what cannot be placed in time is closed where `new` starts.
    pub open spec fn receive(self, scope: Scope, new: RowModel) -> Desk {
        let rows = timeline(self.ledger, scope);
        self.raise_all(
            scope.kb_id,
            rows.filter(simultaneous_rival(scope.side, new)),
            new.id,
            "simultaneous"@,
        ).close_all(scope.kb_id, rows.filter(undated_rival(scope.side, new)), new)
    }

    /// A fact is placed on its timeline, which is then tidied. Where the fact cannot be placed in
    /// time, every rival that is open is left to a person.
    pub open spec fn place(self, scope: Scope, fact_id: u128) -> Desk {
        let rows = timeline(self.ledger, scope);
        match first(rows, row_with_id(fact_id)) {
            None => self,
            Some(new) => if new.key() is None {
                self.raise_all(
                    scope.kb_id,
                    rows.filter(open_rival(scope.side, new)),
                    new.id,
                    "no_time"@,
                )
            } else {
                self.receive(scope, new).tidy(scope)
            },
        }
    }

    /// A new fact is reconciled with the timeline of its holder. A fact that has ended is history
    /// and rewrites nothing, and a literal is held by none.
    pub open spec fn reconcile(
        self,
        kb_id: u128,
        new_fact_id: u128,
        subject_id: u128,
        predicate_id: u128,
        object_id: Option<u128>,
        direction: Uniqueness,
        validity: ValidityModel,
    ) -> Desk {
        if validity.has_ended() {
            self
        } else {
            match holder_of(direction, subject_id, object_id) {
                None => self,
                Some(holder) => self.place(
                    Scope { kb_id, holder, predicate_id, side: direction },
                    new_fact_id,
                ),
            }
        }
    }
}

/// Who has one value at a time: the subject, or the object where it is an entity.
pub open spec fn holder_of(
    direction: Uniqueness,
    subject_id: u128,
    object_id: Option<u128>,
) -> Option<u128> {
    match direction {
        Uniqueness::SubjectSide => Some(subject_id),
        Uniqueness::ObjectSide => object_id,
    }
}

/// The engine went from one state to another by a step: the identifiers that were drawn in
/// between are the ones that the step took.
pub open spec fn worked(
    tx0: Tx,
    ledger0: LedgerModel,
    report0: ReportModel,
    tx1: Tx,
    ledger1: LedgerModel,
    report1: ReportModel,
    step: spec_fn(Desk) -> Desk,
) -> bool {
    &&& tx1.continues(tx0)
    &&& forall|rest: Seq<u128>|
        step(#[trigger] desk(ledger0, tx1.since(tx0) + rest, tx0.now, report0)) == desk(
            ledger1,
            rest,
            tx0.now,
            report1,
        )
}

/// A step that changes nothing.
pub proof fn lemma_no_work(
    tx: Tx,
    ledger: LedgerModel,
    report: ReportModel,
    step: spec_fn(Desk) -> Desk,
)
    requires
        forall|ids: Seq<u128>|
            step(#[trigger] desk(ledger, ids, tx.now, report)) == desk(
                ledger,
                ids,
                tx.now,
                report,
            ),
    ensures
        worked(tx, ledger, report, tx, ledger, report, step),
{
    lemma_drew_nothing(tx, tx);
    assert forall|rest: Seq<u128>|
        step(#[trigger] desk(ledger, tx.since(tx) + rest, tx.now, report)) == desk(
            ledger,
            rest,
            tx.now,
            report,
        ) by {
        assert(tx.since(tx) + rest =~= rest);
    }
}

/// One step after another.
pub proof fn lemma_worked_on(
    tx0: Tx,
    ledger0: LedgerModel,
    report0: ReportModel,
    tx1: Tx,
    ledger1: LedgerModel,
    report1: ReportModel,
    tx2: Tx,
    ledger2: LedgerModel,
    report2: ReportModel,
    earlier: spec_fn(Desk) -> Desk,
    later: spec_fn(Desk) -> Desk,
    both: spec_fn(Desk) -> Desk,
)
    requires
        worked(tx0, ledger0, report0, tx1, ledger1, report1, earlier),
        worked(tx1, ledger1, report1, tx2, ledger2, report2, later),
        forall|d: Desk| #[trigger] both(d) == later(earlier(d)),
    ensures
        worked(tx0, ledger0, report0, tx2, ledger2, report2, both),
{
    lemma_continues(tx0, tx1, tx2);
    let drawn = tx2.since(tx1);
    assert forall|rest: Seq<u128>|
        both(#[trigger] desk(ledger0, tx2.since(tx0) + rest, tx0.now, report0)) == desk(
            ledger2,
            rest,
            tx0.now,
            report2,
        ) by {
        assert(tx2.since(tx0) + rest =~= tx1.since(tx0) + (drawn + rest));
        let start = desk(ledger0, tx1.since(tx0) + (drawn + rest), tx0.now, report0);
        let here = desk(ledger1, drawn + rest, tx1.now, report1);
        assert(earlier(start) == here);
    }
}

/// Leaves two facts to a person, and reports it, unless they are with one in the other order, or
/// this transaction has left them to one already.
fn hand_over(
    ledger: &mut Ledger,
    tx: &mut Tx,
    report: &mut ReconcileReport,
    kb_id: u128,
    old_fact_id: u128,
    new_fact_id: u128,
    reason: &str,
)
    ensures
        worked(
            *old(tx),
            old(ledger)@,
            old(report)@,
            *final(tx),
            final(ledger)@,
            final(report)@,
            |d: Desk| d.raise(kb_id, old_fact_id, new_fact_id, reason@),
        ),
{
    if ledger.asked(old_fact_id, new_fact_id, tx.now) {
        proof {
            lemma_no_work(
                *tx,
                ledger@,
                report@,
                |d: Desk| d.raise(kb_id, old_fact_id, new_fact_id, reason@),
            );
        }
        return ;
    }
    let id: u128 = record_conflict(ledger, tx, kb_id, old_fact_id, new_fact_id, reason);
    report.conflicts = report.conflicts.saturating_add(1);
    proof {
        lemma_drew(*old(tx), *tx, id);
        assert forall|rest: Seq<u128>|
            (#[trigger] desk(
                old(ledger)@,
                tx.since(*old(tx)) + rest,
                old(tx).now,
                old(report)@,
            )).raise(kb_id, old_fact_id, new_fact_id, reason@) == desk(
                ledger@,
                rest,
                old(tx).now,
                report@,
            ) by {
            let ids = tx.since(*old(tx)) + rest;
            assert(ids.drop_first() =~= rest);
        }
    }
}

/// Closes a row where another starts. `None`: the row is no longer present.
fn close_at(ledger: &mut Ledger, tx: &mut Tx, row: &Row, next: &Row) -> (r: Option<u128>)
    ensures
        final(tx).now == old(tx).now,
        match old(ledger)@.alive(row.id) {
            Some(f) => {
                &&& r is Some
                &&& final(tx).drawn() == old(tx).drawn().push(r->0)
                &&& final(ledger)@ == old(ledger)@.commit(
                    ChangeModel::Rewrite {
                        replaced: row.id,
                        fact: closed_by(f, r->0, next@, old(tx).now),
                        at: old(tx).now,
                    },
                )
            },
            None => {
                &&& r is None
                &&& final(tx).drawn() == old(tx).drawn()
                &&& final(ledger)@ == old(ledger)@
            },
        },
{
    match next.valid_from {
        Some(start) => {
            let precision: &str = match &next.valid_from_precision {
                Some(p) => p.as_str(),
                None => "day",
            };
            close_superseded(ledger, tx, row.id, start, precision)
        },
        None => close_with_unknown_end_tx(ledger, tx, row.id, next.dated_at, false),
    }
}

/// Closes a row where another starts, and reports it.
fn close_and_report(
    ledger: &mut Ledger,
    tx: &mut Tx,
    report: &mut ReconcileReport,
    row: &Row,
    next: &Row,
)
    ensures
        worked(
            *old(tx),
            old(ledger)@,
            old(report)@,
            *final(tx),
            final(ledger)@,
            final(report)@,
            |d: Desk| d.close_at(row@, next@),
        ),
{
    let closed = close_at(ledger, tx, row, next);
    match closed {
        Some(id) => {
            report.corrected.push(id);
            proof {
                lemma_drew(*old(tx), *tx, id);
            }
        },
        None => {
            proof {
                lemma_drew_nothing(*old(tx), *tx);
            }
        },
    }
    proof {
        assert forall|rest: Seq<u128>|
            (#[trigger] desk(
                old(ledger)@,
                tx.since(*old(tx)) + rest,
                old(tx).now,
                old(report)@,
            )).close_at(row@, next@) == desk(ledger@, rest, old(tx).now, report@) by {
            let ids = tx.since(*old(tx)) + rest;
            if closed is Some {
                assert(ids.drop_first() =~= rest);
            } else {
                assert(ids =~= rest);
            }
        }
    }
}

/// Tidies a timeline: cuts what covers the start of another row, and closes what is open, until
/// nothing is due.
pub fn tidy(ledger: &mut Ledger, tx: &mut Tx, report: &mut ReconcileReport, scope: Scope)
    ensures
        worked(
            *old(tx),
            old(ledger)@,
            old(report)@,
            *final(tx),
            final(ledger)@,
            final(report)@,
            |d: Desk| d.tidy(scope),
        ),
{
    let mut held: Vec<(u128, u128)> = Vec::new();
    let mut round: usize = 0;
    proof {
        lemma_drew_nothing(*old(tx), *tx);
        assert(held@ =~= Seq::empty());
        assert forall|rest: Seq<u128>| #[trigger]
            desk(old(ledger)@, tx.since(*old(tx)) + rest, old(tx).now, old(report)@) == desk(
                ledger@,
                rest,
                old(tx).now,
                report@,
            ) by {
            assert(tx.since(*old(tx)) + rest =~= rest);
        }
    }
    while round < MAX_TIDY_ROUNDS
        invariant
            round <= MAX_TIDY_ROUNDS,
            tx.continues(*old(tx)),
            forall|rest: Seq<u128>|
                (#[trigger] desk(
                    old(ledger)@,
                    tx.since(*old(tx)) + rest,
                    old(tx).now,
                    old(report)@,
                )).tidy(scope) == desk(ledger@, rest, old(tx).now, report@).tidy_rounds(
                    scope,
                    held@,
                    (MAX_TIDY_ROUNDS - round) as nat,
                ),
        decreases MAX_TIDY_ROUNDS - round,
    {
        let rows = load_timeline(ledger, scope);
        let ghost ledger1 = *ledger;
        let ghost tx1 = *tx;
        let ghost report1 = *report;
        let ghost held1 = held@;
        let ghost left = (MAX_TIDY_ROUNDS - round) as nat;
        match next_change(scope.side, &rows, &held) {
            None => {
                return;
            },
            Some((i, k)) => {
                if rows[k].confidence.low() {
                    hand_over(
                        ledger,
                        tx,
                        report,
                        scope.kb_id,
                        rows[i].id,
                        rows[k].id,
                        "low_confidence",
                    );
                    held.push((rows[i].id, rows[k].id));
                } else {
                    close_and_report(ledger, tx, report, &rows[i], &rows[k]);
                }
                proof {
                    lemma_continues(*old(tx), tx1, *tx);
                    let drawn = tx.since(tx1);
                    assert forall|rest: Seq<u128>|
                        (#[trigger] desk(
                            old(ledger)@,
                            tx.since(*old(tx)) + rest,
                            old(tx).now,
                            old(report)@,
                        )).tidy(scope) == desk(ledger@, rest, old(tx).now, report@).tidy_rounds(
                            scope,
                            held@,
                            (left - 1) as nat,
                        ) by {
                        assert(tx.since(*old(tx)) + rest =~= tx1.since(*old(tx)) + (drawn + rest));
                        let start = desk(
                            old(ledger)@,
                            tx1.since(*old(tx)) + (drawn + rest),
                            old(tx).now,
                            old(report)@,
                        );
                        let here = desk(ledger1@, drawn + rest, old(tx).now, report1@);
                        assert(start.tidy(scope) == here.tidy_rounds(scope, held1, left));
                    }
                }
            },
        }
        round = round + 1;
    }
}

/// The rows of a list that are open rivals of the row `n`.
fn open_rivals(side: Uniqueness, rows: &Vec<Row>, n: usize) -> (r: Vec<usize>)
    requires
        n < rows@.len(),
    ensures
        selected(row_models(rows@), r@) == row_models(rows@).filter(
            open_rival(side, row_models(rows@)[n as int]),
        ),
        forall|j: int| 0 <= j < r@.len() ==> (#[trigger] r@[j]) < rows@.len(),
{
    let ghost all = row_models(rows@);
    let ghost p = open_rival(side, all[n as int]);
    let mut picked: Vec<usize> = Vec::new();
    let mut i: usize = 0;
    proof {
        reveal(Seq::filter);
        assert(selected(all, picked@) =~= all.take(0).filter(p));
    }
    while i < rows.len()
        invariant
            i <= rows@.len(),
            n < rows@.len(),
            all == row_models(rows@),
            p == open_rival(side, all[n as int]),
            selected(all, picked@) == all.take(i as int).filter(p),
            forall|j: int| 0 <= j < picked@.len() ==> (#[trigger] picked@[j]) < rows@.len(),
        decreases rows@.len() - i,
    {
        proof {
            reveal(Seq::filter);
            assert(all.take(i + 1).drop_last() =~= all.take(i as int));
        }
        let ghost before = picked@;
        if rows[i].id != rows[n].id && !same_value(side, &rows[i], &rows[n]) && rows[i].is_open() {
            picked.push(i);
            assert(selected(all, picked@) =~= selected(all, before).push(all[i as int]));
        }
        i = i + 1;
    }
    assert(all.take(i as int) =~= all);
    picked
}

/// The rows of a list that start together with the row `n`, as its rivals.
fn simultaneous_rivals(side: Uniqueness, rows: &Vec<Row>, n: usize, key: i64) -> (r: Vec<usize>)
    requires
        n < rows@.len(),
        row_models(rows@)[n as int].key() == Some(key),
    ensures
        selected(row_models(rows@), r@) == row_models(rows@).filter(
            simultaneous_rival(side, row_models(rows@)[n as int]),
        ),
        forall|j: int| 0 <= j < r@.len() ==> (#[trigger] r@[j]) < rows@.len(),
{
    let ghost all = row_models(rows@);
    let ghost p = simultaneous_rival(side, all[n as int]);
    let mut picked: Vec<usize> = Vec::new();
    let mut i: usize = 0;
    proof {
        reveal(Seq::filter);
        assert(selected(all, picked@) =~= all.take(0).filter(p));
    }
    while i < rows.len()
        invariant
            i <= rows@.len(),
            n < rows@.len(),
            all == row_models(rows@),
            all[n as int].key() == Some(key),
            p == simultaneous_rival(side, all[n as int]),
            selected(all, picked@) == all.take(i as int).filter(p),
            forall|j: int| 0 <= j < picked@.len() ==> (#[trigger] picked@[j]) < rows@.len(),
        decreases rows@.len() - i,
    {
        proof {
            reveal(Seq::filter);
            assert(all.take(i + 1).drop_last() =~= all.take(i as int));
        }
        let ghost before = picked@;
        let together: bool = match rows[i].key() {
            Some(k) => k == key,
            None => false,
        };
        let lasted: bool = rows[i].is_open() || match rows[i].end() {
            Some(e) => e > key,
            None => false,
        };
        if together && lasted && rows[i].id != rows[n].id && !same_value(
            side,
            &rows[i],
            &rows[n],
        ) {
            picked.push(i);
            assert(selected(all, picked@) =~= selected(all, before).push(all[i as int]));
        }
        i = i + 1;
    }
    assert(all.take(i as int) =~= all);
    picked
}

/// The open rows of a list that cannot be placed in time, as rivals of the row `n`.
fn undated_rivals(side: Uniqueness, rows: &Vec<Row>, n: usize) -> (r: Vec<usize>)
    requires
        n < rows@.len(),
    ensures
        selected(row_models(rows@), r@) == row_models(rows@).filter(
            undated_rival(side, row_models(rows@)[n as int]),
        ),
        forall|j: int| 0 <= j < r@.len() ==> (#[trigger] r@[j]) < rows@.len(),
{
    let ghost all = row_models(rows@);
    let ghost p = undated_rival(side, all[n as int]);
    let mut picked: Vec<usize> = Vec::new();
    let mut i: usize = 0;
    proof {
        reveal(Seq::filter);
        assert(selected(all, picked@) =~= all.take(0).filter(p));
    }
    while i < rows.len()
        invariant
            i <= rows@.len(),
            n < rows@.len(),
            all == row_models(rows@),
            p == undated_rival(side, all[n as int]),
            selected(all, picked@) == all.take(i as int).filter(p),
            forall|j: int| 0 <= j < picked@.len() ==> (#[trigger] picked@[j]) < rows@.len(),
        decreases rows@.len() - i,
    {
        proof {
            reveal(Seq::filter);
            assert(all.take(i + 1).drop_last() =~= all.take(i as int));
        }
        let ghost before = picked@;
        if rows[i].id != rows[n].id && !same_value(side, &rows[i], &rows[n]) && rows[i].is_open()
            && rows[i].key().is_none() {
            picked.push(i);
            assert(selected(all, picked@) =~= selected(all, before).push(all[i as int]));
        }
        i = i + 1;
    }
    assert(all.take(i as int) =~= all);
    picked
}

/// Leaves each of some rows, with the fact `new_id`, to a person.
fn raise_each(
    ledger: &mut Ledger,
    tx: &mut Tx,
    report: &mut ReconcileReport,
    kb_id: u128,
    rows: &Vec<Row>,
    picked: &Vec<usize>,
    new_id: u128,
    reason: &str,
)
    requires
        forall|j: int| 0 <= j < picked@.len() ==> (#[trigger] picked@[j]) < rows@.len(),
    ensures
        worked(
            *old(tx),
            old(ledger)@,
            old(report)@,
            *final(tx),
            final(ledger)@,
            final(report)@,
            |d: Desk|
                d.raise_all(kb_id, selected(row_models(rows@), picked@), new_id, reason@),
        ),
{
    let ghost chosen = selected(row_models(rows@), picked@);
    let mut i: usize = 0;
    proof {
        lemma_no_work(
            *tx,
            ledger@,
            report@,
            |d: Desk| d.raise_all(kb_id, chosen.take(0), new_id, reason@),
        );
    }
    while i < picked.len()
        invariant
            i <= picked@.len(),
            chosen == selected(row_models(rows@), picked@),
            forall|j: int| 0 <= j < picked@.len() ==> (#[trigger] picked@[j]) < rows@.len(),
            worked(
                *old(tx),
                old(ledger)@,
                old(report)@,
                *tx,
                ledger@,
                report@,
                |d: Desk| d.raise_all(kb_id, chosen.take(i as int), new_id, reason@),
            ),
        decreases picked@.len() - i,
    {
        let ghost ledger1 = *ledger;
        let ghost tx1 = *tx;
        let ghost report1 = *report;
        hand_over(ledger, tx, report, kb_id, rows[picked[i]].id, new_id, reason);
        proof {
            let row = chosen[i as int];
            assert(row == rows@[picked@[i as int] as int]@);
            assert(chosen.take(i + 1).drop_last() =~= chosen.take(i as int));
            lemma_worked_on(
                *old(tx),
                old(ledger)@,
                old(report)@,
                tx1,
                ledger1@,
                report1@,
                *tx,
                ledger@,
                report@,
                |d: Desk| d.raise_all(kb_id, chosen.take(i as int), new_id, reason@),
                |d: Desk| d.raise(kb_id, row.id, new_id, reason@),
                |d: Desk| d.raise_all(kb_id, chosen.take(i + 1), new_id, reason@),
            );
        }
        i = i + 1;
    }
    assert(chosen.take(i as int) =~= chosen);
}

/// Closes each of some rows where the row `n` starts, or leaves it to a person.
fn close_each(
    ledger: &mut Ledger,
    tx: &mut Tx,
    report: &mut ReconcileReport,
    kb_id: u128,
    rows: &Vec<Row>,
    picked: &Vec<usize>,
    n: usize,
)
    requires
        n < rows@.len(),
        forall|j: int| 0 <= j < picked@.len() ==> (#[trigger] picked@[j]) < rows@.len(),
    ensures
        worked(
            *old(tx),
            old(ledger)@,
            old(report)@,
            *final(tx),
            final(ledger)@,
            final(report)@,
            |d: Desk|
                d.close_all(
                    kb_id,
                    selected(row_models(rows@), picked@),
                    row_models(rows@)[n as int],
                ),
        ),
{
    let ghost chosen = selected(row_models(rows@), picked@);
    let ghost new = row_models(rows@)[n as int];
    let mut i: usize = 0;
    proof {
        lemma_no_work(
            *tx,
            ledger@,
            report@,
            |d: Desk| d.close_all(kb_id, chosen.take(0), new),
        );
    }
    while i < picked.len()
        invariant
            i <= picked@.len(),
            n < rows@.len(),
            chosen == selected(row_models(rows@), picked@),
            new == row_models(rows@)[n as int],
            forall|j: int| 0 <= j < picked@.len() ==> (#[trigger] picked@[j]) < rows@.len(),
            worked(
                *old(tx),
                old(ledger)@,
                old(report)@,
                *tx,
                ledger@,
                report@,
                |d: Desk| d.close_all(kb_id, chosen.take(i as int), new),
            ),
        decreases picked@.len() - i,
    {
        let ghost ledger1 = *ledger;
        let ghost tx1 = *tx;
        let ghost report1 = *report;
        let ghost row = chosen[i as int];
        assert(row == rows@[picked@[i as int] as int]@);
        assert(new == rows@[n as int]@);
        if rows[n].confidence.low() {
            hand_over(
                ledger,
                tx,
                report,
                kb_id,
                rows[picked[i]].id,
                rows[n].id,
                "low_confidence",
            );
        } else {
            close_and_report(ledger, tx, report, &rows[picked[i]], &rows[n]);
        }
        proof {
            assert(chosen.take(i + 1).drop_last() =~= chosen.take(i as int));
            lemma_worked_on(
                *old(tx),
                old(ledger)@,
                old(report)@,
                tx1,
                ledger1@,
                report1@,
                *tx,
                ledger@,
                report@,
                |d: Desk| d.close_all(kb_id, chosen.take(i as int), new),
                |d: Desk|
                    if new.confidence.is_low() {
                        d.raise(kb_id, row.id, new.id, "low_confidence"@)
                    } else {
                        d.close_at(row, new)
                    },
                |d: Desk| d.close_all(kb_id, chosen.take(i + 1), new),
            );
        }
        i = i + 1;
    }
    assert(chosen.take(i as int) =~= chosen);
}

/// The first row with that identifier.
fn find_row(rows: &Vec<Row>, id: u128) -> (r: Option<usize>)
    ensures
        match r {
            Some(i) => i < rows@.len() && first(row_models(rows@), row_with_id(id)) == Some(
                row_models(rows@)[i as int],
            ),
            None => first(row_models(rows@), row_with_id(id)) is None,
        },
{
    let ghost all = row_models(rows@);
    let ghost p = row_with_id(id);
    let mut i: usize = 0;
    while i < rows.len()
        invariant
            i <= rows@.len(),
            all == row_models(rows@),
            p == row_with_id(id),
            forall|j: int| 0 <= j < i ==> !p(#[trigger] all[j]),
        decreases rows@.len() - i,
    {
        assert(all[i as int] == rows@[i as int]@);
        if rows[i].id == id {
            proof {
                lemma_first_is(all, p, i as int);
            }
            return Some(i);
        }
        i = i + 1;
    }
    proof {
        lemma_first(all, p);
    }
    None
}

/// Places a fact on its timeline.
pub fn place(
    ledger: &mut Ledger,
    tx: &mut Tx,
    report: &mut ReconcileReport,
    scope: Scope,
    fact_id: u128,
)
    ensures
        worked(
            *old(tx),
            old(ledger)@,
            old(report)@,
            *final(tx),
            final(ledger)@,
            final(report)@,
            |d: Desk| d.place(scope, fact_id),
        ),
{
    let rows = load_timeline(ledger, scope);
    match find_row(&rows, fact_id) {
        None => {
            proof {
                lemma_no_work(*tx, ledger@, report@, |d: Desk| d.place(scope, fact_id));
            }
        },
        Some(n) => match rows[n].key() {
            None => {
                let picked = open_rivals(scope.side, &rows, n);
                raise_each(
                    ledger,
                    tx,
                    report,
                    scope.kb_id,
                    &rows,
                    &picked,
                    rows[n].id,
                    "no_time",
                );
            },
            Some(key) => {
                let together = simultaneous_rivals(scope.side, &rows, n, key);
                let undated = undated_rivals(scope.side, &rows, n);
                raise_each(
                    ledger,
                    tx,
                    report,
                    scope.kb_id,
                    &rows,
                    &together,
                    rows[n].id,
                    "simultaneous",
                );
                let ghost ledger1 = *ledger;
                let ghost tx1 = *tx;
                let ghost report1 = *report;
                close_each(ledger, tx, report, scope.kb_id, &rows, &undated, n);
                let ghost ledger2 = *ledger;
                let ghost tx2 = *tx;
                let ghost report2 = *report;
                tidy(ledger, tx, report, scope);
                proof {
                    let all = row_models(rows@);
                    let new = all[n as int];
                    let raising = |d: Desk|
                        d.raise_all(
                            scope.kb_id,
                            selected(all, together@),
                            new.id,
                            "simultaneous"@,
                        );
                    let closing = |d: Desk|
                        d.close_all(scope.kb_id, selected(all, undated@), new);
                    let tidying = |d: Desk| d.tidy(scope);
                    lemma_worked_on(
                        *old(tx),
                        old(ledger)@,
                        old(report)@,
                        tx1,
                        ledger1@,
                        report1@,
                        tx2,
                        ledger2@,
                        report2@,
                        raising,
                        closing,
                        |d: Desk| closing(raising(d)),
                    );
                    lemma_worked_on(
                        *old(tx),
                        old(ledger)@,
                        old(report)@,
                        tx2,
                        ledger2@,
                        report2@,
                        *tx,
                        ledger@,
                        report@,
                        |d: Desk| closing(raising(d)),
                        tidying,
                        |d: Desk| tidying(closing(raising(d))),
                    );
                }
            },
        },
    }
}

/// Reconciles a new fact, and adds to a report.
pub fn reconcile_into(
    ledger: &mut Ledger,
    tx: &mut Tx,
    report: &mut ReconcileReport,
    kb_id: u128,
    new_fact_id: u128,
    subject_id: u128,
    predicate_id: u128,
    object_id: Option<u128>,
    direction: Uniqueness,
    new_validity: Validity,
)
    ensures
        worked(
            *old(tx),
            old(ledger)@,
            old(report)@,
            *final(tx),
            final(ledger)@,
            final(report)@,
            |d: Desk|
                d.reconcile(
                    kb_id,
                    new_fact_id,
                    subject_id,
                    predicate_id,
                    object_id,
                    direction,
                    new_validity@,
                ),
        ),
        new_validity@.has_ended() || holder_of(direction, subject_id, object_id) is None
            ==> final(ledger)@ == old(ledger)@ && final(report)@ == old(report)@,
{
    let ghost step = |d: Desk|
        d.reconcile(
            kb_id,
            new_fact_id,
            subject_id,
            predicate_id,
            object_id,
            direction,
            new_validity@,
        );
    let holder: Option<u128> = match direction {
        Uniqueness::SubjectSide => Some(subject_id),
        Uniqueness::ObjectSide => object_id,
    };
    if new_validity.has_ended() {
        proof {
            lemma_no_work(*tx, ledger@, report@, step);
        }
        return ;
    }
    match holder {
        None => {
            proof {
                lemma_no_work(*tx, ledger@, report@, step);
            }
        },
        Some(holder) => {
            place(
                ledger,
                tx,
                report,
                Scope { kb_id, holder, predicate_id, side: direction },
                new_fact_id,
            );
        },
    }
}

/// Reconciles a new fact with the timeline of its holder on one side of its relation, of which
/// the caller knows that it is a state and unique there. The time and the confidence of the fact
/// are read from the ledger; an interval that has ended, or a literal on the object side, leaves
/// everything as it is.
pub fn reconcile_new_fact(
    ledger: &mut Ledger,
    tx: &mut Tx,
    kb_id: u128,
    new_fact_id: u128,
    subject_id: u128,
    predicate_id: u128,
    object_id: Option<u128>,
    _object_value: Option<&str>,
    direction: Uniqueness,
    new_validity: Validity,
    _new_confidence: Confidence,
) -> (r: ReconcileReport)
    ensures
        worked(
            *old(tx),
            old(ledger)@,
            nothing(),
            *final(tx),
            final(ledger)@,
            r@,
            |d: Desk|
                d.reconcile(
                    kb_id,
                    new_fact_id,
                    subject_id,
                    predicate_id,
                    object_id,
                    direction,
                    new_validity@,
                ),
        ),
        new_validity@.has_ended() || holder_of(direction, subject_id, object_id) is None
            ==> final(ledger)@ == old(ledger)@ && r@ == nothing(),
{
    let mut report = ReconcileReport::default();
    reconcile_into(
        ledger,
        tx,
        &mut report,
        kb_id,
        new_fact_id,
        subject_id,
        predicate_id,
        object_id,
        direction,
        new_validity,
    );
    report
}

} // verus!
