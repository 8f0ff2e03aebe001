//! Timelines: the present facts of one holder under one relation, and the next thing to tidy.

use crate::confidence::Confidence;
use crate::ledger::{Document, Evidence, Fact, FactModel, Ledger, LedgerModel};
use crate::order::{
    arrange, first, lemma_first, lemma_first_is, lemma_sorted, selected, sorted_positions,
};
use crate::outside::{json_equal, json_same};
use crate::text::{copy_text, opt_text, text_is};
use crate::validity::ENDED_UNKNOWN;
use vstd::prelude::*;

verus! {

/// Which side of a relation is unique. On the subject side a subject has one object at a time;
/// on the object side an object has one subject at a time.
#[derive(Debug, Clone, Copy, PartialEq, Eq, Structural)]
pub enum Uniqueness {
    SubjectSide,
    ObjectSide,
}

/// Which timeline: a knowledge base, the holder, the relation, and the side that is unique.
#[derive(Debug, Clone, Copy)]
pub struct Scope {
    pub kb_id: u128,
    pub holder: u128,
    pub predicate_id: u128,
    pub side: Uniqueness,
}

/// A row of a timeline: a present fact, and the date of its first evidence.
#[derive(Debug)]
pub struct Row {
    pub id: u128,
    pub subject_id: u128,
    pub object_id: Option<u128>,
    pub object_value: Option<String>,
    pub valid_from: Option<i64>,
    pub valid_from_precision: Option<String>,
    pub valid_to: Option<i64>,
    pub valid_to_precision: Option<String>,
    pub attested_to: Option<i64>,
    pub confidence: Confidence,
    pub dated_at: Option<i64>,
}

/// What a [`Row`] says.
pub struct RowModel {
    pub id: u128,
    pub subject_id: u128,
    pub object_id: Option<u128>,
    pub object_value: Option<Seq<char>>,
    pub valid_from: Option<i64>,
    pub valid_from_precision: Option<Seq<char>>,
    pub valid_to: Option<i64>,
    pub valid_to_precision: Option<Seq<char>>,
    pub attested_to: Option<i64>,
    pub confidence: Confidence,
    pub dated_at: Option<i64>,
}

/// The start of an interval; where there is none, the date of the first evidence.
pub open spec fn start_or_date(valid_from: Option<i64>, dated_at: Option<i64>) -> Option<i64> {
    if valid_from is Some {
        valid_from
    } else {
        dated_at
    }
}

impl RowModel {
    /// When the row is placed: its start, or else the date of its first evidence, on which it
    /// held at least.
    pub open spec fn key(self) -> Option<i64> {
        start_or_date(self.valid_from, self.dated_at)
    }

    /// The row has no end, neither a known nor an unknown one.
    pub open spec fn is_open(self) -> bool {
        self.valid_to is None && self.valid_to_precision is None
    }

    /// The end of the row: its date; for an unknown end, when it was attested.
    pub open spec fn end(self) -> Option<i64> {
        if self.valid_to is Some {
            self.valid_to
        } else if self.valid_to_precision == Some(ENDED_UNKNOWN@) {
            self.attested_to
        } else {
            None
        }
    }
}

impl View for Row {
    type V = RowModel;

    open spec fn view(&self) -> RowModel {
        RowModel {
            id: self.id,
            subject_id: self.subject_id,
            object_id: self.object_id,
            object_value: opt_text(self.object_value),
            valid_from: self.valid_from,
            valid_from_precision: opt_text(self.valid_from_precision),
            valid_to: self.valid_to,
            valid_to_precision: opt_text(self.valid_to_precision),
            attested_to: self.attested_to,
            confidence: self.confidence,
            dated_at: self.dated_at,
        }
    }
}

/// The contents of a list of rows.
pub open spec fn row_models(s: Seq<Row>) -> Seq<RowModel> {
    Seq::new(s.len(), |i: int| s[i]@)
}

impl Row {
    /// When the row is placed.
    pub fn key(&self) -> (r: Option<i64>)
        ensures
            r == self@.key(),
    {
        if self.valid_from.is_some() {
            self.valid_from
        } else {
            self.dated_at
        }
    }

    /// Whether the row has no end, neither a known nor an unknown one.
    pub fn is_open(&self) -> (r: bool)
        ensures
            r == self@.is_open(),
    {
        self.valid_to.is_none() && self.valid_to_precision.is_none()
    }

    /// The end of the row.
    pub fn end(&self) -> (r: Option<i64>)
        ensures
            r == self@.end(),
    {
        if self.valid_to.is_some() {
            self.valid_to
        } else if text_is(&self.valid_to_precision, ENDED_UNKNOWN) {
            self.attested_to
        } else {
            None
        }
    }
}

/// The earlier of two nullable moments.
pub open spec fn earlier(a: Option<i64>, b: Option<i64>) -> Option<i64> {
    match (a, b) {
        (Some(x), Some(y)) => Some(
            if x <= y {
                x
            } else {
                y
            },
        ),
        (Some(x), None) => Some(x),
        (None, _) => b,
    }
}

fn earlier_of(a: Option<i64>, b: Option<i64>) -> (r: Option<i64>)
    ensures
        r == earlier(a, b),
{
    match (a, b) {
        (Some(x), Some(y)) => Some(
            if x <= y {
                x
            } else {
                y
            },
        ),
        (Some(x), None) => Some(x),
        (None, _) => b,
    }
}

/// The date that a document bears itself: from its content or its source. When it was uploaded
/// or its file was modified is not its date.
pub open spec fn own_date(d: Document) -> Option<i64> {
    if opt_text(d.doc_time_source) == Some("content"@) || opt_text(d.doc_time_source) == Some(
        "source"@,
    ) {
        d.doc_time
    } else {
        None
    }
}

/// The earliest own date of the document `id`.
pub open spec fn date_of(documents: Seq<Document>, id: u128) -> Option<i64>
    decreases documents.len(),
{
    if documents.len() == 0 {
        None
    } else {
        earlier(
            date_of(documents.drop_last(), id),
            if documents.last().id == id {
                own_date(documents.last())
            } else {
                None
            },
        )
    }
}

/// The own date of the document in which an evidence stands.
pub open spec fn evidence_date(documents: Seq<Document>, e: Evidence) -> Option<i64> {
    match e.document_id {
        Some(id) => date_of(documents, id),
        None => None,
    }
}

/// The earliest own date of the documents in which the evidence of a fact stands.
pub open spec fn dated_at(
    evidence: Seq<Evidence>,
    documents: Seq<Document>,
    fact_id: u128,
) -> Option<i64>
    decreases evidence.len(),
{
    if evidence.len() == 0 {
        None
    } else {
        earlier(
            dated_at(evidence.drop_last(), documents, fact_id),
            if evidence.last().fact_id == fact_id {
                evidence_date(documents, evidence.last())
            } else {
                None
            },
        )
    }
}

fn document_date(documents: &Vec<Document>, id: u128) -> (r: Option<i64>)
    ensures
        r == date_of(documents@, id),
{
    let mut found: Option<i64> = None;
    let mut i: usize = 0;
    while i < documents.len()
        invariant
            i <= documents@.len(),
            found == date_of(documents@.take(i as int), id),
        decreases documents@.len() - i,
    {
        assert(documents@.take(i + 1).drop_last() =~= documents@.take(i as int));
        let d = &documents[i];
        if d.id == id && (text_is(&d.doc_time_source, "content") || text_is(
            &d.doc_time_source,
            "source",
        )) {
            found = earlier_of(found, d.doc_time);
        }
        i = i + 1;
    }
    assert(documents@.take(i as int) =~= documents@);
    found
}

/// The earliest own date of the documents in which the evidence of a fact stands.
pub fn first_dated(ledger: &Ledger, fact_id: u128) -> (r: Option<i64>)
    ensures
        r == dated_at(ledger@.evidence, ledger@.documents, fact_id),
{
    let mut found: Option<i64> = None;
    let mut i: usize = 0;
    while i < ledger.evidence.len()
        invariant
            i <= ledger.evidence@.len(),
            found == dated_at(ledger@.evidence.take(i as int), ledger@.documents, fact_id),
        decreases ledger.evidence@.len() - i,
    {
        assert(ledger@.evidence.take(i + 1).drop_last() =~= ledger@.evidence.take(i as int));
        let e = &ledger.evidence[i];
        if e.fact_id == fact_id {
            if let Some(id) = e.document_id {
                found = earlier_of(found, document_date(&ledger.documents, id));
            }
        }
        i = i + 1;
    }
    assert(ledger@.evidence.take(i as int) =~= ledger@.evidence);
    found
}

/// The row of a fact.
pub open spec fn row_of(l: LedgerModel) -> spec_fn(FactModel) -> RowModel {
    |f: FactModel|
        RowModel {
            id: f.id,
            subject_id: f.subject_id,
            object_id: f.object_id,
            object_value: f.object_value,
            valid_from: f.valid_from,
            valid_from_precision: f.valid_from_precision,
            valid_to: f.valid_to,
            valid_to_precision: f.valid_to_precision,
            attested_to: f.attested_to,
            confidence: f.confidence,
            dated_at: dated_at(l.evidence, l.documents, f.id),
        }
}

/// A fact that stands on a timeline: present, of the holder and of the relation.
pub open spec fn on_timeline(scope: Scope) -> spec_fn(FactModel) -> bool {
    |f: FactModel|
        {
            &&& f.kb_id == scope.kb_id
            &&& match scope.side {
                Uniqueness::SubjectSide => f.subject_id == scope.holder,
                Uniqueness::ObjectSide => f.object_id == Some(scope.holder),
            }
            &&& f.predicate_id == Some(scope.predicate_id)
            &&& f.is_alive()
        }
}

/// Facts are sorted by when they were recorded.
pub open spec fn by_recorded() -> spec_fn(FactModel) -> (int, int) {
    |f: FactModel| (f.recorded_at as int, 0)
}

/// The rows of a timeline, in the order in which their facts were recorded.
pub open spec fn timeline(l: LedgerModel, scope: Scope) -> Seq<RowModel> {
    arrange(l.facts.filter(on_timeline(scope)), by_recorded()).map_values(row_of(l))
}

/// Whether a fact stands on a timeline.
fn stands_on(f: &Fact, scope: Scope) -> (r: bool)
    ensures
        r == on_timeline(scope)(f@),
{
    let held: bool = match scope.side {
        Uniqueness::SubjectSide => f.subject_id == scope.holder,
        Uniqueness::ObjectSide => match f.object_id {
            Some(o) => o == scope.holder,
            None => false,
        },
    };
    let related: bool = match f.predicate_id {
        Some(p) => p == scope.predicate_id,
        None => false,
    };
    f.kb_id == scope.kb_id && held && related && f.is_alive()
}

/// Reads a timeline.
pub fn load_timeline(ledger: &Ledger, scope: Scope) -> (r: Vec<Row>)
    ensures
        row_models(r@) == timeline(ledger@, scope),
{
    let ghost p = on_timeline(scope);
    let ghost facts = ledger@.facts;
    let mut picked: Vec<usize> = Vec::new();
    let mut keys: Vec<(i128, u128)> = Vec::new();
    let mut i: usize = 0;
    proof {
        reveal(Seq::filter);
        assert(selected(facts, picked@) =~= facts.take(0).filter(p));
    }
    while i < ledger.facts.len()
        invariant
            i <= ledger.facts@.len(),
            p == on_timeline(scope),
            facts == ledger@.facts,
            selected(facts, picked@) == facts.take(i as int).filter(p),
            keys@.len() == picked@.len(),
            forall|j: int|
                0 <= j < picked@.len() ==> (#[trigger] picked@[j]) < ledger.facts@.len()
                    && keys@[j] == (facts[picked@[j] as int].recorded_at as i128, 0u128),
        decreases ledger.facts@.len() - i,
    {
        proof {
            reveal(Seq::filter);
            assert(facts.take(i + 1).drop_last() =~= facts.take(i as int));
            assert(facts[i as int] == ledger.facts@[i as int]@);
        }
        let ghost before = picked@;
        if stands_on(&ledger.facts[i], scope) {
            picked.push(i);
            keys.push((ledger.facts[i].recorded_at as i128, 0u128));
            assert(selected(facts, picked@) =~= selected(facts, before).push(facts[i as int]));
        }
        i = i + 1;
    }
    let ghost found = selected(facts, picked@);
    assert(facts.take(i as int) =~= facts);
    let order = sorted_positions(&keys);
    proof {
        assert forall|j: int| 0 <= j < found.len() implies by_recorded()(#[trigger] found[j]) == (
            keys@[j].0 as int,
            keys@[j].1 as int,
        ) by {
            assert(found[j] == facts[picked@[j] as int]);
        }
        lemma_sorted(found, by_recorded(), keys@, order@);
    }
    let ghost sorted = selected(found, order@);
    let mut rows: Vec<Row> = Vec::new();
    let mut k: usize = 0;
    while k < order.len()
        invariant
            k <= order@.len(),
            order@.len() == keys@.len(),
            keys@.len() == picked@.len(),
            facts == ledger@.facts,
            found == selected(facts, picked@),
            sorted == selected(found, order@),
            forall|j: int| 0 <= j < order@.len() ==> (#[trigger] order@[j]) < keys@.len(),
            forall|j: int|
                0 <= j < picked@.len() ==> (#[trigger] picked@[j]) < ledger.facts@.len(),
            rows@.len() == k,
            forall|j: int|
                0 <= j < k ==> #[trigger] row_models(rows@)[j] == row_of(ledger@)(sorted[j]),
        decreases order@.len() - k,
    {
        assert(order@[k as int] < keys@.len());
        assert(picked@[order@[k as int] as int] < ledger.facts@.len());
        let f = &ledger.facts[picked[order[k]]];
        assert(f@ == sorted[k as int]);
        let row = Row {
            id: f.id,
            subject_id: f.subject_id,
            object_id: f.object_id,
            object_value: copy_text(&f.object_value),
            valid_from: f.valid_from,
            valid_from_precision: copy_text(&f.valid_from_precision),
            valid_to: f.valid_to,
            valid_to_precision: copy_text(&f.valid_to_precision),
            attested_to: f.attested_to,
            confidence: f.confidence,
            dated_at: first_dated(ledger, f.id),
        };
        let ghost before = rows@;
        rows.push(row);
        assert(row@ == row_of(ledger@)(sorted[k as int]));
        assert forall|j: int| 0 <= j < k + 1 implies #[trigger] row_models(rows@)[j] == row_of(
            ledger@,
        )(sorted[j]) by {
            if j < k {
                assert(row_models(rows@)[j] == row_models(before)[j]);
            }
        }
        k = k + 1;
    }
    assert(row_models(rows@) =~= timeline(ledger@, scope));
    rows
}

/// Two literals are the same value, or both are absent.
pub open spec fn same_literal(a: Option<Seq<char>>, b: Option<Seq<char>>) -> bool {
    match (a, b) {
        (Some(x), Some(y)) => json_same(x, y),
        (None, None) => true,
        _ => false,
    }
}

/// Two rows say the same: on the subject side the same object, on the object side the same
/// subject.
pub open spec fn says_same(side: Uniqueness, a: RowModel, b: RowModel) -> bool {
    match side {
        Uniqueness::SubjectSide => a.object_id == b.object_id && same_literal(
            a.object_value,
            b.object_value,
        ),
        Uniqueness::ObjectSide => a.subject_id == b.subject_id,
    }
}

/// Whether two rows say the same. It is an equivalence: what both say in the same words is the
/// same, the order of the two does not matter, and of two rows that say the same each says the
/// same as the other does.
pub fn same_value(side: Uniqueness, a: &Row, b: &Row) -> (r: bool)
    ensures
        r == says_same(side, a@, b@),
        r == says_same(side, b@, a@),
        side is SubjectSide && a@.object_id == b@.object_id && a@.object_value == b@.object_value
            ==> r,
        side is ObjectSide && a@.subject_id == b@.subject_id ==> r,
        r ==> forall|c: RowModel| #[trigger] says_same(side, a@, c) == says_same(side, b@, c),
{
    match side {
        Uniqueness::SubjectSide => {
            let literals: bool = match (&a.object_value, &b.object_value) {
                (Some(x), Some(y)) => json_equal(x.as_str(), y.as_str()),
                (None, None) => true,
                _ => false,
            };
            a.object_id == b.object_id && literals
        },
        Uniqueness::ObjectSide => a.subject_id == b.subject_id,
    }
}

/// A row that can be placed in time.
pub open spec fn has_key() -> spec_fn(RowModel) -> bool {
    |r: RowModel| r.key() is Some
}

/// Rows are placed by their moment, then by their identifier.
pub open spec fn by_time() -> spec_fn(RowModel) -> (int, int) {
    |r: RowModel| (r.key()->0 as int, r.id as int)
}

/// The rows that can be placed in time, in the order of time.
pub open spec fn in_time_order(rows: Seq<RowModel>) -> Seq<RowModel> {
    arrange(rows.filter(has_key()), by_time())
}

/// A row other than `id` is placed at `t`.
pub open spec fn another_at(rows: Seq<RowModel>, id: u128, t: i64) -> bool {
    exists|i: int| 0 <= i < rows.len() && (#[trigger] rows[i]).id != id && rows[i].key() == Some(t)
}

/// `c` has ended, says something else than `x`, and holds over the start of `x`; and it ends
/// where some other row starts, as one does that gave way to a successor. An end that the text
/// itself states is not of this shape.
pub open spec fn covers(side: Uniqueness, rows: Seq<RowModel>, c: RowModel, x: RowModel) -> bool {
    &&& c.id != x.id
    &&& !c.is_open()
    &&& !says_same(side, c, x)
    &&& c.key() is Some
    &&& x.key() is Some
    &&& c.end() is Some
    &&& c.key()->0 < x.key()->0 < c.end()->0
    &&& another_at(rows, c.id, c.end()->0)
}

/// A row that is to be cut at the start of `x`.
pub open spec fn to_cut(
    side: Uniqueness,
    rows: Seq<RowModel>,
    held: Seq<(u128, u128)>,
    x: RowModel,
) -> spec_fn(RowModel) -> bool {
    |c: RowModel| covers(side, rows, c, x) && !held.contains((c.id, x.id))
}

/// The first row that is to be cut at the start of `x`.
pub open spec fn cut_at(
    side: Uniqueness,
    rows: Seq<RowModel>,
    held: Seq<(u128, u128)>,
    x: RowModel,
) -> Option<RowModel> {
    first(in_time_order(rows), to_cut(side, rows, held, x))
}

/// A row at the start of which some row is to be cut.
pub open spec fn cutting(
    side: Uniqueness,
    rows: Seq<RowModel>,
    held: Seq<(u128, u128)>,
) -> spec_fn(RowModel) -> bool {
    |x: RowModel| cut_at(side, rows, held, x) is Some
}

/// A row that says something else than `x` and starts later.
pub open spec fn follows(side: Uniqueness, x: RowModel) -> spec_fn(RowModel) -> bool {
    |y: RowModel| y.id != x.id && !says_same(side, x, y) && y.key() is Some && x.key() is Some
        && y.key()->0 > x.key()->0
}

/// The nearest later row that says something else.
pub open spec fn successor(side: Uniqueness, rows: Seq<RowModel>, x: RowModel) -> Option<RowModel> {
    first(in_time_order(rows), follows(side, x))
}

/// An open row that has a successor to be closed at.
pub open spec fn closing(
    side: Uniqueness,
    rows: Seq<RowModel>,
    held: Seq<(u128, u128)>,
) -> spec_fn(RowModel) -> bool {
    |x: RowModel|
        {
            &&& x.is_open()
            &&& successor(side, rows, x) is Some
            &&& !held.contains((x.id, successor(side, rows, x)->0.id))
        }
}

/// The next thing to tidy on a timeline: the row to be cut or closed, and its successor. Cuts
/// come before closings, and both are looked for in the order of time. The pairs in `held` are
/// passed over.
pub open spec fn change_due(
    side: Uniqueness,
    rows: Seq<RowModel>,
    held: Seq<(u128, u128)>,
) -> Option<(RowModel, RowModel)> {
    let ordered = in_time_order(rows);
    match first(ordered, cutting(side, rows, held)) {
        Some(x) => Some((cut_at(side, rows, held, x)->0, x)),
        None => match first(ordered, closing(side, rows, held)) {
            Some(x) => Some((x, successor(side, rows, x)->0)),
            None => None,
        },
    }
}

/// The positions of the rows that can be placed in time, in the order of time.
fn time_order(rows: &Vec<Row>) -> (r: Vec<usize>)
    ensures
        selected(row_models(rows@), r@) == in_time_order(row_models(rows@)),
        forall|j: int|
            0 <= j < r@.len() ==> (#[trigger] r@[j]) < rows@.len() && row_models(
                rows@,
            )[r@[j] as int].key() is Some,
{
    let ghost all = row_models(rows@);
    let mut picked: Vec<usize> = Vec::new();
    let mut keys: Vec<(i128, u128)> = Vec::new();
    let mut i: usize = 0;
    proof {
        reveal(Seq::filter);
        assert(selected(all, picked@) =~= all.take(0).filter(has_key()));
    }
    while i < rows.len()
        invariant
            i <= rows@.len(),
            all == row_models(rows@),
            selected(all, picked@) == all.take(i as int).filter(has_key()),
            keys@.len() == picked@.len(),
            forall|j: int|
                0 <= j < picked@.len() ==> (#[trigger] picked@[j]) < rows@.len()
                    && all[picked@[j] as int].key() is Some && keys@[j] == (
                    all[picked@[j] as int].key()->0 as i128,
                    all[picked@[j] as int].id,
                ),
        decreases rows@.len() - i,
    {
        proof {
            reveal(Seq::filter);
            assert(all.take(i + 1).drop_last() =~= all.take(i as int));
            assert(all[i as int] == rows@[i as int]@);
        }
        let ghost before = picked@;
        if let Some(t) = rows[i].key() {
            picked.push(i);
            keys.push((t as i128, rows[i].id));
            assert(selected(all, picked@) =~= selected(all, before).push(all[i as int]));
        }
        i = i + 1;
    }
    let ghost found = selected(all, picked@);
    assert(all.take(i as int) =~= all);
    let order = sorted_positions(&keys);
    proof {
        assert forall|j: int| 0 <= j < found.len() implies by_time()(#[trigger] found[j]) == (
            keys@[j].0 as int,
            keys@[j].1 as int,
        ) by {
            assert(found[j] == all[picked@[j] as int]);
        }
        lemma_sorted(found, by_time(), keys@, order@);
    }
    let mut r: Vec<usize> = Vec::new();
    let mut k: usize = 0;
    while k < order.len()
        invariant
            k <= order@.len(),
            order@.len() == picked@.len(),
            forall|j: int| 0 <= j < order@.len() ==> (#[trigger] order@[j]) < picked@.len(),
            r@.len() == k,
            forall|j: int| 0 <= j < k ==> #[trigger] r@[j] == picked@[order@[j] as int],
        decreases order@.len() - k,
    {
        assert(order@[k as int] < picked@.len());
        r.push(picked[order[k]]);
        k = k + 1;
    }
    proof {
        assert(selected(all, r@) =~= selected(found, order@));
        assert forall|j: int| 0 <= j < r@.len() implies (#[trigger] r@[j]) < rows@.len()
            && row_models(rows@)[r@[j] as int].key() is Some by {
            assert(order@[j] < picked@.len());
            assert(picked@[order@[j] as int] < rows@.len());
        }
    }
    r
}

/// Whether a pair is held.
fn is_held(held: &Vec<(u128, u128)>, row: u128, next: u128) -> (r: bool)
    ensures
        r == held@.contains((row, next)),
{
    let mut i: usize = 0;
    while i < held.len()
        invariant
            i <= held@.len(),
            forall|j: int| 0 <= j < i ==> #[trigger] held@[j] != (row, next),
        decreases held@.len() - i,
    {
        if held[i].0 == row && held[i].1 == next {
            assert(held@[i as int] == (row, next));
            return true;
        }
        i = i + 1;
    }
    false
}

/// Whether a row other than `id` is placed at `t`.
fn starts_there(rows: &Vec<Row>, id: u128, t: i64) -> (r: bool)
    ensures
        r == another_at(row_models(rows@), id, t),
{
    let ghost all = row_models(rows@);
    let mut i: usize = 0;
    while i < rows.len()
        invariant
            i <= rows@.len(),
            all == row_models(rows@),
            forall|j: int| 0 <= j < i ==> !((#[trigger] all[j]).id != id && all[j].key() == Some(t)),
        decreases rows@.len() - i,
    {
        assert(all[i as int] == rows@[i as int]@);
        if rows[i].id != id {
            if let Some(k) = rows[i].key() {
                if k == t {
                    return true;
                }
            }
        }
        i = i + 1;
    }
    false
}

/// Whether the row `c` covers the start of the row `x`.
fn is_covered(side: Uniqueness, rows: &Vec<Row>, c: usize, x: usize) -> (r: bool)
    requires
        c < rows@.len(),
        x < rows@.len(),
    ensures
        r == covers(
            side,
            row_models(rows@),
            row_models(rows@)[c as int],
            row_models(rows@)[x as int],
        ),
{
    if rows[c].id == rows[x].id || rows[c].is_open() || same_value(side, &rows[c], &rows[x]) {
        return false;
    }
    match (rows[c].key(), rows[x].key(), rows[c].end()) {
        (Some(ck), Some(xk), Some(ce)) => ck < xk && xk < ce && starts_there(rows, rows[c].id, ce),
        _ => false,
    }
}

/// The first row that is to be cut at the start of the row `x`.
fn find_cut(
    side: Uniqueness,
    rows: &Vec<Row>,
    order: &Vec<usize>,
    held: &Vec<(u128, u128)>,
    x: usize,
) -> (r: Option<usize>)
    requires
        x < rows@.len(),
        selected(row_models(rows@), order@) == in_time_order(row_models(rows@)),
        forall|j: int| 0 <= j < order@.len() ==> (#[trigger] order@[j]) < rows@.len(),
    ensures
        match r {
            Some(c) => c < rows@.len() && cut_at(
                side,
                row_models(rows@),
                held@,
                row_models(rows@)[x as int],
            ) == Some(row_models(rows@)[c as int]),
            None => cut_at(side, row_models(rows@), held@, row_models(rows@)[x as int]) is None,
        },
{
    let ghost all = row_models(rows@);
    let ghost ordered = in_time_order(all);
    let ghost p = to_cut(side, all, held@, all[x as int]);
    let mut i: usize = 0;
    while i < order.len()
        invariant
            i <= order@.len(),
            x < rows@.len(),
            all == row_models(rows@),
            ordered == in_time_order(all),
            ordered == selected(all, order@),
            p == to_cut(side, all, held@, all[x as int]),
            forall|j: int| 0 <= j < order@.len() ==> (#[trigger] order@[j]) < rows@.len(),
            forall|j: int| 0 <= j < i ==> !p(#[trigger] ordered[j]),
        decreases order@.len() - i,
    {
        let c: usize = order[i];
        assert(ordered[i as int] == all[c as int]);
        if is_covered(side, rows, c, x) && !is_held(held, rows[c].id, rows[x].id) {
            proof {
                lemma_first_is(ordered, p, i as int);
            }
            return Some(c);
        }
        i = i + 1;
    }
    proof {
        lemma_first(ordered, p);
    }
    None
}

/// The nearest row that is later than the row `x` and says something else.
fn find_successor(side: Uniqueness, rows: &Vec<Row>, order: &Vec<usize>, x: usize) -> (r: Option<
    usize,
>)
    requires
        x < rows@.len(),
        selected(row_models(rows@), order@) == in_time_order(row_models(rows@)),
        forall|j: int| 0 <= j < order@.len() ==> (#[trigger] order@[j]) < rows@.len(),
    ensures
        match r {
            Some(y) => y < rows@.len() && successor(
                side,
                row_models(rows@),
                row_models(rows@)[x as int],
            ) == Some(row_models(rows@)[y as int]),
            None => successor(side, row_models(rows@), row_models(rows@)[x as int]) is None,
        },
{
    let ghost all = row_models(rows@);
    let ghost ordered = in_time_order(all);
    let ghost p = follows(side, all[x as int]);
    let mut i: usize = 0;
    while i < order.len()
        invariant
            i <= order@.len(),
            x < rows@.len(),
            all == row_models(rows@),
            ordered == in_time_order(all),
            ordered == selected(all, order@),
            p == follows(side, all[x as int]),
            forall|j: int| 0 <= j < order@.len() ==> (#[trigger] order@[j]) < rows@.len(),
            forall|j: int| 0 <= j < i ==> !p(#[trigger] ordered[j]),
        decreases order@.len() - i,
    {
        let y: usize = order[i];
        assert(ordered[i as int] == all[y as int]);
        let later: bool = match (rows[y].key(), rows[x].key()) {
            (Some(yk), Some(xk)) => yk > xk,
            _ => false,
        };
        if later && rows[y].id != rows[x].id && !same_value(side, &rows[x], &rows[y]) {
            proof {
                lemma_first_is(ordered, p, i as int);
            }
            return Some(y);
        }
        i = i + 1;
    }
    proof {
        lemma_first(ordered, p);
    }
    None
}

/// The next thing to tidy on a timeline: the positions of the row to be cut or closed and of its
/// successor.
pub fn next_change(side: Uniqueness, rows: &Vec<Row>, held: &Vec<(u128, u128)>) -> (r: Option<
    (usize, usize),
>)
    ensures
        match r {
            Some((row, next)) => {
                &&& row < rows@.len()
                &&& next < rows@.len()
                &&& change_due(side, row_models(rows@), held@) == Some(
                    (row_models(rows@)[row as int], row_models(rows@)[next as int]),
                )
            },
            None => change_due(side, row_models(rows@), held@) is None,
        },
{
    let ghost all = row_models(rows@);
    let ghost ordered = in_time_order(all);
    let ghost cut = cutting(side, all, held@);
    let ghost close = closing(side, all, held@);
    let order = time_order(rows);
    let mut i: usize = 0;
    while i < order.len()
        invariant
            i <= order@.len(),
            all == row_models(rows@),
            ordered == in_time_order(all),
            ordered == selected(all, order@),
            cut == cutting(side, all, held@),
            forall|j: int| 0 <= j < order@.len() ==> (#[trigger] order@[j]) < rows@.len(),
            forall|j: int| 0 <= j < i ==> !cut(#[trigger] ordered[j]),
        decreases order@.len() - i,
    {
        let x: usize = order[i];
        assert(ordered[i as int] == all[x as int]);
        if let Some(c) = find_cut(side, rows, &order, held, x) {
            proof {
                lemma_first_is(ordered, cut, i as int);
            }
            return Some((c, x));
        }
        i = i + 1;
    }
    proof {
        lemma_first(ordered, cut);
    }
    let mut k: usize = 0;
    while k < order.len()
        invariant
            k <= order@.len(),
            all == row_models(rows@),
            ordered == in_time_order(all),
            ordered == selected(all, order@),
            close == closing(side, all, held@),
            first(ordered, cutting(side, all, held@)) is None,
            forall|j: int| 0 <= j < order@.len() ==> (#[trigger] order@[j]) < rows@.len(),
            forall|j: int| 0 <= j < k ==> !close(#[trigger] ordered[j]),
        decreases order@.len() - k,
    {
        let x: usize = order[k];
        assert(ordered[k as int] == all[x as int]);
        if rows[x].is_open() {
            if let Some(y) = find_successor(side, rows, &order, x) {
                if !is_held(held, rows[x].id, rows[y].id) {
                    proof {
                        lemma_first_is(ordered, close, k as int);
                    }
                    return Some((x, y));
                }
            }
        }
        k = k + 1;
    }
    proof {
        lemma_first(ordered, close);
    }
    None
}

/// The date of a document is its earliest own date, if it has any.
pub proof fn lemma_date_of(documents: Seq<Document>, id: u128)
    ensures
        date_of(documents, id) is Some ==> exists|i: int|
            0 <= i < documents.len() && (#[trigger] documents[i]).id == id && own_date(
                documents[i],
            ) == date_of(documents, id),
        forall|i: int|
            0 <= i < documents.len() && (#[trigger] documents[i]).id == id && own_date(
                documents[i],
            ) is Some ==> date_of(documents, id) is Some && date_of(documents, id)->0 <= own_date(
                documents[i],
            )->0,
    decreases documents.len(),
{
    if documents.len() > 0 {
        let head = documents.drop_last();
        lemma_date_of(head, id);
        assert(documents[documents.len() - 1] == documents.last());
        assert forall|i: int|
            0 <= i < documents.len() && (#[trigger] documents[i]).id == id && own_date(
                documents[i],
            ) is Some implies date_of(documents, id) is Some && date_of(documents, id)->0
            <= own_date(documents[i])->0 by {
            if i < head.len() {
                assert(head[i] == documents[i]);
            }
        }
        if date_of(documents, id) is Some {
            if date_of(documents, id) == date_of(head, id) {
                let i = choose|i: int|
                    0 <= i < head.len() && (#[trigger] head[i]).id == id && own_date(head[i])
                        == date_of(head, id);
                assert(documents[i] == head[i]);
            }
        }
    }
}

/// A fact is dated by the earliest date that one of its documents bears itself; when a document
/// was uploaded, or its file modified, dates nothing.
pub proof fn law_a_fact_is_dated_by_its_first_evidence(
    evidence: Seq<Evidence>,
    documents: Seq<Document>,
    fact_id: u128,
)
    ensures
        dated_at(evidence, documents, fact_id) is Some ==> exists|i: int|
            0 <= i < evidence.len() && (#[trigger] evidence[i]).fact_id == fact_id
                && evidence_date(documents, evidence[i]) == dated_at(evidence, documents, fact_id),
        forall|i: int|
            0 <= i < evidence.len() && (#[trigger] evidence[i]).fact_id == fact_id
                && evidence_date(documents, evidence[i]) is Some ==> dated_at(
                evidence,
                documents,
                fact_id,
            ) is Some && dated_at(evidence, documents, fact_id)->0 <= evidence_date(
                documents,
                evidence[i],
            )->0,
        forall|i: int, k: int|
            0 <= i < evidence.len() && (#[trigger] evidence[i]).fact_id == fact_id && 0 <= k
                < documents.len() && evidence[i].document_id == Some((#[trigger] documents[k]).id)
                && own_date(documents[k]) is Some ==> dated_at(
                evidence,
                documents,
                fact_id,
            ) is Some && dated_at(evidence, documents, fact_id)->0 <= own_date(documents[k])->0,
    decreases evidence.len(),
{
    if evidence.len() > 0 {
        let head = evidence.drop_last();
        law_a_fact_is_dated_by_its_first_evidence(head, documents, fact_id);
        assert(evidence[evidence.len() - 1] == evidence.last());
        assert forall|i: int|
            0 <= i < evidence.len() && (#[trigger] evidence[i]).fact_id == fact_id
                && evidence_date(documents, evidence[i]) is Some implies dated_at(
            evidence,
            documents,
            fact_id,
        ) is Some && dated_at(evidence, documents, fact_id)->0 <= evidence_date(
            documents,
            evidence[i],
        )->0 by {
            if i < head.len() {
                assert(head[i] == evidence[i]);
            }
        }
        if dated_at(evidence, documents, fact_id) is Some {
            if dated_at(evidence, documents, fact_id) == dated_at(head, documents, fact_id) {
                let i = choose|i: int|
                    0 <= i < head.len() && (#[trigger] head[i]).fact_id == fact_id
                        && evidence_date(documents, head[i]) == dated_at(head, documents, fact_id);
                assert(evidence[i] == head[i]);
            }
        }
    }
    assert forall|i: int, k: int|
        0 <= i < evidence.len() && (#[trigger] evidence[i]).fact_id == fact_id && 0 <= k
            < documents.len() && evidence[i].document_id == Some((#[trigger] documents[k]).id)
            && own_date(documents[k]) is Some implies dated_at(
        evidence,
        documents,
        fact_id,
    ) is Some && dated_at(evidence, documents, fact_id)->0 <= own_date(documents[k])->0 by {
        lemma_date_of(documents, documents[k].id);
        assert(evidence_date(documents, evidence[i]) is Some);
    }
}

} // verus!
