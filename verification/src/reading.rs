//! What a timeline holds and how its rows are placed, said of the tables themselves.

use crate::handover::lemma_successor;
use crate::identity::{lemma_apart, lemma_filter_contains, lemma_timeline};
use crate::ledger::{Document, LedgerModel};
use crate::order::{arrange, lemma_arrange, no_later};
use crate::outside::json_same;
use crate::rest::{one_if, sum};
use crate::timeline::{
    another_at, by_recorded, change_due, covers, date_of, dated_at, evidence_date, follows,
    on_timeline, says_same, successor, timeline, RowModel, Scope, Uniqueness,
};
use vstd::prelude::*;

verus! {

/// A document bears a date itself: it is from its content or its source.
pub open spec fn bears_date(d: Document, t: i64) -> bool {
    &&& d.doc_time == Some(t)
    &&& d.doc_time_source is Some
    &&& d.doc_time_source->0@ == "content"@ || d.doc_time_source->0@ == "source"@
}

/// Some evidence of the fact stands in a document that bears that date itself.
pub open spec fn is_attested_on(l: LedgerModel, fact_id: u128, t: i64) -> bool {
    exists|i: int, k: int|
        0 <= i < l.evidence.len() && 0 <= k < l.documents.len() && (
        #[trigger] l.evidence[i]).fact_id == fact_id && l.evidence[i].document_id == Some(
            (#[trigger] l.documents[k]).id,
        ) && bears_date(l.documents[k], t)
}

/// `date` is the earliest date on which the fact is attested.
pub open spec fn is_dated(l: LedgerModel, fact_id: u128, date: Option<i64>) -> bool {
    match date {
        Some(t) => is_attested_on(l, fact_id, t) && forall|u: i64|
            #[trigger] is_attested_on(l, fact_id, u) ==> t <= u,
        None => forall|u: i64| !(#[trigger] is_attested_on(l, fact_id, u)),
    }
}

proof fn lemma_date_of_document(documents: Seq<Document>, id: u128)
    ensures
        date_of(documents, id) is Some ==> exists|k: int|
            0 <= k < documents.len() && (#[trigger] documents[k]).id == id && bears_date(
                documents[k],
                date_of(documents, id)->0,
            ),
        forall|k: int, t: i64|
            0 <= k < documents.len() && (#[trigger] documents[k]).id == id && #[trigger] bears_date(
                documents[k],
                t,
            ) ==> date_of(documents, id) is Some && date_of(documents, id)->0 <= t,
    decreases documents.len(),
{
    if documents.len() > 0 {
        let head = documents.drop_last();
        let d = documents.last();
        lemma_date_of_document(head, id);
        assert(documents[documents.len() - 1] == d);
        assert forall|k: int, t: i64|
            0 <= k < documents.len() && (#[trigger] documents[k]).id == id && #[trigger] bears_date(
                documents[k],
                t,
            ) implies date_of(documents, id) is Some && date_of(documents, id)->0 <= t by {
            if k < head.len() {
                assert(head[k] == documents[k]);
                assert(bears_date(head[k], t));
            }
        }
        if date_of(documents, id) is Some {
            let t = date_of(documents, id)->0;
            if date_of(documents, id) == date_of(head, id) {
                let k = choose|k: int|
                    0 <= k < head.len() && (#[trigger] head[k]).id == id && bears_date(head[k], t);
                assert(documents[k] == head[k]);
            } else {
                assert(bears_date(documents[documents.len() - 1], t));
            }
        }
    }
}

/// A fact is dated by the earliest date that one of the documents bears itself in which its
/// evidence stands. When a document was uploaded, or its file modified, dates nothing.
pub proof fn law_a_fact_is_dated_by_its_documents(l: LedgerModel, fact_id: u128)
    ensures
        is_dated(l, fact_id, dated_at(l.evidence, l.documents, fact_id)),
{
    let date = dated_at(l.evidence, l.documents, fact_id);
    crate::timeline::law_a_fact_is_dated_by_its_first_evidence(l.evidence, l.documents, fact_id);
    if date is Some {
        let i = choose|i: int|
            0 <= i < l.evidence.len() && (#[trigger] l.evidence[i]).fact_id == fact_id
                && evidence_date(l.documents, l.evidence[i]) == date;
        let id = l.evidence[i].document_id->0;
        lemma_date_of_document(l.documents, id);
        let k = choose|k: int|
            0 <= k < l.documents.len() && (#[trigger] l.documents[k]).id == id && bears_date(
                l.documents[k],
                date->0,
            );
        assert(l.evidence[i].document_id == Some(l.documents[k].id));
        assert(is_attested_on(l, fact_id, date->0));
    }
    assert forall|u: i64| #[trigger] is_attested_on(l, fact_id, u) implies date is Some && date->0
        <= u by {
        let (i, k) = choose|i: int, k: int|
            0 <= i < l.evidence.len() && 0 <= k < l.documents.len() && (
            #[trigger] l.evidence[i]).fact_id == fact_id && l.evidence[i].document_id == Some(
                (#[trigger] l.documents[k]).id,
            ) && bears_date(l.documents[k], u);
        lemma_date_of_document(l.documents, l.documents[k].id);
        assert(bears_date(l.documents[k], u));
        assert(evidence_date(l.documents, l.evidence[i]) is Some);
    }
}

/// The fact `i` is of a timeline: present, of the knowledge base, the relation and the holder.
pub open spec fn is_on(l: LedgerModel, scope: Scope, i: int) -> bool {
    &&& 0 <= i < l.facts.len()
    &&& l.facts[i].kb_id == scope.kb_id
    &&& l.facts[i].predicate_id == Some(scope.predicate_id)
    &&& l.facts[i].invalidated_at is None
    &&& scope.side is SubjectSide ==> l.facts[i].subject_id == scope.holder
    &&& scope.side is ObjectSide ==> l.facts[i].object_id == Some(scope.holder)
}

/// The row says what the fact `i` says, and when it is dated.
pub open spec fn is_row_of(l: LedgerModel, i: int, r: RowModel) -> bool {
    &&& r.id == l.facts[i].id
    &&& r.subject_id == l.facts[i].subject_id
    &&& r.object_id == l.facts[i].object_id
    &&& r.object_value == l.facts[i].object_value
    &&& r.valid_from == l.facts[i].valid_from
    &&& r.valid_from_precision == l.facts[i].valid_from_precision
    &&& r.valid_to == l.facts[i].valid_to
    &&& r.valid_to_precision == l.facts[i].valid_to_precision
    &&& r.attested_to == l.facts[i].attested_to
    &&& r.confidence == l.facts[i].confidence
    &&& is_dated(l, l.facts[i].id, r.dated_at)
}

/// The row is that of some fact of the timeline.
pub open spec fn is_of_fact(l: LedgerModel, scope: Scope, r: RowModel) -> bool {
    exists|i: int| #[trigger] is_on(l, scope, i) && is_row_of(l, i, r)
}

/// The row of a fact is its row.
pub proof fn lemma_row(l: LedgerModel, i: int)
    requires
        0 <= i < l.facts.len(),
    ensures
        is_row_of(l, i, l.row(i)),
{
    law_a_fact_is_dated_by_its_documents(l, l.facts[i].id);
}

/// To stand on a timeline is to be of it.
pub proof fn lemma_on(l: LedgerModel, scope: Scope, i: int)
    ensures
        l.stands(scope, i) <==> is_on(l, scope, i),
{
}

proof fn lemma_filter_sum(l: LedgerModel, scope: Scope, n: int)
    requires
        0 <= n <= l.facts.len(),
    ensures
        l.facts.take(n).filter(on_timeline(scope)).len() == sum(
            |i: int| one_if(is_on(l, scope, i)),
            n,
        ),
    decreases n,
{
    reveal(Seq::filter);
    if n > 0 {
        lemma_filter_sum(l, scope, n - 1);
        assert(l.facts.take(n).drop_last() =~= l.facts.take(n - 1));
        assert(l.facts.take(n).last() == l.facts[n - 1]);
        lemma_on(l, scope, n - 1);
    }
}

/// A timeline has a row for each present fact of the holder under the relation, and no others. Each
/// says what its fact says.
pub proof fn law_a_timeline_has_the_present_facts(l: LedgerModel, scope: Scope)
    ensures
        timeline(l, scope).len() == sum(
            |i: int| one_if(is_on(l, scope, i)),
            l.facts.len() as int,
        ),
        forall|k: int|
            0 <= k < timeline(l, scope).len() ==> is_of_fact(
                l,
                scope,
                #[trigger] timeline(l, scope)[k],
            ),
        forall|i: int| #[trigger]
            is_on(l, scope, i) ==> exists|k: int|
                0 <= k < timeline(l, scope).len() && is_row_of(
                    l,
                    i,
                    #[trigger] timeline(l, scope)[k],
                ),
{
    let rows = timeline(l, scope);
    let n = l.facts.len() as int;
    lemma_timeline(l, scope);
    lemma_filter_sum(l, scope, n);
    assert(l.facts.take(n) =~= l.facts);
    lemma_arrange(l.facts.filter(on_timeline(scope)), by_recorded());
    assert forall|k: int| 0 <= k < rows.len() implies is_of_fact(
        l,
        scope,
        #[trigger] rows[k],
    ) by {
        assert(rows.contains(rows[k]));
        let i = choose|i: int| #[trigger] l.stands(scope, i) && l.row(i) == rows[k];
        lemma_row(l, i);
        assert(is_on(l, scope, i) && is_row_of(l, i, rows[k]));
    }
    assert forall|i: int| #[trigger] is_on(l, scope, i) implies exists|k: int|
        0 <= k < rows.len() && is_row_of(l, i, #[trigger] rows[k]) by {
        assert(l.stands(scope, i));
        lemma_row(l, i);
        assert(rows.contains(l.row(i)));
        let k = choose|k: int| 0 <= k < rows.len() && rows[k] == l.row(i);
        assert(is_row_of(l, i, rows[k]));
    }
}

/// The rows of a timeline come in the order in which their facts were recorded.
pub proof fn law_rows_come_as_they_were_recorded(
    l: LedgerModel,
    scope: Scope,
    a: int,
    b: int,
    i: int,
    j: int,
)
    requires
        l.distinct(),
        0 <= a < b < timeline(l, scope).len(),
        0 <= i < l.facts.len(),
        0 <= j < l.facts.len(),
        l.facts[i].id == timeline(l, scope)[a].id,
        l.facts[j].id == timeline(l, scope)[b].id,
    ensures
        l.facts[i].recorded_at <= l.facts[j].recorded_at,
{
    let kept = l.facts.filter(on_timeline(scope));
    let sorted = arrange(kept, by_recorded());
    lemma_arrange(kept, by_recorded());
    assert(sorted.contains(sorted[a]) && sorted.contains(sorted[b]));
    lemma_filter_contains(l.facts, on_timeline(scope), sorted[a]);
    lemma_filter_contains(l.facts, on_timeline(scope), sorted[b]);
    let m = choose|m: int| 0 <= m < l.facts.len() && l.facts[m] == sorted[a];
    let n = choose|n: int| 0 <= n < l.facts.len() && l.facts[n] == sorted[b];
    if m != i {
        lemma_apart(l, m, i);
    }
    if n != j {
        lemma_apart(l, n, j);
    }
    assert(no_later(by_recorded()(sorted[a]), by_recorded()(sorted[b])));
}

/// A row is placed by its start, or else by the date of its first evidence; it is open if it has no
/// end, known or unknown; and its end is its date, or else, of an unknown one, when it was
/// attested.
pub proof fn law_a_row_is_placed_by_its_start(r: RowModel)
    ensures
        r.valid_from is Some ==> r.key() == r.valid_from,
        r.valid_from is None ==> r.key() == r.dated_at,
        r.is_open() <==> r.valid_to is None && r.valid_to_precision is None,
        r.valid_to is Some ==> r.end() == r.valid_to,
        r.valid_to is None && r.valid_to_precision == Some("unknown"@) ==> r.end()
            == r.attested_to,
        r.valid_to is None && r.valid_to_precision != Some("unknown"@) ==> r.end() is None,
{
}

/// Two rows say the same: on the subject side if they have the same object, and either no literal
/// or the same one as JSON; on the object side if they have the same subject.
pub proof fn law_rows_say_the_same_of_one_side(side: Uniqueness, a: RowModel, b: RowModel)
    ensures
        side is ObjectSide ==> (says_same(side, a, b) <==> a.subject_id == b.subject_id),
        side is SubjectSide && a.object_value is None && b.object_value is None ==> (says_same(
            side,
            a,
            b,
        ) <==> a.object_id == b.object_id),
        side is SubjectSide && a.object_value is Some && b.object_value is Some ==> (says_same(
            side,
            a,
            b,
        ) <==> a.object_id == b.object_id && json_same(a.object_value->0, b.object_value->0)),
        side is SubjectSide && (a.object_value is Some) != (b.object_value is Some) ==> !says_same(
            side,
            a,
            b,
        ),
{
}

/// `y` starts later than `x` and says something else.
pub open spec fn is_later(side: Uniqueness, x: RowModel, y: RowModel) -> bool {
    &&& x.id != y.id
    &&& x.key() is Some
    &&& y.key() is Some
    &&& x.key()->0 < y.key()->0
    &&& !says_same(side, x, y)
}

/// What is due on a timeline, if anything: a row, and a later one that says something else at the
/// start of which it has to end. Either the row is open, and no other that is later and says
/// something else starts before; or it has ended behind that start, and some other row starts
/// where it has ended. The pair is not held.
pub proof fn law_what_is_due_is_a_row_and_a_later_one(
    side: Uniqueness,
    rows: Seq<RowModel>,
    held: Seq<(u128, u128)>,
)
    requires
        change_due(side, rows, held) is Some,
    ensures
        ({
            let (row, next) = change_due(side, rows, held)->0;
            &&& rows.contains(row)
            &&& rows.contains(next)
            &&& is_later(side, row, next)
            &&& !held.contains((row.id, next.id))
            &&& row.is_open() ==> forall|y: RowModel| #[trigger]
                rows.contains(y) && is_later(side, row, y) ==> next.key()->0 <= y.key()->0
            &&& !row.is_open() ==> row.end() is Some && next.key()->0 < row.end()->0 && exists|
                y: RowModel,
            |
                #[trigger] rows.contains(y) && y.id != row.id && y.key() == row.end()
        }),
{
    let (row, next) = change_due(side, rows, held)->0;
    crate::handover::lemma_due(side, rows, held);
    lemma_successor(side, rows, row);
    if row.is_open() {
        assert forall|y: RowModel| #[trigger]
            rows.contains(y) && is_later(side, row, y) implies next.key()->0 <= y.key()->0 by {
            assert(follows(side, row)(y));
        }
    } else {
        assert(covers(side, rows, row, next));
        let t = row.end()->0;
        let i = choose|i: int|
            0 <= i < rows.len() && (#[trigger] rows[i]).id != row.id && rows[i].key() == Some(t);
        assert(rows.contains(rows[i]));
    }
}

/// Where nothing is due but what is held, each open row has no later one that says something else,
/// or is held with the first of these; and a row that has ended where another starts does not hold
/// over the start of one that says something else, or is held with it.
pub proof fn law_nothing_is_due_where_each_row_ends_in_time(
    side: Uniqueness,
    rows: Seq<RowModel>,
    held: Seq<(u128, u128)>,
)
    requires
        change_due(side, rows, held) is None,
    ensures
        forall|x: RowModel, y: RowModel|
            #![trigger rows.contains(x), rows.contains(y)]
            rows.contains(x) && rows.contains(y) && x.is_open() && is_later(side, x, y)
                ==> exists|z: RowModel| #[trigger]
                rows.contains(z) && is_later(side, x, z) && z.key()->0 <= y.key()->0
                    && held.contains((x.id, z.id)),
        forall|x: RowModel, y: RowModel, z: RowModel|
            #![trigger rows.contains(x), rows.contains(y), rows.contains(z)]
            rows.contains(x) && rows.contains(y) && rows.contains(z) && !x.is_open() && is_later(
                side,
                x,
                y,
            ) && z.id != x.id && x.end() is Some && z.key() == x.end() && y.key()->0 < x.end()->0
                ==> held.contains((x.id, y.id)),
{
    crate::handover::lemma_nothing_due(side, rows, held);
    assert forall|x: RowModel, y: RowModel|
        #![trigger rows.contains(x), rows.contains(y)]
        rows.contains(x) && rows.contains(y) && x.is_open() && is_later(side, x, y) implies exists|
        z: RowModel,
    |
        #[trigger] rows.contains(z) && is_later(side, x, z) && z.key()->0 <= y.key()->0
            && held.contains((x.id, z.id)) by {
        lemma_successor(side, rows, x);
        assert(follows(side, x)(y));
        let z = successor(side, rows, x)->0;
        assert(rows.contains(z) && is_later(side, x, z));
    }
    assert forall|x: RowModel, y: RowModel, z: RowModel|
        #![trigger rows.contains(x), rows.contains(y), rows.contains(z)]
        rows.contains(x) && rows.contains(y) && rows.contains(z) && !x.is_open() && is_later(
            side,
            x,
            y,
        ) && z.id != x.id && x.end() is Some && z.key() == x.end() && y.key()->0
            < x.end()->0 implies held.contains((x.id, y.id)) by {
        let k = choose|k: int| 0 <= k < rows.len() && rows[k] == z;
        assert(another_at(rows, x.id, x.end()->0));
        assert(covers(side, rows, x, y));
    }
}

} // verus!
