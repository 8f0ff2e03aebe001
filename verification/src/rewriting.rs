//! What a fact that is rewritten keeps, column by column.

use crate::ledger::FactModel;
use crate::rewrite::{ended_at, ended_unknown, raised, with_interval};
use crate::validity::{truncated_to, ValidityModel};
use vstd::prelude::*;

verus! {

/// `g` was written at `now` in the place of `f`, and says the same of the same things: of the same
/// knowledge base, subject, relation and object, with the same confidence.
pub open spec fn takes_over(f: FactModel, g: FactModel, now: i64) -> bool {
    &&& g.kb_id == f.kb_id
    &&& g.subject_id == f.subject_id
    &&& g.predicate_id == f.predicate_id
    &&& g.object_id == f.object_id
    &&& g.object_value == f.object_value
    &&& g.confidence == f.confidence
    &&& g.attested_from == f.attested_from
    &&& g.supersedes == Some(f.id)
    &&& g.recorded_at == now
    &&& g.invalidated_at is None
}

/// `g` is `f`, ended on a day.
pub open spec fn is_closed_on(
    f: FactModel,
    g: FactModel,
    at: i64,
    precision: Seq<char>,
    now: i64,
) -> bool {
    &&& takes_over(f, g, now)
    &&& g.valid_from == f.valid_from
    &&& g.valid_from_precision == f.valid_from_precision
    &&& g.valid_to == Some(truncated_to(at, Some(precision)))
    &&& g.valid_to_precision == Some(precision)
    &&& g.attested_to is None
}

/// `g` is `f`, ended on an unknown day.
pub open spec fn is_closed_unknown(
    f: FactModel,
    g: FactModel,
    attested_at: Option<i64>,
    now: i64,
) -> bool {
    &&& takes_over(f, g, now)
    &&& g.valid_from == f.valid_from
    &&& g.valid_from_precision == f.valid_from_precision
    &&& g.valid_to is None
    &&& g.valid_to_precision == Some("unknown"@)
    &&& attested_at is Some ==> g.attested_to == attested_at
    &&& attested_at is None ==> g.attested_to == Some(now)
}

/// Closing a fact on a day changes nothing but its end.
pub proof fn law_closing_keeps_what_is_said(
    f: FactModel,
    id: u128,
    at: i64,
    precision: Seq<char>,
    now: i64,
)
    ensures
        ended_at(f, id, at, precision, now).id == id,
        is_closed_on(f, ended_at(f, id, at, precision, now), at, precision, now),
{
}

/// Closing a fact on an unknown day changes nothing but its end, which is attested where it was
/// told, or now.
pub proof fn law_closing_unknown_keeps_what_is_said(
    f: FactModel,
    id: u128,
    attested_at: Option<i64>,
    now: i64,
)
    ensures
        ended_unknown(f, id, attested_at, now).id == id,
        is_closed_unknown(f, ended_unknown(f, id, attested_at, now), attested_at, now),
{
}

/// `g` is `f` with another interval. An unknown end keeps the moment that attested one, and is
/// attested now where there was none; no other end is attested.
pub open spec fn is_corrected_to(
    f: FactModel,
    g: FactModel,
    validity: ValidityModel,
    now: i64,
) -> bool {
    &&& takes_over(f, g, now)
    &&& g.valid_from == validity.from
    &&& g.valid_from_precision == validity.from_precision
    &&& g.valid_to == validity.to
    &&& g.valid_to_precision == validity.to_precision
    &&& validity.to_precision != Some("unknown"@) ==> g.attested_to is None
    &&& validity.to_precision == Some("unknown"@) && f.attested_to is Some ==> g.attested_to
        == f.attested_to
    &&& validity.to_precision == Some("unknown"@) && f.attested_to is None ==> g.attested_to
        == Some(now)
}

/// Correcting the interval of a fact by hand changes its interval, and nothing of what it says.
pub proof fn law_correcting_keeps_what_is_said(
    f: FactModel,
    id: u128,
    validity: ValidityModel,
    now: i64,
)
    ensures
        with_interval(f, id, validity, now).id == id,
        is_corrected_to(f, with_interval(f, id, validity, now), validity, now),
{
}

/// The interval that is recorded is the one that was given, each end cut down to its precision. Of
/// an event it is the moment alone: the start, or the end where only that was given.
pub proof fn law_an_interval_is_recorded_as_given(v: ValidityModel, temporal: Option<Seq<char>>)
    ensures
        ({
            let r = v.under(temporal).truncated();
            &&& temporal != Some("event"@) ==> {
                &&& r.from_precision == v.from_precision
                &&& r.to_precision == v.to_precision
                &&& r.from is Some <==> v.from is Some
                &&& v.from is Some ==> r.from == Some(truncated_to(v.from->0, v.from_precision))
                &&& r.to is Some <==> v.to is Some
                &&& v.to is Some ==> r.to == Some(truncated_to(v.to->0, v.to_precision))
            }
            &&& temporal == Some("event"@) ==> {
                &&& r.to is None
                &&& r.to_precision is None
                &&& v.from is Some || v.to is None ==> {
                    &&& r.from_precision == v.from_precision
                    &&& r.from is Some <==> v.from is Some
                    &&& v.from is Some ==> r.from == Some(
                        truncated_to(v.from->0, v.from_precision),
                    )
                }
                &&& v.from is None && v.to is Some ==> {
                    &&& r.from_precision == v.to_precision
                    &&& r.from == Some(truncated_to(v.to->0, v.to_precision))
                }
            }
        }),
{
}

/// An interval has ended if it has an end, known or unknown.
pub proof fn law_an_interval_has_ended_if_it_has_an_end(v: ValidityModel)
    ensures
        v.has_ended() <==> v.to is Some || v.to_precision is Some,
{
}

/// A conflict is raised open, of the two facts in their order, and is not answered.
pub proof fn law_a_question_is_raised_open(
    id: u128,
    kb_id: u128,
    old_fact_id: u128,
    new_fact_id: u128,
    reason: Seq<char>,
    now: i64,
)
    ensures
        ({
            let c = raised(id, kb_id, old_fact_id, new_fact_id, reason, now);
            &&& c.id == id
            &&& c.kb_id == kb_id
            &&& c.old_fact_id == old_fact_id
            &&& c.new_fact_id == new_fact_id
            &&& c.reason == reason
            &&& c.status == "open"@
            &&& c.resolution is None
            &&& c.created_at == now
            &&& c.resolved_at is None
        }),
{
}

} // verus!
