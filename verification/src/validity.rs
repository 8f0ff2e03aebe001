//! When a fact holds: moments, their precision, and intervals.
//!
//! A moment is a number of microseconds since 1970, in UTC. A precision is a text, such as `day`.

use crate::calendar::{
    day_of, day_with_date, days_before_month, is_date, is_day_of_year, law_every_day_has_a_date,
    lemma_date, lemma_day_of_year, lemma_months, lemma_not_before, new_year, utc_day_of_month,
    utc_day_of_year, DAY,
};
use crate::outside::{day_of_month, day_of_year, FIRST_MICRO, LAST_MICRO};
use crate::text::same_text;
use vstd::prelude::*;

verus! {

/// The precision of an end of which only is known that it has come.
pub const ENDED_UNKNOWN: &'static str = "unknown";

/// What a nullable borrowed text holds.
pub open spec fn opt_str(t: Option<&str>) -> Option<Seq<char>> {
    match t {
        Some(s) => Some(s@),
        None => None,
    }
}

/// The calendar has a date for the moment.
pub open spec fn in_calendar(t: int) -> bool {
    FIRST_MICRO <= t <= LAST_MICRO
}

/// Midnight of the day of a moment.
pub open spec fn midnight(t: int) -> int {
    t - t % (DAY as int)
}

/// The moment cut down to its precision: a year to its first of January, a month to its first
/// day, a day to its midnight. Any other precision says nothing of where to cut.
pub open spec fn truncated_to(t: i64, precision: Option<Seq<char>>) -> i64 {
    if !in_calendar(t as int) {
        t
    } else if precision == Some("year"@) {
        (midnight(t as int) - (utc_day_of_year(t as int) - 1) * DAY) as i64
    } else if precision == Some("month"@) {
        (midnight(t as int) - (utc_day_of_month(t as int) - 1) * DAY) as i64
    } else if precision == Some("day"@) {
        midnight(t as int) as i64
    } else {
        t
    }
}

fn midnight_of(t: i64) -> (r: i64)
    requires
        in_calendar(t as int),
    ensures
        r == midnight(t as int),
        r % DAY == 0,
{
    let lifted: i128 = t as i128 + 9_223_372_108_800_000_000;
    let into_day: u128 = (lifted as u128) % (DAY as u128);
    assert((t + 9_223_372_108_800_000_000) % (DAY as int) == (t as int) % (DAY as int));
    t - into_day as i64
}

/// Midnight of the day with that date.
pub open spec fn start_of(y: int, m: int, d: int) -> int {
    day_with_date(y, m, d) * DAY
}

/// The date of a moment tells where it is cut: a day at its midnight, a month on its first, a year
/// on its first of January.
pub proof fn law_a_date_is_cut_to_its_precision(t: i64, y: int, m: int, d: int)
    requires
        in_calendar(t as int),
        is_date(day_of(t as int), y, m, d),
    ensures
        truncated_to(t, Some("day"@)) == start_of(y, m, d),
        truncated_to(t, Some("month"@)) == start_of(y, m, 1),
        truncated_to(t, Some("year"@)) == start_of(y, 1, 1),
        FIRST_MICRO <= start_of(y, 1, 1) <= start_of(y, m, 1) <= start_of(y, m, d) <= t,
{
    let day = day_of(t as int);
    lemma_precisions();
    lemma_date(t as int, y, m, d);
    lemma_first_year();
    lemma_not_before(day, y, m, d, -262_143);
    lemma_months(y);
    assert(midnight(t as int) == day * DAY);
    assert(midnight(t as int) - (d - 1) * DAY == start_of(y, m, 1));
    assert(midnight(t as int) - (days_before_month(y, m) + d - 1) * DAY == start_of(y, 1, 1));
}

/// The calendar begins with a year.
proof fn lemma_first_year()
    ensures
        FIRST_MICRO == new_year(-262_143) * DAY,
{
}

/// The precisions that tell where to cut differ.
proof fn lemma_precisions()
    ensures
        "year"@ != "month"@,
        "year"@ != "day"@,
        "month"@ != "day"@,
{
    reveal_strlit("year");
    reveal_strlit("month");
    reveal_strlit("day");
    assert("year"@[0] != "month"@[0]);
    assert("year"@[0] != "day"@[0]);
    assert("month"@[0] != "day"@[0]);
}

/// Cutting down what is cut down already changes nothing.
proof fn lemma_cut_again(t: i64, y: int, m: int, d: int)
    requires
        in_calendar(t as int),
        is_date(day_of(t as int), y, m, d),
    ensures
        truncated_to(start_of(y, m, d) as i64, Some("day"@)) == start_of(y, m, d),
        truncated_to(start_of(y, m, 1) as i64, Some("month"@)) == start_of(y, m, 1),
        truncated_to(start_of(y, 1, 1) as i64, Some("year"@)) == start_of(y, 1, 1),
{
    law_a_date_is_cut_to_its_precision(t, y, m, d);
    lemma_months(y);
    assert(is_date(day_of(start_of(y, m, d)), y, m, d));
    assert(is_date(day_of(start_of(y, m, 1)), y, m, 1));
    assert(is_date(day_of(start_of(y, 1, 1)), y, 1, 1));
    law_a_date_is_cut_to_its_precision(start_of(y, m, d) as i64, y, m, d);
    law_a_date_is_cut_to_its_precision(start_of(y, m, 1) as i64, y, m, 1);
    law_a_date_is_cut_to_its_precision(start_of(y, 1, 1) as i64, y, 1, 1);
}

/// Cuts a moment down to its precision: a day to its midnight, a month to its first, a year to its
/// first of January.
///
/// The result is no later than the moment, and cutting it again changes nothing.
pub fn truncate_to(t: i64, precision: Option<&str>) -> (r: i64)
    ensures
        r == truncated_to(t, opt_str(precision)),
        r <= t,
        truncated_to(r, opt_str(precision)) == r,
        forall|y: int, m: int, d: int|
            in_calendar(t as int) && #[trigger] is_date(day_of(t as int), y, m, d) ==> {
                &&& opt_str(precision) == Some("day"@) ==> r == start_of(y, m, d)
                &&& opt_str(precision) == Some("month"@) ==> r == start_of(y, m, 1)
                &&& opt_str(precision) == Some("year"@) ==> r == start_of(y, 1, 1)
            },
{
    proof {
        lemma_precisions();
        let date = law_every_day_has_a_date(day_of(t as int));
        if in_calendar(t as int) {
            lemma_cut_again(t, date.0, date.1, date.2);
        }
        assert forall|y: int, m: int, d: int|
            in_calendar(t as int) && #[trigger] is_date(day_of(t as int), y, m, d) implies {
            &&& truncated_to(t, Some("day"@)) == start_of(y, m, d)
            &&& truncated_to(t, Some("month"@)) == start_of(y, m, 1)
            &&& truncated_to(t, Some("year"@)) == start_of(y, 1, 1)
        } by {
            law_a_date_is_cut_to_its_precision(t, y, m, d);
        }
        assert(is_date(day_of(t as int), date.0, date.1, date.2));
    }
    match precision {
        None => t,
        Some(p) => match (day_of_year(t), day_of_month(t)) {
            (Some(in_year), Some(in_month)) => {
                proof {
                    let (y, m) = choose|y: int, m: int| #[trigger]
                        is_date(day_of(t as int), y, m, in_month as int);
                    lemma_date(t as int, y, m, in_month as int);
                    let z = choose|z: int| #[trigger]
                        is_day_of_year(day_of(t as int), z, in_year as int);
                    lemma_day_of_year(t as int, z, in_year as int);
                }
                let start: i64 = midnight_of(t);
                if same_text(p, "year") {
                    let r: i64 = start - (in_year as i64 - 1) * DAY;
                    r
                } else if same_text(p, "month") {
                    let r: i64 = start - (in_month as i64 - 1) * DAY;
                    r
                } else if same_text(p, "day") {
                    start
                } else {
                    t
                }
            },
            _ => t,
        },
    }
}

/// An interval of validity, as it is handed in: each end with its precision.
#[derive(Debug, Clone, Copy)]
pub struct Validity<'a> {
    pub from: Option<i64>,
    pub from_precision: Option<&'a str>,
    pub to: Option<i64>,
    pub to_precision: Option<&'a str>,
}

/// What a [`Validity`] says.
pub struct ValidityModel {
    pub from: Option<i64>,
    pub from_precision: Option<Seq<char>>,
    pub to: Option<i64>,
    pub to_precision: Option<Seq<char>>,
}

impl ValidityModel {
    /// It has an end, known or unknown.
    pub open spec fn has_ended(self) -> bool {
        self.to is Some || self.to_precision is Some
    }

    /// It as a relation of that temporal kind can have it: an event has no span, only its
    /// moment.
    pub open spec fn under(self, temporal: Option<Seq<char>>) -> ValidityModel {
        if temporal == Some("event"@) {
            if self.from is None && self.to is Some {
                ValidityModel {
                    from: self.to,
                    from_precision: self.to_precision,
                    to: None,
                    to_precision: None,
                }
            } else {
                ValidityModel { to: None, to_precision: None, ..self }
            }
        } else {
            self
        }
    }

    /// Both ends cut down to their precision.
    pub open spec fn truncated(self) -> ValidityModel {
        ValidityModel {
            from: cut(self.from, self.from_precision),
            to: cut(self.to, self.to_precision),
            ..self
        }
    }
}

/// A nullable moment cut down to its precision.
pub open spec fn cut(t: Option<i64>, precision: Option<Seq<char>>) -> Option<i64> {
    match t {
        Some(t) => Some(truncated_to(t, precision)),
        None => None,
    }
}

impl<'a> View for Validity<'a> {
    type V = ValidityModel;

    open spec fn view(&self) -> ValidityModel {
        ValidityModel {
            from: self.from,
            from_precision: opt_str(self.from_precision),
            to: self.to,
            to_precision: opt_str(self.to_precision),
        }
    }
}

impl<'a> Validity<'a> {
    /// An interval that begins and has not ended.
    pub fn starting(from: Option<i64>, from_precision: Option<&'a str>) -> (r: Validity<'a>)
        ensures
            r@ == (ValidityModel {
                from,
                from_precision: opt_str(from_precision),
                to: None,
                to_precision: None,
            }),
    {
        Validity { from, from_precision, to: None, to_precision: None }
    }

    /// Whether the interval has an end, known or unknown.
    pub fn has_ended(&self) -> (r: bool)
        ensures
            r == self@.has_ended(),
    {
        self.to.is_some() || self.to_precision.is_some()
    }

    /// The interval as a relation of that temporal kind can have it: an event is left with its
    /// moment.
    pub fn under(self, temporal: Option<&str>) -> (r: Validity<'a>)
        ensures
            r@ == self@.under(opt_str(temporal)),
    {
        let event: bool = match temporal {
            Some(t) => same_text(t, "event"),
            None => false,
        };
        if event {
            if self.from.is_none() && self.to.is_some() {
                Validity {
                    from: self.to,
                    from_precision: self.to_precision,
                    to: None,
                    to_precision: None,
                }
            } else {
                Validity {
                    from: self.from,
                    from_precision: self.from_precision,
                    to: None,
                    to_precision: None,
                }
            }
        } else {
            self
        }
    }

    /// Both ends cut down to their precision.
    pub fn truncated(self) -> (r: Validity<'a>)
        ensures
            r@ == self@.truncated(),
    {
        let from: Option<i64> = match self.from {
            Some(t) => Some(truncate_to(t, self.from_precision)),
            None => None,
        };
        let to: Option<i64> = match self.to {
            Some(t) => Some(truncate_to(t, self.to_precision)),
            None => None,
        };
        Validity { from, from_precision: self.from_precision, to, to_precision: self.to_precision }
    }
}

} // verus!
