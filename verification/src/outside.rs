//! What the ledger takes from other crates: new identifiers, the calendar, and JSON.
//!
//! Nothing in this file is proved. Each contract says what its crate's source shows.

use chrono::Datelike;
use crate::calendar::{day_of, is_date, is_day_of_year};
use crate::text::opt_text;
use vstd::prelude::*;

verus! {

/// The first microsecond that a `chrono::DateTime<Utc>` can hold.
pub const FIRST_MICRO: i64 = -8_334_601_228_800_000_000;

/// The last microsecond that a `chrono::DateTime<Utc>` can hold.
pub const LAST_MICRO: i64 = 8_210_266_876_799_999_999;

/// A new identifier from `uuid::Uuid::now_v7`, as the 128 bit number of its bytes.
///
/// It depends on the clock and on chance. What holds of every outcome is that its version field,
/// bits 76 to 79, is seven. That no two calls agree is not claimed.
#[verifier::external_body]
pub(crate) fn new_id() -> (id: u128)
    ensures
        id as int / 0x1_0000_0000_0000_0000_000 % 16 == 7,
{
    uuid::Uuid::now_v7().as_u128()
}

/// A hexadecimal digit, in lower case.
pub open spec fn hex_digit(d: u128) -> char {
    if d < 10 {
        ('0' as u128 + d) as char
    } else {
        ('a' as u128 + d - 10) as char
    }
}

/// The hexadecimal digit `k` of a number of 32 digits, from the left.
pub open spec fn digit_at(id: u128, k: int) -> u128 {
    (id >> ((124 - 4 * k) as u128)) & 0xf
}

/// An identifier in its hyphenated form: 32 hexadecimal digits in groups of 8, 4, 4, 4 and 12.
pub open spec fn hyphenated(id: u128) -> Seq<char> {
    Seq::new(
        36,
        |i: int|
            if i == 8 || i == 13 || i == 18 || i == 23 {
                '-'
            } else if i < 8 {
                hex_digit(digit_at(id, i))
            } else if i < 13 {
                hex_digit(digit_at(id, i - 1))
            } else if i < 18 {
                hex_digit(digit_at(id, i - 2))
            } else if i < 23 {
                hex_digit(digit_at(id, i - 3))
            } else {
                hex_digit(digit_at(id, i - 4))
            },
    )
}

/// `to_string` of the `uuid::Uuid` with these 128 bits: its `Display` writes the hyphenated form
/// in lower case.
#[verifier::external_body]
pub(crate) fn id_text(id: u128) -> (r: String)
    ensures
        r@ == hyphenated(id),
{
    uuid::Uuid::from_u128(id).to_string()
}

/// `chrono::Datelike::day` of the UTC date of a moment, given in microseconds since 1970.
///
/// `chrono::DateTime::from_timestamp_micros` refuses exactly the moments outside
/// `FIRST_MICRO..=LAST_MICRO`. Of the result it is claimed that it is the day of the month in the
/// date that the day of the moment has in the Gregorian calendar.
#[verifier::external_body]
pub(crate) fn day_of_month(micros: i64) -> (r: Option<u32>)
    ensures
        r is Some <==> FIRST_MICRO <= micros <= LAST_MICRO,
        r is Some ==> exists|y: int, m: int| #[trigger]
            is_date(day_of(micros as int), y, m, r->0 as int),
{
    chrono::DateTime::<chrono::Utc>::from_timestamp_micros(micros).map(|t| t.day())
}

/// `chrono::Datelike::ordinal` of the UTC date of a moment, given in microseconds since 1970.
///
/// It refuses the moments that [`day_of_month`] refuses. Of the result it is claimed that it counts
/// the days of the year, in the Gregorian calendar, up to the day of the moment.
#[verifier::external_body]
pub(crate) fn day_of_year(micros: i64) -> (r: Option<u32>)
    ensures
        r is Some <==> FIRST_MICRO <= micros <= LAST_MICRO,
        r is Some ==> exists|y: int| #[trigger]
            is_day_of_year(day_of(micros as int), y, r->0 as int),
{
    chrono::DateTime::<chrono::Utc>::from_timestamp_micros(micros).map(|t| t.ordinal())
}

/// Whether two JSON texts denote equal values (`==` on `serde_json::Value`).
pub uninterp spec fn json_same(a: Seq<char>, b: Seq<char>) -> bool;

/// The string that a JSON text denotes, where it denotes one (`serde_json::Value::as_str`).
pub uninterp spec fn json_str(json: Seq<char>) -> Option<Seq<char>>;

/// The JSON text of an object's member (`serde_json::Value::get`).
pub uninterp spec fn json_member(json: Seq<char>, key: Seq<char>) -> Option<Seq<char>>;

/// The compact JSON text of the value that a JSON text denotes (`Display` of
/// `serde_json::Value`).
pub uninterp spec fn json_compact(json: Seq<char>) -> Option<Seq<char>>;

/// `==` on the `serde_json::Value`s of two JSON texts. A text that is not JSON has no value, and
/// two such texts count as equal.
///
/// It is an equivalence: it does not depend on the order of the two, equal texts denote equal
/// values, and of two equal values each equals what the other equals. (A number of JSON is finite.)
#[verifier::external_body]
pub(crate) fn json_equal(a: &str, b: &str) -> (r: bool)
    ensures
        r == json_same(a@, b@),
        r == json_same(b@, a@),
        a@ == b@ ==> r,
        r ==> forall|c: Seq<char>| #[trigger] json_same(a@, c) == json_same(b@, c),
{
    let left: Option<serde_json::Value> = serde_json::from_str(a).ok();
    let right: Option<serde_json::Value> = serde_json::from_str(b).ok();
    left == right
}

/// `serde_json::Value::as_str` of a JSON text: `None` where the text denotes no string.
#[verifier::external_body]
pub(crate) fn json_as_str(json: &str) -> (r: Option<String>)
    ensures
        opt_text(r) == json_str(json@),
{
    let value: Option<serde_json::Value> = serde_json::from_str(json).ok();
    value.and_then(|v| v.as_str().map(|s| s.to_owned()))
}

/// `serde_json::Value::get` of a JSON text, and the compact text of the member: `None` where the
/// text denotes no object, or one without that member.
#[verifier::external_body]
pub(crate) fn json_get(json: &str, key: &str) -> (r: Option<String>)
    ensures
        opt_text(r) == json_member(json@, key@),
{
    let value: Option<serde_json::Value> = serde_json::from_str(json).ok();
    value.and_then(|v| v.get(key).map(|member| member.to_string()))
}

/// `to_string` of the `serde_json::Value` of a JSON text: `None` where the text is not JSON.
#[verifier::external_body]
pub(crate) fn json_to_string(json: &str) -> (r: Option<String>)
    ensures
        opt_text(r) == json_compact(json@),
{
    let value: Option<serde_json::Value> = serde_json::from_str(json).ok();
    value.map(|v| v.to_string())
}

} // verus!
