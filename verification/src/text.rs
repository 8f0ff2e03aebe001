//! Text columns and what they hold.

use vstd::prelude::*;

verus! {

/// What a nullable text column holds.
pub open spec fn opt_text(t: Option<String>) -> Option<Seq<char>> {
    match t {
        Some(s) => Some(s@),
        None => None,
    }
}

/// Whether two texts are the same, character by character.
pub fn same_text(a: &str, b: &str) -> (r: bool)
    ensures
        r == (a@ == b@),
{
    a.to_owned() == b.to_owned()
}

/// A copy of a nullable text column.
pub fn copy_text(t: &Option<String>) -> (r: Option<String>)
    ensures
        r == *t,
{
    match t {
        Some(s) => Some(s.clone()),
        None => None,
    }
}

/// Whether a nullable text column holds exactly `wanted`.
pub fn text_is(t: &Option<String>, wanted: &str) -> (r: bool)
    ensures
        r == (opt_text(*t) == Some(wanted@)),
{
    match t {
        Some(s) => same_text(s.as_str(), wanted),
        None => false,
    }
}

/// One text behind another.
pub fn joined(a: &str, b: &str) -> (r: String)
    ensures
        r@ == a@ + b@,
{
    a.to_owned().concat(b)
}

} // verus!
