//! The name under which a timeline is locked while it is tidied.

use crate::outside::{digit_at, hex_digit, hyphenated, id_text};
use crate::text::joined;
use crate::timeline::{Scope, Uniqueness};
use vstd::prelude::*;

verus! {

/// The side as it stands in the name of a lock.
pub open spec fn side_text(side: Uniqueness) -> Seq<char> {
    match side {
        Uniqueness::SubjectSide => "SubjectSide"@,
        Uniqueness::ObjectSide => "ObjectSide"@,
    }
}

/// The name under which a timeline is locked.
pub open spec fn lock_text(scope: Scope) -> Seq<char> {
    "timeline:"@ + hyphenated(scope.kb_id) + ":"@ + hyphenated(scope.holder) + ":"@ + hyphenated(
        scope.predicate_id,
    ) + ":"@ + side_text(scope.side)
}

/// The name under which a timeline is locked.
pub fn lock_key(scope: Scope) -> (r: String)
    ensures
        r@ == lock_text(scope),
{
    let kb = joined("timeline:", id_text(scope.kb_id).as_str());
    let holder = joined(joined(kb.as_str(), ":").as_str(), id_text(scope.holder).as_str());
    let predicate = joined(
        joined(holder.as_str(), ":").as_str(),
        id_text(scope.predicate_id).as_str(),
    );
    let side: &str = match scope.side {
        Uniqueness::SubjectSide => "SubjectSide",
        Uniqueness::ObjectSide => "ObjectSide",
    };
    joined(joined(predicate.as_str(), ":").as_str(), side)
}

/// Two hexadecimal digits that are written the same are the same.
proof fn lemma_hex_digit(a: u128, b: u128)
    requires
        a < 16,
        b < 16,
        hex_digit(a) == hex_digit(b),
    ensures
        a == b,
{
}

/// The digit of a number is below 16.
proof fn lemma_digit(id: u128, k: int)
    ensures
        digit_at(id, k) < 16,
{
    let shifted = id >> ((124 - 4 * k) as u128);
    assert(shifted & 0xf < 16) by (bit_vector);
}

/// Two identifiers that are written the same are the same.
pub proof fn lemma_hyphenated(a: u128, b: u128)
    requires
        hyphenated(a) == hyphenated(b),
    ensures
        a == b,
{
    assert forall|k: int| 0 <= k < 32 implies #[trigger] digit_at(a, k) == digit_at(b, k) by {
        let i = if k < 8 {
            k
        } else if k < 12 {
            k + 1
        } else if k < 16 {
            k + 2
        } else if k < 20 {
            k + 3
        } else {
            k + 4
        };
        assert(hyphenated(a)[i] == hex_digit(digit_at(a, k)));
        assert(hyphenated(b)[i] == hex_digit(digit_at(b, k)));
        lemma_digit(a, k);
        lemma_digit(b, k);
        lemma_hex_digit(digit_at(a, k), digit_at(b, k));
    }
    assert(digit_at(a, 0) == digit_at(b, 0) && digit_at(a, 1) == digit_at(b, 1) && digit_at(a, 2)
        == digit_at(b, 2) && digit_at(a, 3) == digit_at(b, 3));
    assert(digit_at(a, 4) == digit_at(b, 4) && digit_at(a, 5) == digit_at(b, 5) && digit_at(a, 6)
        == digit_at(b, 6) && digit_at(a, 7) == digit_at(b, 7));
    assert(digit_at(a, 8) == digit_at(b, 8) && digit_at(a, 9) == digit_at(b, 9) && digit_at(a, 10)
        == digit_at(b, 10) && digit_at(a, 11) == digit_at(b, 11));
    assert(digit_at(a, 12) == digit_at(b, 12) && digit_at(a, 13) == digit_at(b, 13) && digit_at(
        a,
        14,
    ) == digit_at(b, 14) && digit_at(a, 15) == digit_at(b, 15));
    assert(digit_at(a, 16) == digit_at(b, 16) && digit_at(a, 17) == digit_at(b, 17) && digit_at(
        a,
        18,
    ) == digit_at(b, 18) && digit_at(a, 19) == digit_at(b, 19));
    assert(digit_at(a, 20) == digit_at(b, 20) && digit_at(a, 21) == digit_at(b, 21) && digit_at(
        a,
        22,
    ) == digit_at(b, 22) && digit_at(a, 23) == digit_at(b, 23));
    assert(digit_at(a, 24) == digit_at(b, 24) && digit_at(a, 25) == digit_at(b, 25) && digit_at(
        a,
        26,
    ) == digit_at(b, 26) && digit_at(a, 27) == digit_at(b, 27));
    assert(digit_at(a, 28) == digit_at(b, 28) && digit_at(a, 29) == digit_at(b, 29) && digit_at(
        a,
        30,
    ) == digit_at(b, 30) && digit_at(a, 31) == digit_at(b, 31));
    assert(a == b) by (bit_vector)
        requires
            (a >> 124u128) & 0xf == (b >> 124u128) & 0xf,
            (a >> 120u128) & 0xf == (b >> 120u128) & 0xf,
            (a >> 116u128) & 0xf == (b >> 116u128) & 0xf,
            (a >> 112u128) & 0xf == (b >> 112u128) & 0xf,
            (a >> 108u128) & 0xf == (b >> 108u128) & 0xf,
            (a >> 104u128) & 0xf == (b >> 104u128) & 0xf,
            (a >> 100u128) & 0xf == (b >> 100u128) & 0xf,
            (a >> 96u128) & 0xf == (b >> 96u128) & 0xf,
            (a >> 92u128) & 0xf == (b >> 92u128) & 0xf,
            (a >> 88u128) & 0xf == (b >> 88u128) & 0xf,
            (a >> 84u128) & 0xf == (b >> 84u128) & 0xf,
            (a >> 80u128) & 0xf == (b >> 80u128) & 0xf,
            (a >> 76u128) & 0xf == (b >> 76u128) & 0xf,
            (a >> 72u128) & 0xf == (b >> 72u128) & 0xf,
            (a >> 68u128) & 0xf == (b >> 68u128) & 0xf,
            (a >> 64u128) & 0xf == (b >> 64u128) & 0xf,
            (a >> 60u128) & 0xf == (b >> 60u128) & 0xf,
            (a >> 56u128) & 0xf == (b >> 56u128) & 0xf,
            (a >> 52u128) & 0xf == (b >> 52u128) & 0xf,
            (a >> 48u128) & 0xf == (b >> 48u128) & 0xf,
            (a >> 44u128) & 0xf == (b >> 44u128) & 0xf,
            (a >> 40u128) & 0xf == (b >> 40u128) & 0xf,
            (a >> 36u128) & 0xf == (b >> 36u128) & 0xf,
            (a >> 32u128) & 0xf == (b >> 32u128) & 0xf,
            (a >> 28u128) & 0xf == (b >> 28u128) & 0xf,
            (a >> 24u128) & 0xf == (b >> 24u128) & 0xf,
            (a >> 20u128) & 0xf == (b >> 20u128) & 0xf,
            (a >> 16u128) & 0xf == (b >> 16u128) & 0xf,
            (a >> 12u128) & 0xf == (b >> 12u128) & 0xf,
            (a >> 8u128) & 0xf == (b >> 8u128) & 0xf,
            (a >> 4u128) & 0xf == (b >> 4u128) & 0xf,
            (a >> 0u128) & 0xf == (b >> 0u128) & 0xf,
    ;
}

/// Each timeline has a lock of its own: two that are locked under the same name are the same.
pub proof fn law_each_timeline_has_its_own_lock(a: Scope, b: Scope)
    requires
        lock_text(a) == lock_text(b),
    ensures
        a == b,
{
    reveal_strlit("timeline:");
    reveal_strlit(":");
    reveal_strlit("SubjectSide");
    reveal_strlit("ObjectSide");
    let x = lock_text(a);
    let y = lock_text(b);
    assert(x.subrange(9, 45) =~= hyphenated(a.kb_id));
    assert(y.subrange(9, 45) =~= hyphenated(b.kb_id));
    assert(x.subrange(46, 82) =~= hyphenated(a.holder));
    assert(y.subrange(46, 82) =~= hyphenated(b.holder));
    assert(x.subrange(83, 119) =~= hyphenated(a.predicate_id));
    assert(y.subrange(83, 119) =~= hyphenated(b.predicate_id));
    lemma_hyphenated(a.kb_id, b.kb_id);
    lemma_hyphenated(a.holder, b.holder);
    lemma_hyphenated(a.predicate_id, b.predicate_id);
    assert(x.len() == 120 + side_text(a.side).len());
    assert(y.len() == 120 + side_text(b.side).len());
}

} // verus!
