//! Sorting and searching sequences.

use vstd::prelude::*;

verus! {

/// `a` sorts no later than `b`: by the first number, then by the second.
pub open spec fn no_later(a: (int, int), b: (int, int)) -> bool {
    a.0 < b.0 || (a.0 == b.0 && a.1 <= b.1)
}

/// Where an element with key `k` goes in: behind the last element that sorts no later.
pub open spec fn slot<A>(s: Seq<A>, key: spec_fn(A) -> (int, int), k: (int, int)) -> int
    decreases s.len(),
{
    if s.len() == 0 {
        0
    } else if no_later(key(s.last()), k) {
        s.len() as int
    } else {
        slot(s.drop_last(), key, k)
    }
}

/// The elements of `s` by ascending key; elements with equal keys stay in their order.
pub open spec fn arrange<A>(s: Seq<A>, key: spec_fn(A) -> (int, int)) -> Seq<A>
    decreases s.len(),
{
    if s.len() == 0 {
        s
    } else {
        let rest = arrange(s.drop_last(), key);
        rest.insert(slot(rest, key, key(s.last())), s.last())
    }
}

/// The first element of `s` that meets `p`.
pub open spec fn first<A>(s: Seq<A>, p: spec_fn(A) -> bool) -> Option<A>
    decreases s.len(),
{
    if s.len() == 0 {
        None
    } else if first(s.drop_last(), p) is Some {
        first(s.drop_last(), p)
    } else if p(s.last()) {
        Some(s.last())
    } else {
        None
    }
}

/// The numbers below `n`, ascending.
pub open spec fn positions(n: nat) -> Seq<int> {
    Seq::new(n, |i: int| i)
}

/// The sort key at a position of a list of keys.
pub open spec fn key_at(keys: Seq<(i128, u128)>) -> spec_fn(int) -> (int, int) {
    |i: int| (keys[i].0 as int, keys[i].1 as int)
}

/// Positions as mathematical integers.
pub open spec fn as_ints(v: Seq<usize>) -> Seq<int> {
    v.map_values(|i: usize| i as int)
}

/// The element at a position.
pub open spec fn at<A>(s: Seq<A>) -> spec_fn(int) -> A {
    |i: int| s[i]
}

/// The sort key of the element at a position.
pub open spec fn key_of_at<A>(s: Seq<A>, key: spec_fn(A) -> (int, int)) -> spec_fn(int) -> (int, int) {
    |i: int| key(s[i])
}

/// What stands before the slot sorts no later, and what stands behind it later.
pub proof fn lemma_slot<A>(s: Seq<A>, key: spec_fn(A) -> (int, int), k: (int, int))
    ensures
        0 <= slot(s, key, k) <= s.len(),
        slot(s, key, k) > 0 ==> no_later(key(s[slot(s, key, k) - 1]), k),
        forall|i: int| slot(s, key, k) <= i < s.len() ==> !no_later(key(#[trigger] s[i]), k),
    decreases s.len(),
{
    if s.len() > 0 && !no_later(key(s.last()), k) {
        let head = s.drop_last();
        lemma_slot(head, key, k);
        assert forall|i: int| slot(s, key, k) <= i < s.len() implies !no_later(
            key(#[trigger] s[i]),
            k,
        ) by {
            if i < head.len() {
                assert(head[i] == s[i]);
            }
        }
    }
}

/// Sorting keeps the elements, and sorts them.
pub proof fn lemma_arrange<A>(s: Seq<A>, key: spec_fn(A) -> (int, int))
    ensures
        arrange(s, key).len() == s.len(),
        arrange(s, key).to_multiset() == s.to_multiset(),
        forall|x: A| #[trigger] arrange(s, key).contains(x) <==> s.contains(x),
        forall|i: int, j: int|
            0 <= i <= j < s.len() ==> no_later(
                key(#[trigger] arrange(s, key)[i]),
                key(#[trigger] arrange(s, key)[j]),
            ),
    decreases s.len(),
{
    broadcast use vstd::seq_lib::group_to_multiset_ensures;

    if s.len() > 0 {
        let rest = arrange(s.drop_last(), key);
        let k = key(s.last());
        let p = slot(rest, key, k);
        lemma_arrange(s.drop_last(), key);
        lemma_slot(rest, key, k);
        let sorted = arrange(s, key);
        assert(s =~= s.drop_last().push(s.last()));
        assert(sorted.to_multiset() =~= s.to_multiset());
        assert forall|x: A| #[trigger] sorted.contains(x) <==> s.contains(x) by {
            assert(sorted.to_multiset().count(x) == s.to_multiset().count(x));
        }
        assert forall|i: int, j: int| 0 <= i <= j < s.len() implies no_later(
            key(#[trigger] sorted[i]),
            key(#[trigger] sorted[j]),
        ) by {
            if i < p && p <= j {
                assert(no_later(key(rest[i]), key(rest[p - 1])));
            }
            if p <= i && i < j {
                let a = if i == p { k } else { key(rest[i - 1]) };
                assert(!no_later(key(rest[j - 1]), k));
            }
        }
    }
}

/// Sorting positions by the keys of what stands there sorts what stands there.
pub proof fn lemma_arrange_positions<A>(s: Seq<A>, key: spec_fn(A) -> (int, int), idx: Seq<int>)
    ensures
        arrange(idx, key_of_at(s, key)).map_values(at(s)) == arrange(idx.map_values(at(s)), key),
    decreases idx.len(),
{
    let by_position = key_of_at(s, key);
    let found = idx.map_values(at(s));
    if idx.len() > 0 {
        lemma_arrange_positions(s, key, idx.drop_last());
        assert(found.drop_last() =~= idx.drop_last().map_values(at(s)));
        let rest = arrange(idx.drop_last(), by_position);
        let k = by_position(idx.last());
        lemma_slot_positions(s, key, rest, k);
        lemma_slot(rest, by_position, k);
        assert(arrange(idx, by_position).map_values(at(s)) =~= arrange(found, key));
    } else {
        assert(found =~= Seq::<A>::empty());
        assert(arrange(idx, by_position).map_values(at(s)) =~= arrange(found, key));
    }
}

proof fn lemma_slot_positions<A>(
    s: Seq<A>,
    key: spec_fn(A) -> (int, int),
    idx: Seq<int>,
    k: (int, int),
)
    ensures
        slot(idx, key_of_at(s, key), k) == slot(idx.map_values(at(s)), key, k),
    decreases idx.len(),
{
    if idx.len() > 0 {
        lemma_slot_positions(s, key, idx.drop_last(), k);
        assert(idx.map_values(at(s)).drop_last() =~= idx.drop_last().map_values(at(s)));
    }
}

/// Sorting depends on the keys of the elements alone.
pub proof fn lemma_arrange_same_keys<A>(
    s: Seq<A>,
    key: spec_fn(A) -> (int, int),
    other: spec_fn(A) -> (int, int),
)
    requires
        forall|i: int| 0 <= i < s.len() ==> key(#[trigger] s[i]) == other(s[i]),
    ensures
        arrange(s, key) == arrange(s, other),
    decreases s.len(),
{
    if s.len() > 0 {
        let head = s.drop_last();
        assert forall|i: int| 0 <= i < head.len() implies key(#[trigger] head[i]) == other(
            head[i],
        ) by {
            assert(head[i] == s[i]);
        }
        lemma_arrange_same_keys(head, key, other);
        let rest = arrange(head, key);
        lemma_arrange(head, key);
        assert forall|i: int| 0 <= i < rest.len() implies key(#[trigger] rest[i]) == other(
            rest[i],
        ) by {
            assert(rest.contains(rest[i]));
            assert(head.contains(rest[i]));
        }
        assert(s[s.len() - 1] == s.last());
        lemma_slot_same_keys(rest, key, other, key(s.last()));
    }
}

proof fn lemma_slot_same_keys<A>(
    s: Seq<A>,
    key: spec_fn(A) -> (int, int),
    other: spec_fn(A) -> (int, int),
    k: (int, int),
)
    requires
        forall|i: int| 0 <= i < s.len() ==> key(#[trigger] s[i]) == other(s[i]),
    ensures
        slot(s, key, k) == slot(s, other, k),
    decreases s.len(),
{
    if s.len() > 0 {
        assert(s[s.len() - 1] == s.last());
        let head = s.drop_last();
        assert forall|i: int| 0 <= i < head.len() implies key(#[trigger] head[i]) == other(
            head[i],
        ) by {
            assert(head[i] == s[i]);
        }
        lemma_slot_same_keys(head, key, other, k);
    }
}

/// What [`first`] finds: an element that meets the predicate, with none before it that does.
pub proof fn lemma_first<A>(s: Seq<A>, p: spec_fn(A) -> bool)
    ensures
        first(s, p) is None <==> (forall|i: int| 0 <= i < s.len() ==> !p(#[trigger] s[i])),
        first(s, p) is Some ==> p(first(s, p)->0) && s.contains(first(s, p)->0) && exists|i: int|
            0 <= i < s.len() && #[trigger] s[i] == first(s, p)->0 && forall|j: int|
                0 <= j < i ==> !p(#[trigger] s[j]),
    decreases s.len(),
{
    if s.len() > 0 {
        let head = s.drop_last();
        lemma_first(head, p);
        assert(s[s.len() - 1] == s.last());
        if first(head, p) is Some {
            let i = choose|i: int|
                0 <= i < head.len() && #[trigger] head[i] == first(head, p)->0 && forall|j: int|
                    0 <= j < i ==> !p(#[trigger] head[j]);
            assert(s[i] == first(s, p)->0);
            assert forall|j: int| 0 <= j < i implies !p(#[trigger] s[j]) by {
                assert(head[j] == s[j]);
            }
        } else {
            assert forall|j: int| 0 <= j < s.len() - 1 implies !p(#[trigger] s[j]) by {
                assert(head[j] == s[j]);
            }
            if p(s.last()) {
                assert(s[s.len() - 1] == first(s, p)->0);
            }
        }
    }
}

/// An element that meets the predicate, with none before it that does, is what [`first`] finds.
pub proof fn lemma_first_is<A>(s: Seq<A>, p: spec_fn(A) -> bool, i: int)
    requires
        0 <= i < s.len(),
        p(s[i]),
        forall|j: int| 0 <= j < i ==> !p(#[trigger] s[j]),
    ensures
        first(s, p) == Some(s[i]),
    decreases s.len(),
{
    let head = s.drop_last();
    if i == s.len() - 1 {
        lemma_first(head, p);
        assert forall|j: int| 0 <= j < head.len() implies !p(#[trigger] head[j]) by {
            assert(head[j] == s[j]);
        }
    } else {
        assert forall|j: int| 0 <= j < i implies !p(#[trigger] head[j]) by {
            assert(head[j] == s[j]);
        }
        lemma_first_is(head, p, i);
    }
}

/// Whether two keys are in order.
fn key_no_later(a: (i128, u128), b: (i128, u128)) -> (r: bool)
    ensures
        r == no_later((a.0 as int, a.1 as int), (b.0 as int, b.1 as int)),
{
    a.0 < b.0 || (a.0 == b.0 && a.1 <= b.1)
}

/// The positions of a list of keys, sorted by the keys there.
pub fn sorted_positions(keys: &Vec<(i128, u128)>) -> (r: Vec<usize>)
    ensures
        as_ints(r@) == arrange(positions(keys@.len()), key_at(keys@)),
        forall|i: int| 0 <= i < r@.len() ==> (#[trigger] r@[i]) < keys@.len(),
        r@.len() == keys@.len(),
{
    let mut order: Vec<usize> = Vec::new();
    let mut i: usize = 0;
    assert(as_ints(order@) =~= arrange(positions(0), key_at(keys@)));
    while i < keys.len()
        invariant
            i <= keys@.len(),
            order@.len() == i,
            forall|j: int| 0 <= j < order@.len() ==> (#[trigger] order@[j]) < i,
            as_ints(order@) == arrange(positions(i as nat), key_at(keys@)),
        decreases keys@.len() - i,
    {
        let ghost key = key_at(keys@);
        let ghost k = key(i as int);
        let mut p: usize = order.len();
        assert(as_ints(order@).take(p as int) =~= as_ints(order@));
        while p > 0 && !key_no_later(keys[order[p - 1]], keys[i])
            invariant
                p <= order@.len(),
                i < keys@.len(),
                order@.len() == i,
                key == key_at(keys@),
                k == key(i as int),
                forall|j: int| 0 <= j < order@.len() ==> (#[trigger] order@[j]) < i,
                slot(as_ints(order@), key, k) == slot(as_ints(order@).take(p as int), key, k),
            decreases p,
        {
            let ghost shorter = as_ints(order@).take(p as int);
            assert(shorter.drop_last() =~= as_ints(order@).take(p - 1));
            assert(shorter.last() == order@[p - 1] as int);
            p = p - 1;
        }
        proof {
            let shorter = as_ints(order@).take(p as int);
            if p > 0 {
                assert(shorter.last() == order@[p - 1] as int);
            }
            assert(positions((i + 1) as nat).drop_last() =~= positions(i as nat));
        }
        let ghost before = order@;
        order.insert(p, i);
        assert(as_ints(order@) =~= as_ints(before).insert(p as int, i as int));
        i = i + 1;
    }
    order
}

/// What stands at the positions of `order`.
pub open spec fn selected<A>(s: Seq<A>, order: Seq<usize>) -> Seq<A> {
    Seq::new(order.len(), |j: int| s[order[j] as int])
}

/// What stands at sorted positions is sorted.
pub proof fn lemma_sorted<A>(
    s: Seq<A>,
    key: spec_fn(A) -> (int, int),
    keys: Seq<(i128, u128)>,
    order: Seq<usize>,
)
    requires
        keys.len() == s.len(),
        forall|i: int|
            0 <= i < s.len() ==> key(#[trigger] s[i]) == (keys[i].0 as int, keys[i].1 as int),
        as_ints(order) == arrange(positions(keys.len()), key_at(keys)),
    ensures
        selected(s, order) == arrange(s, key),
{
    let all = positions(s.len());
    assert forall|i: int| 0 <= i < all.len() implies key_at(keys)(#[trigger] all[i]) == key_of_at(
        s,
        key,
    )(all[i]) by {
        assert(all[i] == i);
        assert(key(s[i]) == (keys[i].0 as int, keys[i].1 as int));
    }
    lemma_arrange_same_keys(all, key_at(keys), key_of_at(s, key));
    lemma_arrange_positions(s, key, all);
    assert(all.map_values(at(s)) =~= s);
    assert(selected(s, order) =~= as_ints(order).map_values(at(s)));
}

} // verus!
