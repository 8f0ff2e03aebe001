//! What a person is shown and what a decision does, said of the tables themselves.

use crate::identity::lemma_filter_contains;
use crate::ledger::{ConflictModel, LedgerModel};
use crate::order::{arrange, first, lemma_arrange, lemma_first, lemma_first_is};
use crate::review::{entity_with_id, listed, newest_first, page, to_show, ConflictViewModel};
use crate::rewrite::{alive_with_id, relation_with_id, with_id};
use vstd::prelude::*;

verus! {

/// `name` is the canonical name of the entity `id`: that of the first one with this identifier, and
/// none where there is no such entity.
pub open spec fn is_named(l: LedgerModel, id: u128, name: Option<Seq<char>>) -> bool {
    match name {
        Some(text) => exists|k: int|
            0 <= k < l.entities.len() && (#[trigger] l.entities[k]).id == id
                && l.entities[k].canonical_name@ == text && forall|j: int|
                0 <= j < k ==> (#[trigger] l.entities[j]).id != id,
        None => forall|k: int| 0 <= k < l.entities.len() ==> (#[trigger] l.entities[k]).id != id,
    }
}

/// `name` is the name of an object: that of the entity, and none where it is no entity.
pub open spec fn is_named_object(
    l: LedgerModel,
    object_id: Option<u128>,
    name: Option<Seq<char>>,
) -> bool {
    match object_id {
        Some(id) => is_named(l, id, name),
        None => name is None,
    }
}

/// `label` is the label of the relation `id`.
pub open spec fn is_labelled(l: LedgerModel, id: u128, label: Seq<char>) -> bool {
    exists|k: int|
        0 <= k < l.relations.len() && (#[trigger] l.relations[k]).id == id
            && l.relations[k].label@ == label && forall|j: int|
            0 <= j < k ==> (#[trigger] l.relations[j]).id != id
}

/// The fact at a position is the first with its identifier.
pub open spec fn is_first(l: LedgerModel, i: int) -> bool {
    0 <= i < l.facts.len() && forall|j: int|
        0 <= j < i ==> (#[trigger] l.facts[j]).id != l.facts[i].id
}

/// A present fact has that identifier.
pub open spec fn is_present(l: LedgerModel, id: u128) -> bool {
    exists|i: int|
        0 <= i < l.facts.len() && (#[trigger] l.facts[i]).id == id && l.facts[i].invalidated_at
            is None
}

/// What a person is shown of the conflict `c` between the facts `o` and `n`: of each fact its own
/// names and its own start.
pub open spec fn is_shown_as(
    l: LedgerModel,
    c: int,
    o: int,
    n: int,
    v: ConflictViewModel,
) -> bool {
    &&& 0 <= c < l.conflicts.len()
    &&& v.id == l.conflicts[c].id
    &&& v.reason == l.conflicts[c].reason
    &&& v.created_at == l.conflicts[c].created_at
    &&& v.old_fact_id == l.conflicts[c].old_fact_id
    &&& v.new_fact_id == l.conflicts[c].new_fact_id
    &&& is_first(l, o)
    &&& l.facts[o].id == v.old_fact_id
    &&& is_named(l, l.facts[o].subject_id, Some(v.old_subject))
    &&& is_named_object(l, l.facts[o].object_id, v.old_object)
    &&& v.old_valid_from == l.facts[o].valid_from
    &&& l.facts[o].predicate_id is Some
    &&& is_labelled(l, l.facts[o].predicate_id->0, v.predicate_label)
    &&& is_first(l, n)
    &&& l.facts[n].id == v.new_fact_id
    &&& is_named(l, l.facts[n].subject_id, Some(v.new_subject))
    &&& is_named_object(l, l.facts[n].object_id, v.new_object)
    &&& v.new_valid_from == l.facts[n].valid_from
    &&& v.new_confidence == l.facts[n].confidence
}

/// The name that is found is the name.
pub proof fn lemma_named(l: LedgerModel, id: u128)
    ensures
        is_named(l, id, l.name_of(id)),
{
    let p = entity_with_id(id);
    lemma_first(l.entities, p);
    if first(l.entities, p) is Some {
        let k = choose|k: int|
            0 <= k < l.entities.len() && #[trigger] l.entities[k] == first(l.entities, p)->0
                && forall|j: int| 0 <= j < k ==> !p(#[trigger] l.entities[j]);
        assert forall|j: int| 0 <= j < k implies (#[trigger] l.entities[j]).id != id by {
            assert(!p(l.entities[j]));
        }
        assert(l.entities[k].canonical_name@ == l.name_of(id)->0);
    } else {
        assert forall|k: int| 0 <= k < l.entities.len() implies (#[trigger] l.entities[k]).id
            != id by {
            assert(!p(l.entities[k]));
        }
    }
}

/// The label that is found is the label.
proof fn lemma_labelled(l: LedgerModel, id: u128)
    requires
        l.relation(id) is Some,
    ensures
        is_labelled(l, id, l.relation(id)->0.label@),
{
    let p = relation_with_id(id);
    lemma_first(l.relations, p);
    let k = choose|k: int|
        0 <= k < l.relations.len() && #[trigger] l.relations[k] == first(l.relations, p)->0
            && forall|j: int| 0 <= j < k ==> !p(#[trigger] l.relations[j]);
    assert forall|j: int| 0 <= j < k implies (#[trigger] l.relations[j]).id != id by {
        assert(!p(l.relations[j]));
    }
}

/// The fact that is found is the first.
pub proof fn lemma_first_fact(l: LedgerModel, id: u128) -> (i: int)
    requires
        l.fact(id) is Some,
    ensures
        is_first(l, i),
        l.facts[i] == l.fact(id)->0,
        l.facts[i].id == id,
{
    let p = with_id(id);
    lemma_first(l.facts, p);
    let i = choose|i: int|
        0 <= i < l.facts.len() && #[trigger] l.facts[i] == first(l.facts, p)->0 && forall|j: int|
            0 <= j < i ==> !p(#[trigger] l.facts[j]);
    assert forall|j: int| 0 <= j < i implies (#[trigger] l.facts[j]).id != l.facts[i].id by {
        assert(!p(l.facts[j]));
    }
    i
}

/// A present fact is found, and only a present one.
pub proof fn lemma_present(l: LedgerModel, id: u128)
    ensures
        l.alive(id) is Some <==> is_present(l, id),
{
    let p = alive_with_id(id);
    lemma_first(l.facts, p);
    if l.alive(id) is Some {
        let i = choose|i: int| 0 <= i < l.facts.len() && l.facts[i] == l.alive(id)->0;
        assert(p(l.facts[i]));
    }
    if is_present(l, id) {
        let i = choose|i: int|
            0 <= i < l.facts.len() && (#[trigger] l.facts[i]).id == id
                && l.facts[i].invalidated_at is None;
        assert(p(l.facts[i]));
    }
}

/// The conflict behind a listed view.
proof fn lemma_listed(l: LedgerModel, kb_id: u128, limit: int, offset: int, k: int) -> (c: int)
    requires
        limit >= 0,
        offset >= 0,
        0 <= k < listed(l, kb_id, limit, offset).len(),
    ensures
        0 <= c < l.conflicts.len(),
        to_show(l, kb_id)(l.conflicts[c]),
        listed(l, kb_id, limit, offset)[k] == l.view_of(l.conflicts[c])->0,
        l.conflicts[c] == arrange(
            l.conflicts.filter(to_show(l, kb_id)),
            newest_first(),
        )[offset + k],
        offset + k < l.conflicts.filter(to_show(l, kb_id)).len(),
{
    let p = to_show(l, kb_id);
    let kept = l.conflicts.filter(p);
    let sorted = arrange(kept, newest_first());
    let wanted = page(sorted, limit, offset);
    lemma_arrange(kept, newest_first());
    let x = wanted[k];
    assert(x == sorted[offset + k]);
    assert(sorted.contains(x));
    assert(kept.contains(x));
    lemma_filter_contains(l.conflicts, p, x);
    choose|c: int| 0 <= c < l.conflicts.len() && l.conflicts[c] == x
}

/// A person is shown the two facts of an open conflict of the knowledge base, both present, and
/// each under its own name: what stands beside the identifier of a fact is that of this fact.
pub proof fn law_a_question_shows_its_own_facts(
    l: LedgerModel,
    kb_id: u128,
    limit: int,
    offset: int,
    k: int,
)
    requires
        limit >= 0,
        offset >= 0,
        0 <= k < listed(l, kb_id, limit, offset).len(),
    ensures
        ({
            let v = listed(l, kb_id, limit, offset)[k];
            &&& is_present(l, v.old_fact_id)
            &&& is_present(l, v.new_fact_id)
            &&& exists|c: int, o: int, n: int|
                #![trigger is_shown_as(l, c, o, n, v)]
                {
                    &&& is_shown_as(l, c, o, n, v)
                    &&& l.conflicts[c].kb_id == kb_id
                    &&& l.conflicts[c].status == "open"@
                }
        }),
{
    let v = listed(l, kb_id, limit, offset)[k];
    let c = lemma_listed(l, kb_id, limit, offset, k);
    lemma_present(l, v.old_fact_id);
    lemma_present(l, v.new_fact_id);
    lemma_shown(l, c);
    let o = lemma_first_fact(l, v.old_fact_id);
    let n = lemma_first_fact(l, v.new_fact_id);
    assert(is_shown_as(l, c, o, n, v));
}

/// What can be shown is shown as it is.
proof fn lemma_shown(l: LedgerModel, c: int)
    requires
        0 <= c < l.conflicts.len(),
        l.view_of(l.conflicts[c]) is Some,
    ensures
        ({
            let v = l.view_of(l.conflicts[c])->0;
            &&& l.fact(v.old_fact_id) is Some
            &&& l.fact(v.new_fact_id) is Some
            &&& forall|o: int, n: int|
                is_first(l, o) && is_first(l, n) && l.facts[o].id == v.old_fact_id && l.facts[n].id
                    == v.new_fact_id ==> #[trigger] is_shown_as(l, c, o, n, v)
        }),
{
    let v = l.view_of(l.conflicts[c])->0;
    let old = l.fact(v.old_fact_id)->0;
    let new = l.fact(v.new_fact_id)->0;
    lemma_named(l, old.subject_id);
    lemma_named(l, new.subject_id);
    if old.object_id is Some {
        lemma_named(l, old.object_id->0);
    }
    if new.object_id is Some {
        lemma_named(l, new.object_id->0);
    }
    lemma_labelled(l, old.predicate_id->0);
    assert forall|o: int, n: int|
        is_first(l, o) && is_first(l, n) && l.facts[o].id == v.old_fact_id && l.facts[n].id
            == v.new_fact_id implies #[trigger] is_shown_as(l, c, o, n, v) by {
        lemma_first_is(l.facts, with_id(v.old_fact_id), o);
        lemma_first_is(l.facts, with_id(v.new_fact_id), n);
    }
}

/// No open question is kept from a person: a conflict of the knowledge base that is open, of which
/// both facts are present, both subjects have names and the old fact is of a relation that is
/// there, is on a list that is long enough.
pub proof fn law_every_open_question_is_listed(l: LedgerModel, kb_id: u128, c: int, limit: int)
    requires
        0 <= c < l.conflicts.len(),
        l.conflicts[c].kb_id == kb_id,
        l.conflicts[c].status == "open"@,
        is_present(l, l.conflicts[c].old_fact_id),
        is_present(l, l.conflicts[c].new_fact_id),
        forall|i: int| #[trigger]
            is_first(l, i) && (l.facts[i].id == l.conflicts[c].old_fact_id || l.facts[i].id
                == l.conflicts[c].new_fact_id) ==> !is_named(l, l.facts[i].subject_id, None),
        forall|i: int| #[trigger]
            is_first(l, i) && l.facts[i].id == l.conflicts[c].old_fact_id
                ==> l.facts[i].predicate_id is Some && exists|k: int|
                0 <= k < l.relations.len() && Some((#[trigger] l.relations[k]).id)
                    == l.facts[i].predicate_id,
        limit >= l.conflicts.len(),
    ensures
        exists|k: int|
            0 <= k < listed(l, kb_id, limit, 0).len() && (#[trigger] listed(
                l,
                kb_id,
                limit,
                0,
            )[k]).id == l.conflicts[c].id,
{
    let x = l.conflicts[c];
    let p = to_show(l, kb_id);
    lemma_present(l, x.old_fact_id);
    lemma_present(l, x.new_fact_id);
    lemma_found_at_all(l, x.old_fact_id);
    lemma_found_at_all(l, x.new_fact_id);
    let o = lemma_first_fact(l, x.old_fact_id);
    let n = lemma_first_fact(l, x.new_fact_id);
    lemma_named(l, l.facts[o].subject_id);
    lemma_named(l, l.facts[n].subject_id);
    let predicate = l.facts[o].predicate_id->0;
    assert(is_first(l, o));
    let r = choose|r: int|
        0 <= r < l.relations.len() && Some((#[trigger] l.relations[r]).id)
            == l.facts[o].predicate_id;
    lemma_first(l.relations, relation_with_id(predicate));
    assert(relation_with_id(predicate)(l.relations[r]));
    assert(l.view_of(x) is Some);
    let kept = l.conflicts.filter(p);
    let sorted = arrange(kept, newest_first());
    lemma_arrange(kept, newest_first());
    lemma_filter_contains(l.conflicts, p, x);
    assert(l.conflicts.contains(x));
    assert(sorted.contains(x));
    let k = choose|k: int| 0 <= k < sorted.len() && sorted[k] == x;
    lemma_shorter(l.conflicts, p);
    assert(page(sorted, limit, 0) =~= sorted);
    assert(listed(l, kb_id, limit, 0)[k].id == x.id);
}

proof fn lemma_shorter<A>(s: Seq<A>, p: spec_fn(A) -> bool)
    ensures
        s.filter(p).len() <= s.len(),
    decreases s.len(),
{
    reveal(Seq::filter);
    if s.len() > 0 {
        lemma_shorter(s.drop_last(), p);
    }
}

proof fn lemma_found_at_all(l: LedgerModel, id: u128)
    requires
        is_present(l, id),
    ensures
        l.fact(id) is Some,
{
    let i = choose|i: int|
        0 <= i < l.facts.len() && (#[trigger] l.facts[i]).id == id && l.facts[i].invalidated_at
            is None;
    lemma_first(l.facts, with_id(id));
    assert(with_id(id)(l.facts[i]));
}

/// Questions come from the newest to the oldest, and those of one moment by descending identifier.
pub proof fn law_questions_come_from_the_newest(
    l: LedgerModel,
    kb_id: u128,
    limit: int,
    offset: int,
    i: int,
    j: int,
)
    requires
        limit >= 0,
        offset >= 0,
        0 <= i < j < listed(l, kb_id, limit, offset).len(),
    ensures
        ({
            let a = listed(l, kb_id, limit, offset)[i];
            let b = listed(l, kb_id, limit, offset)[j];
            a.created_at > b.created_at || (a.created_at == b.created_at && a.id >= b.id)
        }),
{
    let kept = l.conflicts.filter(to_show(l, kb_id));
    let a = lemma_listed(l, kb_id, limit, offset, i);
    let b = lemma_listed(l, kb_id, limit, offset, j);
    lemma_arrange(kept, newest_first());
    let sorted = arrange(kept, newest_first());
    assert(crate::order::no_later(
        newest_first()(sorted[offset + i]),
        newest_first()(sorted[offset + j]),
    ));
}

/// A page is a part of the whole list: so many from behind the first `offset`, as far as it goes.
pub proof fn law_a_page_is_a_part_of_the_list(
    l: LedgerModel,
    kb_id: u128,
    limit: int,
    offset: int,
)
    requires
        limit >= 0,
        offset >= 0,
    ensures
        ({
            let whole = listed(l, kb_id, l.conflicts.len() as int, 0);
            let part = listed(l, kb_id, limit, offset);
            &&& part.len() == if offset >= whole.len() {
                0
            } else if limit < whole.len() - offset {
                limit
            } else {
                whole.len() - offset
            }
            &&& forall|k: int|
                0 <= k < part.len() ==> #[trigger] part[k] == whole[offset + k]
        }),
{
    let kept = l.conflicts.filter(to_show(l, kb_id));
    let sorted = arrange(kept, newest_first());
    lemma_arrange(kept, newest_first());
    lemma_shorter(l.conflicts, to_show(l, kb_id));
    assert(page(sorted, l.conflicts.len() as int, 0) =~= sorted);
}

/// A question is listed once: where the conflicts differ in their identifiers, so do the listed
/// ones.
pub proof fn law_a_question_is_listed_once(
    l: LedgerModel,
    kb_id: u128,
    limit: int,
    offset: int,
    i: int,
    j: int,
)
    requires
        limit >= 0,
        offset >= 0,
        forall|a: int, b: int|
            0 <= a < b < l.conflicts.len() ==> (#[trigger] l.conflicts[a]).id != (
            #[trigger] l.conflicts[b]).id,
        0 <= i < j < listed(l, kb_id, limit, offset).len(),
    ensures
        listed(l, kb_id, limit, offset)[i].id != listed(l, kb_id, limit, offset)[j].id,
{
    let kept = l.conflicts.filter(to_show(l, kb_id));
    let sorted = arrange(kept, newest_first());
    lemma_kept_apart(l.conflicts, to_show(l, kb_id));
    lemma_sorted_apart(kept);
    let a = lemma_listed(l, kb_id, limit, offset, i);
    let b = lemma_listed(l, kb_id, limit, offset, j);
    lemma_arrange(kept, newest_first());
    assert(sorted[offset + i].id != sorted[offset + j].id);
}

spec fn conflicts_apart(s: Seq<ConflictModel>) -> bool {
    forall|a: int, b: int| 0 <= a < b < s.len() ==> (#[trigger] s[a]).id != (#[trigger] s[b]).id
}

proof fn lemma_kept_apart(s: Seq<ConflictModel>, p: spec_fn(ConflictModel) -> bool)
    requires
        conflicts_apart(s),
    ensures
        conflicts_apart(s.filter(p)),
    decreases s.len(),
{
    reveal(Seq::filter);
    if s.len() > 0 {
        let head = s.drop_last();
        assert forall|a: int, b: int| 0 <= a < b < head.len() implies (#[trigger] head[a]).id != (
        #[trigger] head[b]).id by {
            assert(head[a] == s[a] && head[b] == s[b]);
        }
        lemma_kept_apart(head, p);
        let kept = head.filter(p);
        if p(s.last()) {
            let all = s.filter(p);
            assert forall|a: int, b: int| 0 <= a < b < all.len() implies (#[trigger] all[a]).id != (
            #[trigger] all[b]).id by {
                if b == kept.len() {
                    assert(kept.contains(kept[a]));
                    lemma_filter_contains(head, p, kept[a]);
                    let k = choose|k: int| 0 <= k < head.len() && head[k] == kept[a];
                    assert(s[k].id != s[s.len() - 1].id);
                } else {
                    assert(kept[a].id != kept[b].id);
                }
            }
        }
    }
}

proof fn lemma_sorted_apart(s: Seq<ConflictModel>)
    requires
        conflicts_apart(s),
    ensures
        conflicts_apart(arrange(s, newest_first())),
    decreases s.len(),
{
    let key = newest_first();
    if s.len() > 0 {
        let head = s.drop_last();
        let x = s.last();
        assert forall|a: int, b: int| 0 <= a < b < head.len() implies (#[trigger] head[a]).id != (
        #[trigger] head[b]).id by {
            assert(head[a] == s[a] && head[b] == s[b]);
        }
        lemma_sorted_apart(head);
        lemma_arrange(head, key);
        let rest = arrange(head, key);
        let p = crate::order::slot(rest, key, key(x));
        crate::order::lemma_slot(rest, key, key(x));
        let all = rest.insert(p, x);
        assert forall|a: int| 0 <= a < rest.len() implies (#[trigger] rest[a]).id != x.id by {
            assert(rest.contains(rest[a]));
            assert(head.contains(rest[a]));
            let k = choose|k: int| 0 <= k < head.len() && head[k] == rest[a];
            assert(s[k].id != s[s.len() - 1].id);
        }
        assert forall|a: int, b: int| 0 <= a < b < all.len() implies (#[trigger] all[a]).id != (
        #[trigger] all[b]).id by {
            let i = if a < p {
                a
            } else {
                a - 1
            };
            let j = if b < p {
                b
            } else {
                b - 1
            };
            if a != p && b != p {
                assert(all[a] == rest[i] && all[b] == rest[j]);
                assert(rest[i].id != rest[j].id);
            }
        }
    }
}

/// The temporal kind of a fact is that of its relation: of the first relation with the identifier
/// that the first fact with that identifier names.
pub proof fn law_a_fact_is_of_the_kind_of_its_relation(l: LedgerModel, i: int, k: int)
    requires
        is_first(l, i),
        0 <= k < l.relations.len(),
        forall|j: int| 0 <= j < k ==> (#[trigger] l.relations[j]).id != l.relations[k].id,
        l.facts[i].predicate_id == Some(l.relations[k].id),
    ensures
        l.temporal_of(l.facts[i].id) == Some(l.relations[k].temporal@),
{
    lemma_first_is(l.facts, with_id(l.facts[i].id), i);
    lemma_first_is(l.relations, relation_with_id(l.relations[k].id), k);
}

/// A fact that is not there, that names no relation, or that names one that is not there, is of no
/// kind.
pub proof fn law_a_fact_without_a_relation_is_of_no_kind(l: LedgerModel, id: u128)
    requires
        forall|i: int| #[trigger]
            is_first(l, i) && l.facts[i].id == id && l.facts[i].predicate_id is Some ==> forall|
                k: int,
            |
                0 <= k < l.relations.len() ==> (#[trigger] l.relations[k]).id
                    != l.facts[i].predicate_id->0,
    ensures
        l.temporal_of(id) is None,
{
    if l.fact(id) is Some {
        let i = lemma_first_fact(l, id);
        if let Some(p) = l.facts[i].predicate_id {
            lemma_first(l.relations, relation_with_id(p));
            assert forall|k: int| 0 <= k < l.relations.len() implies !relation_with_id(p)(
                #[trigger] l.relations[k],
            ) by {}
        }
    }
}

} // verus!
