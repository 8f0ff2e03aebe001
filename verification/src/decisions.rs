//! What a decision of a person does to the tables, row by row.

use crate::errors::ErrorModel;
use crate::ledger::{ChangeModel, ConflictModel, FactModel, LedgerModel};
use crate::order::{first, lemma_first};
use crate::questions::{is_present, lemma_present};
use crate::review::{
    closing_point, decided_close, decided_keep, decided_reject, undecidable, undecided,
};
use crate::rewrite::{alive_with_id, ended_at, with_id};
use crate::rewriting::{is_closed_on, law_closing_keeps_what_is_said};
use crate::tables::{
    is_settled_as, law_invalidating_strikes_one_fact, law_rewriting_copies_what_belongs_to_a_fact,
    law_settling_answers_one_question, law_settling_siblings_answers_what_is_open, only_invalidated,
    same_facts, same_lists,
};
use vstd::prelude::*;

verus! {

/// One conflict of the knowledge base was answered, and no other was touched.
pub open spec fn answered_one(
    l: LedgerModel,
    after: LedgerModel,
    kb_id: u128,
    conflict_id: u128,
    resolution: Seq<char>,
    now: i64,
) -> bool {
    &&& after.conflicts.len() == l.conflicts.len()
    &&& forall|i: int|
        0 <= i < l.conflicts.len() ==> if l.conflicts[i].id == conflict_id && l.conflicts[i].kb_id
            == kb_id {
            is_settled_as(l.conflicts[i], #[trigger] after.conflicts[i], resolution, now)
        } else {
            after.conflicts[i] == l.conflicts[i]
        }
}

/// To keep both facts answers one question: every other conflict stays as it was, and no fact is
/// changed.
pub proof fn law_keeping_answers_one_question(
    l: LedgerModel,
    kb_id: u128,
    c: ConflictModel,
    now: i64,
)
    ensures
        ({
            let after = decided_keep(l, kb_id, c, now);
            &&& answered_one(l, after, kb_id, c.id, "kept_both"@, now)
            &&& same_facts(l, after)
            &&& same_lists(l, after)
            &&& after.changes.len() == l.changes.len() + 1
        }),
{
    law_settling_answers_one_question(l, kb_id, c.id, "kept_both"@, now);
}

/// To close the old fact answers one question: every other conflict stays as it was. Where the old
/// fact is present it is struck out, and a row is written in its place that says the same and ends
/// on the given day; all other facts stay. Where it is not, no fact is changed.
pub proof fn law_closing_answers_one_question(
    l: LedgerModel,
    kb_id: u128,
    c: ConflictModel,
    at: i64,
    precision: Seq<char>,
    id: u128,
    now: i64,
)
    ensures
        ({
            let after = decided_close(l, kb_id, c, at, precision, id, now);
            let n = l.facts.len() as int;
            &&& answered_one(l, after, kb_id, c.id, "closed"@, now)
            &&& same_lists(l, after)
            &&& !is_present(l, c.old_fact_id) ==> same_facts(l, after)
            &&& is_present(l, c.old_fact_id) ==> {
                &&& only_invalidated(l, after, c.old_fact_id, now)
                &&& after.facts.len() == n + 1
                &&& after.facts[n].id == id
                &&& exists|i: int|
                    0 <= i < n && (#[trigger] l.facts[i]).id == c.old_fact_id
                        && l.facts[i].invalidated_at is None && is_closed_on(
                        l.facts[i],
                        after.facts[n],
                        at,
                        precision,
                        now,
                    )
            }
        }),
{
    let after = decided_close(l, kb_id, c, at, precision, id, now);
    lemma_present(l, c.old_fact_id);
    match l.alive(c.old_fact_id) {
        None => {
            law_settling_answers_one_question(l, kb_id, c.id, "closed"@, now);
        },
        Some(f) => {
            let g = ended_at(f, id, at, precision, now);
            let closed = l.commit(
                ChangeModel::Rewrite { replaced: c.old_fact_id, fact: g, at: now },
            );
            law_rewriting_copies_what_belongs_to_a_fact(l, c.old_fact_id, g, now);
            law_settling_answers_one_question(closed, kb_id, c.id, "closed"@, now);
            law_closing_keeps_what_is_said(f, id, at, precision, now);
            lemma_first(l.facts, alive_with_id(c.old_fact_id));
            let i = choose|i: int| 0 <= i < l.facts.len() && l.facts[i] == f;
            assert(is_closed_on(l.facts[i], after.facts[l.facts.len() as int], at, precision, now));
            assert forall|k: int| 0 <= k < l.facts.len() implies #[trigger] after.facts[k]
                == closed.facts[k] by {}
        },
    }
}

/// To reject the new fact strikes it out, and no other fact. Its conflict is answered, and with it
/// all open conflicts of the same new fact; every other conflict stays as it was.
pub proof fn law_rejecting_answers_what_asks_of_the_fact(
    l: LedgerModel,
    kb_id: u128,
    c: ConflictModel,
    now: i64,
)
    ensures
        ({
            let after = decided_reject(l, kb_id, c, now);
            &&& only_invalidated(l, after, c.new_fact_id, now)
            &&& after.facts.len() == l.facts.len()
            &&& after.evidence == l.evidence
            &&& after.qualifiers == l.qualifiers
            &&& same_lists(l, after)
            &&& after.conflicts.len() == l.conflicts.len()
            &&& forall|i: int|
                0 <= i < l.conflicts.len() ==> {
                    let x = l.conflicts[i];
                    let one = x.id == c.id && x.kb_id == kb_id;
                    let sibling = x.new_fact_id == c.new_fact_id && x.status == "open"@ && x.id
                        != c.id;
                    if one || sibling {
                        is_settled_as(x, #[trigger] after.conflicts[i], "rejected_new"@, now)
                    } else {
                        after.conflicts[i] == x
                    }
                }
        }),
{
    let one = l.commit(ChangeModel::Invalidate { fact_id: c.new_fact_id, at: now });
    let two = one.commit(
        ChangeModel::SettleSiblings {
            new_fact_id: c.new_fact_id,
            except: c.id,
            resolution: "rejected_new"@,
            at: now,
        },
    );
    law_invalidating_strikes_one_fact(l, c.new_fact_id, now);
    law_settling_siblings_answers_what_is_open(one, c.new_fact_id, c.id, "rejected_new"@, now);
    law_settling_answers_one_question(two, kb_id, c.id, "rejected_new"@, now);
}

/// A conflict that can be decided: open, of the knowledge base, and its new fact is there.
pub open spec fn can_be_decided(l: LedgerModel, kb_id: u128, conflict_id: u128, i: int) -> bool {
    &&& 0 <= i < l.conflicts.len()
    &&& l.conflicts[i].id == conflict_id
    &&& l.conflicts[i].kb_id == kb_id
    &&& l.conflicts[i].status == "open"@
    &&& exists|k: int|
        0 <= k < l.facts.len() && (#[trigger] l.facts[k]).id == l.conflicts[i].new_fact_id
}

/// What is decided on is the first such conflict.
proof fn lemma_decided_on(l: LedgerModel, kb_id: u128, conflict_id: u128)
    ensures
        first(l.conflicts, undecided(l, kb_id, conflict_id)) is None <==> forall|i: int|
            !(#[trigger] can_be_decided(l, kb_id, conflict_id, i)),
        first(l.conflicts, undecided(l, kb_id, conflict_id)) is Some ==> exists|i: int|
            {
                &&& #[trigger] can_be_decided(l, kb_id, conflict_id, i)
                &&& l.conflicts[i] == first(l.conflicts, undecided(l, kb_id, conflict_id))->0
                &&& forall|j: int| j < i ==> !(#[trigger] can_be_decided(l, kb_id, conflict_id, j))
            },
{
    let p = undecided(l, kb_id, conflict_id);
    assert forall|i: int| 0 <= i < l.conflicts.len() implies (p(#[trigger] l.conflicts[i])
        <==> can_be_decided(l, kb_id, conflict_id, i)) by {
        let id = l.conflicts[i].new_fact_id;
        lemma_first(l.facts, with_id(id));
        if l.fact(id) is Some {
            let k = choose|k: int| 0 <= k < l.facts.len() && l.facts[k] == l.fact(id)->0;
            assert(l.facts[k].id == id);
        }
        if can_be_decided(l, kb_id, conflict_id, i) {
            let k = choose|k: int| 0 <= k < l.facts.len() && (#[trigger] l.facts[k]).id == id;
            assert(with_id(id)(l.facts[k]));
        }
    }
    lemma_first(l.conflicts, p);
    if first(l.conflicts, p) is Some {
        let i = choose|i: int|
            0 <= i < l.conflicts.len() && #[trigger] l.conflicts[i] == first(l.conflicts, p)->0
                && forall|j: int| 0 <= j < i ==> !p(#[trigger] l.conflicts[j]);
        assert(can_be_decided(l, kb_id, conflict_id, i));
        assert forall|j: int| j < i implies !(#[trigger] can_be_decided(
            l,
            kb_id,
            conflict_id,
            j,
        )) by {
            if 0 <= j {
                assert(!p(l.conflicts[j]));
            }
        }
    } else {
        assert forall|i: int| !(#[trigger] can_be_decided(l, kb_id, conflict_id, i)) by {
            if 0 <= i < l.conflicts.len() {
                assert(!p(l.conflicts[i]));
            }
        }
    }
}

/// When a decision is refused: where there is no such open conflict; where it is of no known kind;
/// and where the old fact is to be closed, no day is given, and the new fact has no start. In all
/// other cases it is made.
pub proof fn law_a_decision_is_refused_only_for_a_reason(
    l: LedgerModel,
    kb_id: u128,
    conflict_id: u128,
    resolution: Seq<char>,
    close_at: Option<i64>,
)
    ensures
        ({
            let refused = undecidable(l, kb_id, conflict_id, resolution, close_at);
            let found = exists|i: int| #[trigger] can_be_decided(l, kb_id, conflict_id, i);
            let known = resolution == "close"@ || resolution == "keep"@ || resolution
                == "reject_new"@;
            &&& refused == Some(ErrorModel::NotFound) <==> !found
            &&& found && !known ==> refused == Some(
                ErrorModel::Validation("Unknown resolution: "@ + resolution),
            )
            &&& found && known && resolution != "close"@ ==> refused is None
            &&& found && resolution == "close"@ && close_at is Some ==> refused is None
            &&& found && resolution == "close"@ && close_at is None ==> {
                let new = l.fact(
                    first(l.conflicts, undecided(l, kb_id, conflict_id))->0.new_fact_id,
                )->0;
                &&& new.valid_from is Some ==> refused is None
                &&& new.valid_from is None ==> refused == Some(
                    ErrorModel::Invalid {
                        code: "close_at_required"@,
                        message: "close_at is required when the new fact has no start time"@,
                    },
                )
            }
        }),
{
    lemma_decided_on(l, kb_id, conflict_id);
    reveal_strlit("close");
    reveal_strlit("keep");
    reveal_strlit("reject_new");
    assert("close"@.len() != "keep"@.len());
    assert("close"@.len() != "reject_new"@.len());
}

/// Where the old fact ends: on the day that the person gave, as precise as they gave it; or else
/// where the new fact began, as precise as that is known, and to the day where it is not known.
pub proof fn law_the_old_fact_ends_where_it_is_told(
    close_at: Option<i64>,
    precision: Seq<char>,
    new: FactModel,
)
    ensures
        close_at is Some ==> closing_point(close_at, precision, new) == Some(
            (close_at->0, precision),
        ),
        close_at is None && new.valid_from is None ==> closing_point(
            close_at,
            precision,
            new,
        ) is None,
        close_at is None && new.valid_from is Some && new.valid_from_precision is Some
            ==> closing_point(close_at, precision, new) == Some(
            (new.valid_from->0, new.valid_from_precision->0),
        ),
        close_at is None && new.valid_from is Some && new.valid_from_precision is None
            ==> closing_point(close_at, precision, new) == Some((new.valid_from->0, "day"@)),
{
}

} // verus!
