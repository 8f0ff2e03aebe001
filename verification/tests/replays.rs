//! Facts that are reconciled once more: after a merge, a late declaration, and a revert.

use temporal_ledger::candidates::{plan_closures, OpenValue};
use temporal_ledger::confidence::Confidence;
use temporal_ledger::engine::{place, ReconcileReport};
use temporal_ledger::errors::AppError;
use temporal_ledger::ledger::{Change, Fact, Ledger, RelationType};
use temporal_ledger::replay::{reconcile_moved_facts, reconcile_predicate, retidy_after_revert};
use temporal_ledger::rewrite::Tx;
use temporal_ledger::timeline::{load_timeline, Scope, Uniqueness};

const KB: u128 = 1;
const DAY: i64 = 86_400_000_000;

fn relation(functional: bool, inverse: bool, temporal: &str) -> RelationType {
    RelationType {
        id: 3,
        kb_id: KB,
        key: "leads".to_string(),
        label: "leads".to_string(),
        kind: "relation".to_string(),
        temporal: temporal.to_string(),
        functional,
        inverse_functional: inverse,
        builtin: false,
    }
}

fn fact(id: u128, subject: u128, object: Option<u128>, from: Option<i64>, at: i64) -> Fact {
    Fact {
        id,
        kb_id: KB,
        subject_id: subject,
        predicate_id: Some(3),
        object_id: object,
        object_value: None,
        valid_from: from.map(|d| d * DAY),
        valid_from_precision: from.map(|_| "day".to_string()),
        valid_to: None,
        valid_to_precision: None,
        confidence: Confidence { bits: 0.9f32.to_bits() },
        supersedes: None,
        attested_from: None,
        attested_to: None,
        recorded_at: at,
        invalidated_at: None,
    }
}

fn present(ledger: &Ledger, holder: u128, side: Uniqueness) -> Vec<(u128, Option<i64>, Option<i64>)> {
    let mut rows: Vec<_> = load_timeline(ledger, Scope { kb_id: KB, holder, predicate_id: 3, side })
        .iter()
        .map(|r| {
            let value = match side {
                Uniqueness::SubjectSide => r.object_id.unwrap(),
                Uniqueness::ObjectSide => r.subject_id,
            };
            (value, r.valid_from.map(|t| t / DAY), r.valid_to.map(|t| t / DAY))
        })
        .collect();
    rows.sort_by_key(|r| (r.1, r.0));
    rows
}

#[test]
fn a_late_declaration_closes_each_at_its_earliest_successor() {
    let mut ledger = Ledger::new();
    ledger.relations.push(relation(false, true, "state"));
    // Recorded in another order than they began.
    ledger.facts.push(fact(12, 52, Some(80), Some(300), 1000));
    ledger.facts.push(fact(11, 51, Some(80), Some(200), 2000));
    ledger.facts.push(fact(10, 50, Some(80), Some(100), 3000));
    let mut tx = Tx::begin(9000);
    let report = reconcile_predicate(&mut ledger, &mut tx, KB, 3).unwrap();
    assert_eq!(report.corrected.len(), 2);
    assert_eq!(report.conflicts, 0);
    assert_eq!(
        present(&ledger, 80, Uniqueness::ObjectSide),
        vec![(50, Some(100), Some(200)), (51, Some(200), Some(300)), (52, Some(300), None)]
    );
    // Before the declaration three were open, and can still be read so.
    let then = ledger
        .facts
        .iter()
        .filter(|f| f.recorded_at <= 8999 && f.invalidated_at.map_or(true, |i| i > 8999))
        .filter(|f| f.valid_to.is_none())
        .count();
    assert_eq!(then, 3);
}

#[test]
fn a_relation_that_is_not_declared_is_refused() {
    let mut tx = Tx::begin(9000);
    let mut ledger = Ledger::new();
    assert!(matches!(
        reconcile_predicate(&mut ledger, &mut tx, KB, 3),
        Err(AppError::NotFound)
    ));
    ledger.relations.push(relation(true, false, "event"));
    assert!(matches!(
        reconcile_predicate(&mut ledger, &mut tx, 99, 3),
        Err(AppError::NotFound)
    ));
    match reconcile_predicate(&mut ledger, &mut tx, KB, 3) {
        Err(AppError::Invalid { code, message }) => {
            assert_eq!(code, "not_a_state");
            assert_eq!(message, "only a state relation has intervals to close");
        }
        other => panic!("{other:?}"),
    }
    ledger.relations[0] = relation(false, false, "state");
    match reconcile_predicate(&mut ledger, &mut tx, KB, 3) {
        Err(AppError::Invalid { code, message }) => {
            assert_eq!(code, "not_unique");
            assert_eq!(
                message,
                "declare the relation functional or inverse-functional first; the engine does not infer it"
            );
        }
        other => panic!("{other:?}"),
    }
    ledger.relations[0] = relation(true, false, "state");
    let report = reconcile_predicate(&mut ledger, &mut tx, KB, 3).unwrap();
    assert!(report.corrected.is_empty() && report.conflicts == 0);
}

#[test]
fn moved_facts_meet_those_of_their_new_holder() {
    let mut ledger = Ledger::new();
    ledger.relations.push(relation(true, false, "state"));
    ledger.facts.push(fact(10, 50, Some(80), Some(100), 1000));
    ledger.facts.push(fact(11, 50, Some(81), Some(200), 2000));
    let mut tx = Tx::begin(9000);
    let report = reconcile_moved_facts(&mut ledger, &mut tx, KB, &[11]);
    assert_eq!(report.corrected.len(), 1);
    assert_eq!(
        present(&ledger, 50, Uniqueness::SubjectSide),
        vec![(80, Some(100), Some(200)), (81, Some(200), None)]
    );
    let none = reconcile_moved_facts(&mut ledger, &mut tx, KB, &[]);
    assert!(none.corrected.is_empty() && none.conflicts == 0);
}

#[test]
fn facts_that_are_closed_gone_or_say_nothing_are_passed_over() {
    let mut ledger = Ledger::new();
    ledger.relations.push(relation(true, false, "state"));
    ledger.facts.push(fact(10, 50, Some(80), Some(100), 1000));
    ledger.facts.push(fact(11, 50, Some(81), None, 2000));
    ledger.facts[1].valid_to_precision = Some("unknown".to_string());
    ledger.facts.push(fact(12, 50, Some(82), None, 3000));
    ledger.facts[2].invalidated_at = Some(3500);
    ledger.facts.push(fact(13, 50, None, None, 4000));
    ledger.facts.push(fact(14, 51, Some(82), None, 5000));
    ledger.facts[4].kb_id = 99;
    let mut tx = Tx::begin(9000);
    let report = reconcile_moved_facts(&mut ledger, &mut tx, KB, &[11, 12, 13, 14, 77]);
    assert!(report.corrected.is_empty() && report.conflicts == 0);
    assert!(ledger.changes.is_empty());
}

#[test]
fn a_fact_that_was_rewritten_on_the_way_is_passed_over() {
    let mut ledger = Ledger::new();
    ledger.relations.push(relation(true, false, "state"));
    ledger.facts.push(fact(10, 50, Some(80), Some(100), 2000));
    ledger.facts.push(fact(11, 50, Some(81), Some(200), 1000));
    let mut tx = Tx::begin(9000);
    let report = reconcile_moved_facts(&mut ledger, &mut tx, KB, &[10, 11]);
    assert_eq!(report.corrected.len(), 1, "placing the later one has closed the earlier");
    assert_eq!(ledger.changes.len(), 1);
}

#[test]
fn a_relation_that_is_unique_on_both_sides_is_reconciled_on_both() {
    let mut ledger = Ledger::new();
    ledger.relations.push(relation(true, true, "state"));
    ledger.facts.push(fact(10, 50, Some(80), Some(100), 1000));
    ledger.facts.push(fact(11, 51, Some(81), Some(100), 1000));
    ledger.facts.push(fact(12, 50, Some(81), Some(200), 2000));
    let mut tx = Tx::begin(9000);
    let report = reconcile_moved_facts(&mut ledger, &mut tx, KB, &[12]);
    assert_eq!(report.corrected.len(), 2);
    assert_eq!(
        present(&ledger, 50, Uniqueness::SubjectSide),
        vec![(80, Some(100), Some(200)), (81, Some(200), None)]
    );
    assert_eq!(
        present(&ledger, 81, Uniqueness::ObjectSide),
        vec![(51, Some(100), Some(200)), (50, Some(200), None)]
    );
}

#[test]
fn a_revert_reopens_what_was_closed_at_a_fact_that_left() {
    let mut ledger = Ledger::new();
    ledger.relations.push(relation(true, false, "state"));
    ledger.facts.push(fact(10, 50, Some(80), Some(100), 1000));
    ledger.facts.push(fact(11, 50, Some(81), Some(200), 2000));
    let mut tx = Tx::begin(3000);
    let mut report = ReconcileReport::default();
    let scope =
        Scope { kb_id: KB, holder: 50, predicate_id: 3, side: Uniqueness::SubjectSide };
    place(&mut ledger, &mut tx, &mut report, scope, 11);
    let closed = report.corrected[0];
    // The fact goes back to its former holder.
    ledger.facts.iter_mut().find(|f| f.id == 11).unwrap().subject_id = 51;
    let mut tx = Tx::begin(4000);
    retidy_after_revert(&mut ledger, &mut tx, KB, 50, &[11]);
    assert_eq!(
        present(&ledger, 50, Uniqueness::SubjectSide),
        vec![(80, Some(100), None)]
    );
    let row = ledger.facts.iter().find(|f| f.id == closed).unwrap();
    assert_eq!(row.invalidated_at, Some(4000));
    let original = ledger.facts.iter().find(|f| f.id == 10).unwrap();
    assert_eq!(original.invalidated_at, None);
    let tail: Vec<_> = ledger.changes.iter().skip(1).collect();
    assert!(matches!(tail[0], Change::Invalidate { fact_id, at: 4000 } if *fact_id == closed));
    assert!(matches!(tail[1], Change::Restore { fact_id: 10 }));
    assert_eq!(tail.len(), 2);
}

#[test]
fn a_reopened_row_is_placed_among_what_is_left() {
    let mut ledger = Ledger::new();
    ledger.relations.push(relation(true, false, "state"));
    let scope =
        Scope { kb_id: KB, holder: 50, predicate_id: 3, side: Uniqueness::SubjectSide };
    for (id, object, from) in [(10, 80, 100), (11, 81, 200), (12, 82, 300)] {
        ledger.facts.push(fact(id, 50, Some(object), Some(from), 1000 + from));
        let mut tx = Tx::begin(1000 + from);
        let mut report = ReconcileReport::default();
        place(&mut ledger, &mut tx, &mut report, scope, id);
    }
    let moved: Vec<u128> = ledger.facts.iter().filter(|f| f.object_id == Some(81)).map(|f| f.id).collect();
    for f in ledger.facts.iter_mut().filter(|f| f.object_id == Some(81)) {
        f.subject_id = 51;
    }
    let mut tx = Tx::begin(4000);
    retidy_after_revert(&mut ledger, &mut tx, KB, 50, &moved);
    assert_eq!(
        present(&ledger, 50, Uniqueness::SubjectSide),
        vec![(80, Some(100), Some(300)), (82, Some(300), None)]
    );
}

#[test]
fn an_interval_that_was_corrected_by_hand_is_not_reopened() {
    let mut ledger = Ledger::new();
    ledger.relations.push(relation(true, false, "state"));
    // The row supersedes one with another start.
    let mut old = fact(10, 50, Some(80), Some(90), 1000);
    old.invalidated_at = Some(1500);
    ledger.facts.push(old);
    let mut row = fact(20, 50, Some(80), Some(100), 1500);
    row.valid_to = Some(200 * DAY);
    row.valid_to_precision = Some("day".to_string());
    row.supersedes = Some(10);
    ledger.facts.push(row);
    ledger.facts.push(fact(11, 51, Some(81), Some(200), 2000));
    let mut tx = Tx::begin(4000);
    retidy_after_revert(&mut ledger, &mut tx, KB, 50, &[11]);
    assert!(ledger.changes.is_empty());
    // Nor is one that ends where another row still starts.
    ledger.facts[0].valid_from = Some(100 * DAY);
    ledger.facts.push(fact(12, 50, Some(82), Some(200), 2500));
    retidy_after_revert(&mut ledger, &mut tx, KB, 50, &[11]);
    assert!(ledger.changes.is_empty());
}

/// The open values of the facts of a ledger, by their start.
fn values(ledger: &Ledger) -> Vec<OpenValue> {
    let mut values: Vec<OpenValue> = ledger
        .facts
        .iter()
        .map(|f| OpenValue {
            fact_id: f.id,
            name: f.id.to_string(),
            valid_from: f.valid_from,
            confidence: f.confidence,
        })
        .collect();
    values.sort_by_key(|v| (v.valid_from.is_none(), v.valid_from));
    values
}

/// The pairs of facts that are with a person, the smaller identifier first.
fn questions(ledger: &Ledger) -> Vec<(u128, u128)> {
    let mut pairs: Vec<(u128, u128)> = ledger
        .conflicts
        .iter()
        .filter(|c| c.status == "open")
        .map(|c| (c.old_fact_id.min(c.new_fact_id), c.old_fact_id.max(c.new_fact_id)))
        .collect();
    pairs.sort();
    pairs
}

#[test]
fn three_values_without_a_time_are_three_questions() {
    let mut ledger = Ledger::new();
    ledger.relations.push(relation(true, false, "state"));
    ledger.facts.push(fact(10, 50, Some(80), None, 1000));
    ledger.facts.push(fact(11, 50, Some(81), None, 2000));
    ledger.facts.push(fact(12, 50, Some(82), None, 3000));
    let estimate = plan_closures(&values(&ledger));
    let mut tx = Tx::begin(9000);
    let report = reconcile_predicate(&mut ledger, &mut tx, KB, 3).unwrap();
    assert_eq!(report.conflicts, 3);
    assert!(report.corrected.is_empty());
    assert_eq!(estimate, (0, 3));
    assert_eq!(questions(&ledger), vec![(10, 11), (10, 12), (11, 12)]);
    assert_eq!(ledger.conflicts.len(), 3);
    assert_eq!(ledger.changes.len(), 3);
    assert!(ledger.conflicts.iter().all(|c| c.reason == "no_time"));
    assert_eq!(
        present(&ledger, 50, Uniqueness::SubjectSide),
        vec![(80, None, None), (81, None, None), (82, None, None)]
    );
    // Once more in the same transaction there is nothing to ask.
    let again = reconcile_predicate(&mut ledger, &mut tx, KB, 3).unwrap();
    assert_eq!(again.conflicts, 0);
    assert_eq!(questions(&ledger), vec![(10, 11), (10, 12), (11, 12)]);
    assert_eq!(ledger.conflicts.len(), 3);
}

#[test]
fn four_values_that_start_together_are_six_questions() {
    let mut ledger = Ledger::new();
    ledger.relations.push(relation(false, true, "state"));
    for k in 0..4 {
        ledger.facts.push(fact(10 + k, 50 + k, Some(80), Some(100), 1000 + k as i64));
    }
    let mut tx = Tx::begin(9000);
    let report = reconcile_predicate(&mut ledger, &mut tx, KB, 3).unwrap();
    assert_eq!(report.conflicts, 6);
    assert!(report.corrected.is_empty());
    assert_eq!(plan_closures(&values(&ledger)), (0, 6));
    assert_eq!(
        questions(&ledger),
        vec![(10, 11), (10, 12), (10, 13), (11, 12), (11, 13), (12, 13)]
    );
    assert!(ledger.conflicts.iter().all(|c| c.reason == "simultaneous"));
    assert_eq!(ledger.facts.len(), 4);
}

#[test]
fn a_pair_that_was_decided_can_be_asked_anew_in_the_other_order() {
    let mut ledger = Ledger::new();
    ledger.relations.push(relation(true, false, "state"));
    ledger.facts.push(fact(10, 50, Some(80), None, 1000));
    ledger.facts.push(fact(11, 50, Some(81), None, 2000));
    let mut tx = Tx::begin(9000);
    let first = reconcile_moved_facts(&mut ledger, &mut tx, KB, &[10]);
    assert_eq!(first.conflicts, 1);
    let pending = reconcile_moved_facts(&mut ledger, &mut tx, KB, &[11]);
    assert_eq!(pending.conflicts, 0, "the question stands");
    assert_eq!(ledger.conflicts.len(), 1);
    ledger.conflicts[0].status = "resolved".to_string();
    let anew = reconcile_moved_facts(&mut ledger, &mut tx, KB, &[11]);
    assert_eq!(anew.conflicts, 1);
    assert_eq!(ledger.conflicts.len(), 2);
    assert_eq!(
        (ledger.conflicts[1].old_fact_id, ledger.conflicts[1].new_fact_id),
        (10, 11)
    );
}

#[test]
fn a_chain_comes_to_its_estimate_however_long_it_is() {
    for n in [1u128, 2, 3, 70, 140] {
        let mut ledger = Ledger::new();
        ledger.relations.push(relation(true, false, "state"));
        for k in 0..n {
            // Recorded from the last to the first.
            ledger.facts.push(fact(1000 + k, 50, Some(2000 + k), Some(9 * k as i64), 5000 - k as i64));
        }
        let estimate = plan_closures(&values(&ledger));
        let mut tx = Tx::begin(9000);
        let report = reconcile_predicate(&mut ledger, &mut tx, KB, 3).unwrap();
        assert_eq!(report.corrected.len() as u128, n - 1);
        assert_eq!(report.conflicts, 0);
        assert_eq!(estimate, (report.corrected.len(), 0));
        let rows = present(&ledger, 50, Uniqueness::SubjectSide);
        let wanted: Vec<_> = (0..n)
            .map(|k| {
                let end = if k + 1 < n { Some(9 * (k as i64 + 1)) } else { None };
                (2000 + k, Some(9 * k as i64), end)
            })
            .collect();
        assert_eq!(rows, wanted);
    }
}

#[test]
fn a_question_is_counted_once_in_a_replay() {
    let mut ledger = Ledger::new();
    ledger.relations.push(relation(true, false, "state"));
    ledger.facts.push(fact(10, 50, Some(80), Some(100), 1000));
    ledger.facts.push(fact(11, 50, Some(81), Some(200), 2000));
    ledger.facts[1].confidence = Confidence { bits: 0.5f32.to_bits() };
    // Both facts are placed, and either time the second is an unsure successor of the first.
    let mut tx = Tx::begin(9000);
    let report = reconcile_predicate(&mut ledger, &mut tx, KB, 3).unwrap();
    assert_eq!(report.conflicts, 1);
    assert!(report.corrected.is_empty());
    assert_eq!(questions(&ledger), vec![(10, 11)]);
    assert_eq!(ledger.changes.len(), 1);
    // Another transaction asks anew, and files nothing.
    let mut later = Tx::begin(9001);
    let again = reconcile_predicate(&mut ledger, &mut later, KB, 3).unwrap();
    assert_eq!(again.conflicts, 1);
    assert_eq!(ledger.conflicts.len(), 1);
}
