//! What a person decides.

use temporal_ledger::confidence::Confidence;
use temporal_ledger::errors::AppError;
use temporal_ledger::ledger::{Change, Entity, Fact, FactConflict, Ledger, RelationType};
use temporal_ledger::review::{list_conflicts, resolve_conflict};
use temporal_ledger::rewrite::{record_conflict, Tx};

const KB: u128 = 1;
const DAY: i64 = 86_400_000_000;

fn fact(id: u128, subject: u128, object: u128, from: Option<i64>) -> Fact {
    Fact {
        id,
        kb_id: KB,
        subject_id: subject,
        predicate_id: Some(3),
        object_id: Some(object),
        object_value: None,
        valid_from: from.map(|d| d * DAY),
        valid_from_precision: None,
        valid_to: None,
        valid_to_precision: None,
        confidence: Confidence { bits: 0.5f32.to_bits() },
        supersedes: None,
        attested_from: None,
        attested_to: None,
        recorded_at: 100,
        invalidated_at: None,
    }
}

fn conflict(id: u128, old: u128, new: u128, at: i64) -> FactConflict {
    FactConflict {
        id,
        kb_id: KB,
        old_fact_id: old,
        new_fact_id: new,
        reason: "low_confidence".to_string(),
        status: "open".to_string(),
        resolution: None,
        created_at: at,
        resolved_at: None,
    }
}

fn seed() -> Ledger {
    let mut ledger = Ledger::new();
    ledger.relations.push(RelationType {
        id: 3,
        kb_id: KB,
        key: "reports_to".to_string(),
        label: "reports to".to_string(),
        kind: "relation".to_string(),
        temporal: "state".to_string(),
        functional: true,
        inverse_functional: false,
        builtin: false,
    });
    for (id, name) in [(20, "Ada"), (21, "Bob"), (22, "Cyd")] {
        ledger.entities.push(Entity { id, canonical_name: name.to_string() });
    }
    ledger.facts.push(fact(10, 20, 21, Some(100)));
    ledger.facts.push(fact(11, 20, 22, Some(200)));
    ledger.facts.push(fact(12, 20, 900, Some(150)));
    ledger.conflicts.push(conflict(30, 10, 11, 1000));
    ledger.conflicts.push(conflict(31, 12, 11, 2000));
    ledger
}

#[test]
fn open_conflicts_are_listed_from_the_newest() {
    let mut ledger = seed();
    ledger.conflicts.push(conflict(32, 10, 12, 1000));
    let all = list_conflicts(&ledger, KB, 10, 0).unwrap();
    let ids: Vec<u128> = all.iter().map(|v| v.id).collect();
    assert_eq!(ids, vec![31, 32, 30], "of one moment the greater identifier first");
    let v = &all[2];
    assert_eq!(v.reason, "low_confidence");
    assert_eq!(v.created_at, 1000);
    assert_eq!(v.predicate_label, "reports to");
    assert_eq!((v.old_fact_id, v.new_fact_id), (10, 11));
    assert_eq!((v.old_subject.as_str(), v.new_subject.as_str()), ("Ada", "Ada"));
    assert_eq!((v.old_object.as_deref(), v.new_object.as_deref()), (Some("Bob"), Some("Cyd")));
    assert_eq!((v.old_valid_from, v.new_valid_from), (Some(100 * DAY), Some(200 * DAY)));
    assert_eq!(v.new_confidence.bits, 0.5f32.to_bits());
    assert_eq!(all[0].old_object, None, "an entity that is not there has no name");
    let page: Vec<u128> = list_conflicts(&ledger, KB, 1, 1).unwrap().iter().map(|v| v.id).collect();
    assert_eq!(page, vec![32]);
    assert!(list_conflicts(&ledger, KB, 10, 3).unwrap().is_empty());
    assert!(list_conflicts(&ledger, KB, 0, 0).unwrap().is_empty());
    assert_eq!(list_conflicts(&ledger, KB, i64::MAX, 1).unwrap().len(), 2);
    assert!(list_conflicts(&ledger, 99, 10, 0).unwrap().is_empty());
}

#[test]
fn what_is_resolved_or_cannot_be_shown_is_not_listed() {
    let mut ledger = seed();
    ledger.conflicts[0].status = "resolved".to_string();
    ledger.conflicts.push(conflict(32, 77, 11, 3000));
    ledger.facts.push(fact(13, 901, 21, None));
    ledger.conflicts.push(conflict(33, 13, 11, 3000));
    let ids: Vec<u128> = list_conflicts(&ledger, KB, 10, 0).unwrap().iter().map(|v| v.id).collect();
    assert_eq!(ids, vec![31]);
}

#[test]
fn a_list_has_no_negative_bounds() {
    let ledger = seed();
    assert!(matches!(list_conflicts(&ledger, KB, -1, 0), Err(AppError::NegativeLimit)));
    assert!(matches!(list_conflicts(&ledger, KB, 5, -1), Err(AppError::NegativeOffset)));
    assert!(matches!(list_conflicts(&ledger, KB, -1, -1), Err(AppError::NegativeOffset)));
}

#[test]
fn closing_ends_the_old_fact_where_the_new_one_starts() {
    let mut ledger = seed();
    ledger.facts[1].valid_from = Some(200 * DAY);
    ledger.facts[1].valid_from_precision = Some("month".to_string());
    let mut tx = Tx::begin(5000);
    resolve_conflict(&mut ledger, &mut tx, KB, 30, "close", None, "day").unwrap();
    let closed = ledger.facts.last().unwrap();
    assert_eq!(closed.supersedes, Some(10));
    assert_eq!(closed.valid_to_precision.as_deref(), Some("month"));
    assert_eq!(closed.valid_to, Some(181 * DAY), "the first of July 1970");
    assert_eq!(ledger.facts[0].invalidated_at, Some(5000));
    let c = &ledger.conflicts[0];
    assert_eq!((c.status.as_str(), c.resolution.as_deref()), ("resolved", Some("closed")));
    assert_eq!(c.resolved_at, Some(5000));
    assert_eq!(ledger.conflicts[1].status, "open");
    assert!(matches!(
        resolve_conflict(&mut ledger, &mut tx, KB, 30, "keep", None, "day"),
        Err(AppError::NotFound)
    ));
}

#[test]
fn closing_uses_the_day_that_a_person_gives() {
    let mut ledger = seed();
    let mut tx = Tx::begin(5000);
    resolve_conflict(&mut ledger, &mut tx, KB, 30, "close", Some(120 * DAY + 7), "day").unwrap();
    let closed = ledger.facts.last().unwrap();
    assert_eq!(closed.valid_to, Some(120 * DAY));
    assert_eq!(closed.valid_to_precision.as_deref(), Some("day"));
}

#[test]
fn a_start_of_unknown_precision_closes_on_its_day() {
    let mut ledger = seed();
    ledger.facts[1].valid_from = Some(200 * DAY + 99);
    let mut tx = Tx::begin(5000);
    resolve_conflict(&mut ledger, &mut tx, KB, 30, "close", None, "month").unwrap();
    let closed = ledger.facts.last().unwrap();
    assert_eq!(closed.valid_to, Some(200 * DAY));
    assert_eq!(closed.valid_to_precision.as_deref(), Some("day"));
}

#[test]
fn closing_what_has_left_the_record_only_settles_the_conflict() {
    let mut ledger = seed();
    ledger.facts[0].invalidated_at = Some(50);
    let mut tx = Tx::begin(5000);
    resolve_conflict(&mut ledger, &mut tx, KB, 30, "close", None, "day").unwrap();
    assert_eq!(ledger.facts.len(), 3);
    assert_eq!(ledger.facts[0].invalidated_at, Some(50));
    assert_eq!(ledger.conflicts[0].resolution.as_deref(), Some("closed"));
    assert_eq!(ledger.changes.len(), 1);
}

#[test]
fn keeping_changes_no_fact() {
    let mut ledger = seed();
    let mut tx = Tx::begin(5000);
    resolve_conflict(&mut ledger, &mut tx, KB, 30, "keep", None, "day").unwrap();
    assert_eq!(ledger.conflicts[0].resolution.as_deref(), Some("kept_both"));
    assert!(ledger.facts.iter().all(|f| f.invalidated_at.is_none()));
    assert_eq!(ledger.facts.len(), 3);
}

#[test]
fn rejecting_settles_all_conflicts_of_the_new_fact() {
    let mut ledger = seed();
    let mut tx = Tx::begin(5000);
    resolve_conflict(&mut ledger, &mut tx, KB, 30, "reject_new", None, "day").unwrap();
    assert_eq!(ledger.facts[1].invalidated_at, Some(5000));
    assert_eq!(ledger.facts[0].invalidated_at, None);
    for c in &ledger.conflicts {
        assert_eq!((c.status.as_str(), c.resolution.as_deref()), ("resolved", Some("rejected_new")));
        assert_eq!(c.resolved_at, Some(5000));
    }
    assert!(matches!(&ledger.changes[1], Change::SettleSiblings { new_fact_id: 11, except: 30, .. }));
}

#[test]
fn decisions_that_cannot_be_made_are_refused() {
    let mut ledger = seed();
    ledger.facts[1].valid_from = None;
    let mut tx = Tx::begin(5000);
    match resolve_conflict(&mut ledger, &mut tx, KB, 30, "close", None, "day") {
        Err(AppError::Invalid { code, message }) => {
            assert_eq!(code, "close_at_required");
            assert_eq!(message, "close_at is required when the new fact has no start time");
        }
        other => panic!("{other:?}"),
    }
    match resolve_conflict(&mut ledger, &mut tx, KB, 30, "shrug", None, "day") {
        Err(AppError::Validation(message)) => assert_eq!(message, "Unknown resolution: shrug"),
        other => panic!("{other:?}"),
    }
    assert!(matches!(
        resolve_conflict(&mut ledger, &mut tx, KB, 99, "keep", None, "day"),
        Err(AppError::NotFound)
    ));
    assert!(matches!(
        resolve_conflict(&mut ledger, &mut tx, 2, 30, "keep", None, "day"),
        Err(AppError::NotFound)
    ));
    ledger.conflicts[0].new_fact_id = 77;
    assert!(matches!(
        resolve_conflict(&mut ledger, &mut tx, KB, 30, "keep", None, "day"),
        Err(AppError::NotFound)
    ));
    assert!(ledger.changes.is_empty());
}

#[test]
fn a_conflict_is_recorded_open_and_once() {
    let mut ledger = seed();
    let mut tx = Tx::begin(5000);
    let id = record_conflict(&mut ledger, &mut tx, KB, 10, 12, "no_time");
    let c = ledger.conflicts.last().unwrap();
    assert_eq!((c.id, c.kb_id, c.old_fact_id, c.new_fact_id), (id, KB, 10, 12));
    assert_eq!((c.reason.as_str(), c.status.as_str()), ("no_time", "open"));
    assert_eq!((c.created_at, c.resolved_at), (5000, None));
    record_conflict(&mut ledger, &mut tx, KB, 10, 12, "simultaneous");
    assert_eq!(ledger.conflicts.len(), 3);
    assert_eq!(ledger.changes.len(), 2);
}

#[test]
fn a_conflict_with_a_fact_that_left_the_record_is_not_listed() {
    let ids = |ledger: &Ledger| -> Vec<u128> {
        list_conflicts(ledger, KB, 10, 0).unwrap().iter().map(|v| v.id).collect()
    };
    let mut ledger = seed();
    ledger.conflicts.push(conflict(32, 11, 12, 3000));
    assert_eq!(ids(&ledger), vec![32, 31, 30]);
    // The old fact of the one is gone.
    ledger.facts[0].invalidated_at = Some(4000);
    assert_eq!(ids(&ledger), vec![32, 31]);
    // What is rejected leaves no question behind, on either side.
    let mut tx = Tx::begin(5000);
    resolve_conflict(&mut ledger, &mut tx, KB, 31, "reject_new", None, "day").unwrap();
    assert_eq!(ledger.conflicts[2].status, "open");
    assert!(ids(&ledger).is_empty());
    assert!(list_conflicts(&ledger, KB, 10, 1).unwrap().is_empty());
}

#[test]
fn a_question_that_stands_is_not_recorded_in_the_other_order() {
    let mut ledger = seed();
    let mut tx = Tx::begin(5000);
    record_conflict(&mut ledger, &mut tx, KB, 11, 10, "simultaneous");
    assert_eq!(ledger.conflicts.len(), 2);
    resolve_conflict(&mut ledger, &mut tx, KB, 30, "keep", None, "day").unwrap();
    record_conflict(&mut ledger, &mut tx, KB, 11, 10, "simultaneous");
    assert_eq!(ledger.conflicts.len(), 3);
}
