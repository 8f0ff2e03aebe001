//! Values that arrive late take their place in history.

use chrono::{DateTime, NaiveDate, Utc};
use temporal_ledger::confidence::Confidence;
use temporal_ledger::engine::{place, reconcile_new_fact, tidy, ReconcileReport};
use temporal_ledger::ledger::{Change, Document, Entity, Evidence, Fact, Ledger, RelationType};
use temporal_ledger::rewrite::Tx;
use temporal_ledger::timeline::{load_timeline, next_change, same_value, Scope, Uniqueness};
use temporal_ledger::validity::Validity;

const KB: u128 = 1;
const LEASE: u128 = 2;
const DEADLINE: u128 = 3;

fn t(day: &str) -> i64 {
    NaiveDate::parse_from_str(day, "%Y-%m-%d")
        .unwrap()
        .and_hms_opt(0, 0, 0)
        .unwrap()
        .and_utc()
        .timestamp_micros()
}

fn day(micros: i64) -> String {
    let at: DateTime<Utc> = DateTime::from_timestamp_micros(micros).unwrap();
    at.format("%Y-%m-%d").to_string()
}

fn sure(value: f32) -> Confidence {
    Confidence { bits: value.to_bits() }
}

fn seed() -> Ledger {
    let mut ledger = Ledger::new();
    ledger.relations.push(RelationType {
        id: DEADLINE,
        kb_id: KB,
        key: "option_deadline".to_string(),
        label: "option deadline".to_string(),
        kind: "attribute".to_string(),
        temporal: "state".to_string(),
        functional: true,
        inverse_functional: false,
        builtin: false,
    });
    ledger.entities.push(Entity { id: LEASE, canonical_name: "HQ Lease".to_string() });
    ledger
}

fn fact(id: u128, value: &str, from: Option<&str>, to: Option<&str>, at: i64) -> Fact {
    Fact {
        id,
        kb_id: KB,
        subject_id: LEASE,
        predicate_id: Some(DEADLINE),
        object_id: None,
        object_value: Some(format!("{{\"value\": \"{value}\"}}")),
        valid_from: from.map(t),
        valid_from_precision: from.map(|_| "day".to_string()),
        valid_to: to.map(t),
        valid_to_precision: to.map(|_| "day".to_string()),
        confidence: sure(0.9),
        supersedes: None,
        attested_from: None,
        attested_to: None,
        recorded_at: at,
        invalidated_at: None,
    }
}

/// Records a value, and reconciles it.
fn arrive(
    ledger: &mut Ledger,
    id: u128,
    value: &str,
    from: &str,
    to: Option<&str>,
    at: i64,
) -> ReconcileReport {
    ledger.facts.push(fact(id, value, Some(from), to, at));
    let mut validity = Validity::starting(Some(t(from)), Some("day"));
    if let Some(to) = to {
        validity.to = Some(t(to));
        validity.to_precision = Some("day");
    }
    let object = format!("{{\"value\": \"{value}\"}}");
    let mut tx = Tx::begin(at);
    reconcile_new_fact(
        ledger,
        &mut tx,
        KB,
        id,
        LEASE,
        DEADLINE,
        None,
        Some(&object),
        Uniqueness::SubjectSide,
        validity,
        sure(0.9),
    )
}

/// The segments that are present: value, start and end, by start.
fn timeline(ledger: &Ledger) -> Vec<(String, String, Option<String>)> {
    let mut rows: Vec<&Fact> = ledger
        .facts
        .iter()
        .filter(|f| {
            f.kb_id == KB
                && f.subject_id == LEASE
                && f.predicate_id == Some(DEADLINE)
                && f.invalidated_at.is_none()
        })
        .collect();
    rows.sort_by_key(|f| f.valid_from);
    rows.iter()
        .map(|f| {
            let json: serde_json::Value =
                serde_json::from_str(f.object_value.as_ref().unwrap()).unwrap();
            (
                json["value"].as_str().unwrap().to_string(),
                f.valid_from.map(day).unwrap(),
                f.valid_to.map(day),
            )
        })
        .collect()
}

fn seg(value: &str, from: &str, to: Option<&str>) -> (String, String, Option<String>) {
    (value.to_string(), from.to_string(), to.map(|d| d.to_string()))
}

fn scope() -> Scope {
    Scope { kb_id: KB, holder: LEASE, predicate_id: DEADLINE, side: Uniqueness::SubjectSide }
}

fn written(ledger: &Ledger) -> Vec<u128> {
    ledger
        .changes
        .iter()
        .filter_map(|c| match c {
            Change::Rewrite { fact, .. } => Some(fact.id),
            _ => None,
        })
        .collect()
}

fn reasons(ledger: &Ledger) -> Vec<(u128, u128, String)> {
    ledger
        .conflicts
        .iter()
        .map(|c| (c.old_fact_id, c.new_fact_id, c.reason.clone()))
        .collect()
}

#[test]
fn amendments_that_arrive_out_of_order_still_hand_over_one_to_the_next() {
    let mut ledger = seed();
    arrive(&mut ledger, 10, "2020-03-17", "2020-02-18", None, 1000);
    arrive(&mut ledger, 11, "2020-06-23", "2020-06-08", None, 2000);
    arrive(&mut ledger, 12, "2020-05-26", "2020-04-14", None, 3000);
    arrive(&mut ledger, 13, "2020-04-14", "2020-03-17", None, 4000);

    assert_eq!(
        timeline(&ledger),
        vec![
            seg("2020-03-17", "2020-02-18", Some("2020-03-17")),
            seg("2020-04-14", "2020-03-17", Some("2020-04-14")),
            seg("2020-05-26", "2020-04-14", Some("2020-06-08")),
            seg("2020-06-23", "2020-06-08", None),
        ],
        "each segment ends where the next one starts, and no day has two deadlines"
    );
}

#[test]
fn an_end_the_text_states_is_not_cut_by_a_later_value() {
    let mut ledger = seed();
    arrive(&mut ledger, 10, "2020-09-30", "2020-01-01", Some("2020-12-31"), 1000);
    arrive(&mut ledger, 11, "2020-10-31", "2020-06-01", None, 2000);

    let rows = timeline(&ledger);
    assert!(
        rows.contains(&seg("2020-09-30", "2020-01-01", Some("2020-12-31"))),
        "the end that the text states stays as it is: {rows:?}"
    );
}

#[test]
fn every_order_of_arrival_gives_the_same_history() {
    let values = [
        ("a", "2020-02-18"),
        ("b", "2020-06-08"),
        ("c", "2020-04-14"),
        ("d", "2020-03-17"),
    ];
    let expected = vec![
        seg("a", "2020-02-18", Some("2020-03-17")),
        seg("d", "2020-03-17", Some("2020-04-14")),
        seg("c", "2020-04-14", Some("2020-06-08")),
        seg("b", "2020-06-08", None),
    ];
    for i in 0..4usize {
        for j in 0..4usize {
            for k in 0..4usize {
                for l in 0..4usize {
                    let order = [i, j, k, l];
                    if (0..4usize).any(|x| !order.contains(&x)) {
                        continue;
                    }
                    let mut ledger = seed();
                    for (n, &v) in order.iter().enumerate() {
                        arrive(
                            &mut ledger,
                            100 + v as u128,
                            values[v].0,
                            values[v].1,
                            None,
                            1000 * (n as i64 + 1),
                        );
                    }
                    assert_eq!(timeline(&ledger), expected, "order {order:?}");
                    assert!(ledger.conflicts.is_empty());
                }
            }
        }
    }
}

#[test]
fn no_moment_has_two_values() {
    let mut ledger = seed();
    arrive(&mut ledger, 10, "a", "2020-01-01", None, 1000);
    arrive(&mut ledger, 11, "b", "2020-03-01", None, 2000);
    arrive(&mut ledger, 12, "c", "2020-02-01", None, 3000);
    for at in ["2020-01-15", "2020-02-01", "2020-02-15", "2020-03-01", "2021-01-01"] {
        let holding: Vec<_> = load_timeline(&ledger, scope())
            .into_iter()
            .filter(|r| {
                r.key().unwrap() <= t(at) && (r.is_open() || t(at) < r.end().unwrap())
            })
            .collect();
        assert_eq!(holding.len(), 1, "{at}");
    }
}

#[test]
fn a_value_that_is_told_twice_is_one_value() {
    let mut ledger = seed();
    arrive(&mut ledger, 10, "a", "2020-01-01", None, 1000);
    arrive(&mut ledger, 11, "a", "2020-02-01", None, 2000);
    assert_eq!(timeline(&ledger), vec![seg("a", "2020-01-01", None), seg("a", "2020-02-01", None)]);
    arrive(&mut ledger, 12, "b", "2020-03-01", None, 3000);
    assert_eq!(
        timeline(&ledger),
        vec![
            seg("a", "2020-01-01", Some("2020-03-01")),
            seg("a", "2020-02-01", Some("2020-03-01")),
            seg("b", "2020-03-01", None),
        ]
    );
}

#[test]
fn literals_are_compared_as_values_and_not_as_texts() {
    let mut ledger = seed();
    ledger.facts.push(fact(10, "a", Some("2020-01-01"), None, 1000));
    ledger.facts.push(fact(11, "b", Some("2020-02-01"), None, 2000));
    ledger.facts[0].object_value = Some("{\"value\": 3, \"unit\": \"m\"}".to_string());
    ledger.facts[1].object_value = Some("{\"unit\":\"m\",\"value\":3}".to_string());
    let rows = load_timeline(&ledger, scope());
    assert!(same_value(Uniqueness::SubjectSide, &rows[0], &rows[1]));
    ledger.facts[1].object_value = Some("{\"unit\":\"m\",\"value\":4}".to_string());
    let rows = load_timeline(&ledger, scope());
    assert!(!same_value(Uniqueness::SubjectSide, &rows[0], &rows[1]));
    assert!(same_value(Uniqueness::ObjectSide, &rows[0], &rows[1]));
}

#[test]
fn a_row_is_closed_by_a_rewrite_that_supersedes_it() {
    let mut ledger = seed();
    arrive(&mut ledger, 10, "a", "2020-01-01", None, 1000);
    let report = arrive(&mut ledger, 11, "b", "2020-02-01", None, 2000);
    assert_eq!(report.corrected.len(), 1);
    assert_eq!(report.conflicts, 0);
    let old = ledger.facts.iter().find(|f| f.id == 10).unwrap();
    assert_eq!(old.invalidated_at, Some(2000));
    assert_eq!(old.valid_to, None);
    let new = ledger.facts.iter().find(|f| f.id == report.corrected[0]).unwrap();
    assert_eq!(new.supersedes, Some(10));
    assert_eq!(new.recorded_at, 2000);
    assert_eq!(new.valid_from, Some(t("2020-01-01")));
    assert_eq!(new.valid_to, Some(t("2020-02-01")));
    assert_eq!(new.valid_to_precision.as_deref(), Some("day"));
    assert_eq!(new.invalidated_at, None);
    assert_eq!((new.id >> 76) & 0xf, 7, "a time ordered identifier");
    assert_eq!(written(&ledger), report.corrected);
}

#[test]
fn drawn_identifiers_differ() {
    let mut tx = Tx::begin(0);
    let a = tx.draw();
    let b = tx.draw();
    assert_ne!(a, b);
    assert_eq!((a >> 76) & 0xf, 7);
}

#[test]
fn what_was_known_before_can_still_be_read() {
    let mut ledger = seed();
    arrive(&mut ledger, 10, "a", "2020-01-01", None, 1000);
    let known = |ledger: &Ledger, at: i64| -> Vec<(u128, Option<i64>)> {
        ledger
            .facts
            .iter()
            .filter(|f| f.recorded_at <= at && f.invalidated_at.map_or(true, |i| i > at))
            .map(|f| (f.id, f.valid_to))
            .collect()
    };
    let before = known(&ledger, 1999);
    arrive(&mut ledger, 11, "b", "2020-02-01", None, 2000);
    assert_eq!(known(&ledger, 1999), before);
    assert_ne!(known(&ledger, 2000), before);
}

#[test]
fn a_month_closes_on_its_first() {
    let mut ledger = seed();
    ledger.facts.push(fact(10, "a", Some("2022-01-01"), None, 1000));
    ledger.facts.push(fact(11, "b", Some("2023-06-01"), None, 2000));
    ledger.facts[1].valid_from = Some(t("2023-06-17"));
    ledger.facts[1].valid_from_precision = Some("month".to_string());
    let mut tx = Tx::begin(3000);
    let mut report = ReconcileReport::default();
    tidy(&mut ledger, &mut tx, &mut report, scope());
    let closed = ledger.facts.iter().find(|f| f.id == report.corrected[0]).unwrap();
    assert_eq!(closed.valid_to, Some(t("2023-06-01")));
    assert_eq!(closed.valid_to_precision.as_deref(), Some("month"));
}

#[test]
fn a_start_without_a_precision_closes_on_its_day() {
    let mut ledger = seed();
    ledger.facts.push(fact(10, "a", Some("2022-01-01"), None, 1000));
    ledger.facts.push(fact(11, "b", Some("2023-06-17"), None, 2000));
    ledger.facts[1].valid_from_precision = None;
    ledger.facts[1].valid_from = Some(t("2023-06-17") + 3_600_000_000);
    let mut tx = Tx::begin(3000);
    let mut report = ReconcileReport::default();
    tidy(&mut ledger, &mut tx, &mut report, scope());
    let closed = ledger.facts.iter().find(|f| f.id == report.corrected[0]).unwrap();
    assert_eq!(closed.valid_to, Some(t("2023-06-17")));
    assert_eq!(closed.valid_to_precision.as_deref(), Some("day"));
}

#[test]
fn the_date_of_a_document_is_never_written_as_an_end() {
    let mut ledger = seed();
    ledger.facts.push(fact(10, "a", Some("2022-01-01"), None, 1000));
    ledger.facts.push(fact(11, "b", None, None, 2000));
    ledger.documents.push(Document {
        id: 50,
        doc_time: Some(t("2023-05-05")),
        doc_time_source: Some("content".to_string()),
    });
    ledger.evidence.push(Evidence {
        fact_id: 11,
        chunk_id: Some(60),
        quote: None,
        proposed_predicate: None,
        document_id: Some(50),
        doc_version: Some(1),
    });
    let mut tx = Tx::begin(3000);
    let mut report = ReconcileReport::default();
    place(&mut ledger, &mut tx, &mut report, scope(), 11);
    assert_eq!(report.corrected.len(), 1);
    let closed = ledger.facts.iter().find(|f| f.id == report.corrected[0]).unwrap();
    assert_eq!(closed.valid_to, None);
    assert_eq!(closed.valid_to_precision.as_deref(), Some("unknown"));
    assert_eq!(closed.attested_to, Some(t("2023-05-05")));
    let row = load_timeline(&ledger, scope()).into_iter().find(|r| r.id == closed.id).unwrap();
    assert!(!row.is_open());
    assert_eq!(row.end(), Some(t("2023-05-05")));
}

#[test]
fn only_the_own_date_of_a_document_counts_and_the_earliest_of_them() {
    let mut ledger = seed();
    ledger.facts.push(fact(10, "a", None, None, 1000));
    for (id, date, source) in [
        (50, "2023-05-05", "content"),
        (51, "2023-04-04", "source"),
        (52, "2021-01-01", "upload"),
        (53, "2020-01-01", "mtime"),
    ] {
        ledger.documents.push(Document {
            id,
            doc_time: Some(t(date)),
            doc_time_source: Some(source.to_string()),
        });
        ledger.evidence.push(Evidence {
            fact_id: 10,
            chunk_id: None,
            quote: None,
            proposed_predicate: None,
            document_id: Some(id),
            doc_version: None,
        });
    }
    let rows = load_timeline(&ledger, scope());
    assert_eq!(rows[0].dated_at, Some(t("2023-04-04")));
    assert_eq!(rows[0].key(), Some(t("2023-04-04")));
}

#[test]
fn a_fact_without_a_time_closes_nothing() {
    let mut ledger = seed();
    ledger.facts.push(fact(10, "a", Some("2022-01-01"), None, 1000));
    ledger.facts.push(fact(11, "b", Some("2021-01-01"), Some("2021-06-01"), 1500));
    ledger.facts.push(fact(12, "c", None, None, 2000));
    let mut tx = Tx::begin(3000);
    let mut report = ReconcileReport::default();
    place(&mut ledger, &mut tx, &mut report, scope(), 12);
    assert_eq!(report.conflicts, 1);
    assert!(report.corrected.is_empty());
    assert_eq!(reasons(&ledger), vec![(10, 12, "no_time".to_string())]);
    assert_eq!(ledger.facts.len(), 3);
}

#[test]
fn what_starts_together_is_left_to_a_person() {
    let mut ledger = seed();
    ledger.facts.push(fact(10, "a", Some("2022-01-01"), None, 1000));
    ledger.facts.push(fact(11, "b", Some("2022-01-01"), Some("2022-02-01"), 1000));
    ledger.facts.push(fact(12, "c", Some("2022-01-01"), None, 2000));
    let mut tx = Tx::begin(3000);
    let mut report = ReconcileReport::default();
    place(&mut ledger, &mut tx, &mut report, scope(), 12);
    assert_eq!(report.conflicts, 2);
    assert_eq!(
        reasons(&ledger),
        vec![
            (10, 12, "simultaneous".to_string()),
            (11, 12, "simultaneous".to_string())
        ]
    );
    assert_eq!(ledger.conflicts[0].status, "open");
    assert_eq!(ledger.conflicts[0].created_at, 3000);
}

#[test]
fn a_row_without_a_time_ends_where_the_new_fact_starts() {
    let mut ledger = seed();
    ledger.facts.push(fact(10, "a", None, None, 1000));
    ledger.facts.push(fact(11, "b", Some("2022-01-01"), None, 2000));
    let mut tx = Tx::begin(3000);
    let mut report = ReconcileReport::default();
    place(&mut ledger, &mut tx, &mut report, scope(), 11);
    let closed = ledger.facts.iter().find(|f| f.id == report.corrected[0]).unwrap();
    assert_eq!(closed.supersedes, Some(10));
    assert_eq!(closed.valid_from, None);
    assert_eq!(closed.valid_to, Some(t("2022-01-01")));
}

#[test]
fn a_successor_of_low_confidence_rewrites_nothing() {
    let mut ledger = seed();
    ledger.facts.push(fact(10, "a", Some("2022-01-01"), None, 1000));
    ledger.facts.push(fact(11, "b", None, None, 1000));
    ledger.facts.push(fact(12, "c", Some("2023-01-01"), None, 2000));
    ledger.facts[2].confidence = sure(0.5);
    let mut tx = Tx::begin(3000);
    let mut report = ReconcileReport::default();
    place(&mut ledger, &mut tx, &mut report, scope(), 12);
    assert!(report.corrected.is_empty());
    assert_eq!(report.conflicts, 2);
    assert_eq!(
        reasons(&ledger),
        vec![
            (11, 12, "low_confidence".to_string()),
            (10, 12, "low_confidence".to_string())
        ]
    );
    assert_eq!(ledger.facts.len(), 3);
}

#[test]
fn the_threshold_of_confidence_is_three_quarters() {
    assert!(sure(0.74999).low());
    assert!(!sure(0.75).low());
    assert!(!sure(1.0).low());
    assert!(sure(0.0).low());
    assert!(sure(-0.0).low());
    assert!(sure(-1.0).low());
    assert!(sure(f32::NEG_INFINITY).low());
    assert!(!sure(f32::INFINITY).low());
    assert!(!sure(f32::NAN).low());
    for i in 0..200u32 {
        let value = i as f32 / 100.0 - 0.5;
        assert_eq!(sure(value).low(), value < 0.75, "{value}");
    }
}

#[test]
fn a_pair_is_left_to_a_person_once() {
    let mut ledger = seed();
    ledger.facts.push(fact(10, "a", Some("2022-01-01"), None, 1000));
    ledger.facts.push(fact(12, "c", None, None, 2000));
    for at in [3000, 4000] {
        let mut tx = Tx::begin(at);
        let mut report = ReconcileReport::default();
        place(&mut ledger, &mut tx, &mut report, scope(), 12);
        assert_eq!(report.conflicts, 1);
    }
    assert_eq!(ledger.conflicts.len(), 1);
    assert_eq!(ledger.conflicts[0].created_at, 3000);
}

#[test]
fn a_closed_interval_or_a_held_literal_is_not_reconciled() {
    let mut ledger = seed();
    ledger.facts.push(fact(10, "a", Some("2022-01-01"), None, 1000));
    ledger.facts.push(fact(11, "b", Some("2023-01-01"), None, 1000));
    let mut tx = Tx::begin(3000);
    let ended = Validity {
        from: Some(t("2023-01-01")),
        from_precision: Some("day"),
        to: None,
        to_precision: Some("unknown"),
    };
    let report = reconcile_new_fact(
        &mut ledger,
        &mut tx,
        KB,
        11,
        LEASE,
        DEADLINE,
        None,
        None,
        Uniqueness::SubjectSide,
        ended,
        sure(0.9),
    );
    assert!(report.corrected.is_empty() && report.conflicts == 0);
    let open = Validity::starting(Some(t("2023-01-01")), Some("day"));
    let report = reconcile_new_fact(
        &mut ledger,
        &mut tx,
        KB,
        11,
        LEASE,
        DEADLINE,
        None,
        None,
        Uniqueness::ObjectSide,
        open,
        sure(0.9),
    );
    assert!(report.corrected.is_empty() && report.conflicts == 0);
    assert!(ledger.changes.is_empty());
}

#[test]
fn an_object_has_one_subject_at_a_time() {
    let mut ledger = seed();
    for (id, subject, from) in [(10, 70, "2022-01-01"), (11, 71, "2023-01-01")] {
        let mut f = fact(id, "x", Some(from), None, 1000);
        f.subject_id = subject;
        f.object_id = Some(80);
        f.object_value = None;
        ledger.facts.push(f);
    }
    let mut tx = Tx::begin(3000);
    let report = reconcile_new_fact(
        &mut ledger,
        &mut tx,
        KB,
        11,
        71,
        DEADLINE,
        Some(80),
        None,
        Uniqueness::ObjectSide,
        Validity::starting(Some(t("2023-01-01")), Some("day")),
        sure(0.9),
    );
    assert_eq!(report.corrected.len(), 1);
    let closed = ledger.facts.iter().find(|f| f.id == report.corrected[0]).unwrap();
    assert_eq!(closed.subject_id, 70);
    assert_eq!(closed.valid_to, Some(t("2023-01-01")));
}

#[test]
fn a_tidy_timeline_stays_and_has_nothing_due() {
    let mut ledger = seed();
    arrive(&mut ledger, 10, "a", "2020-01-01", None, 1000);
    arrive(&mut ledger, 11, "b", "2020-02-01", None, 2000);
    let rows = load_timeline(&ledger, scope());
    assert_eq!(next_change(Uniqueness::SubjectSide, &rows, &Vec::new()), None);
    let changes = ledger.changes.len();
    let mut tx = Tx::begin(3000);
    let mut report = ReconcileReport::default();
    tidy(&mut ledger, &mut tx, &mut report, scope());
    assert_eq!(ledger.changes.len(), changes);
    assert!(report.corrected.is_empty() && report.conflicts == 0);
}

#[test]
fn what_is_due_is_a_row_and_its_successor() {
    let mut ledger = seed();
    ledger.facts.push(fact(10, "a", Some("2020-01-01"), None, 1000));
    ledger.facts.push(fact(11, "b", Some("2020-03-01"), None, 2000));
    ledger.facts.push(fact(12, "c", Some("2020-02-01"), None, 3000));
    let rows = load_timeline(&ledger, scope());
    assert_eq!(next_change(Uniqueness::SubjectSide, &rows, &Vec::new()), Some((0, 2)));
    assert_eq!(next_change(Uniqueness::SubjectSide, &rows, &vec![(10, 12)]), Some((2, 1)));
    ledger.facts[0].valid_to = Some(t("2020-03-01"));
    ledger.facts[0].valid_to_precision = Some("day".to_string());
    let rows = load_timeline(&ledger, scope());
    assert_eq!(next_change(Uniqueness::SubjectSide, &rows, &Vec::new()), Some((0, 2)), "a cut");
    assert_eq!(next_change(Uniqueness::SubjectSide, &rows, &vec![(10, 12)]), Some((2, 1)));
}

#[test]
fn tidying_stops_after_so_many_rounds() {
    let mut ledger = seed();
    for i in 0..66i64 {
        let mut f = fact(100 + i as u128, &format!("v{i}"), Some("2020-01-01"), None, 1000 + i);
        f.valid_from = Some(t("2020-01-01") + i * 86_400_000_000);
        ledger.facts.push(f);
    }
    let mut tx = Tx::begin(9000);
    let mut report = ReconcileReport::default();
    tidy(&mut ledger, &mut tx, &mut report, scope());
    assert_eq!(report.corrected.len(), 64);
    let open = load_timeline(&ledger, scope()).iter().filter(|r| r.is_open()).count();
    assert_eq!(open, 2, "65 rows have a successor, one more than there are rounds");
    tidy(&mut ledger, &mut tx, &mut report, scope());
    let open = load_timeline(&ledger, scope()).iter().filter(|r| r.is_open()).count();
    assert_eq!(open, 1);
}

#[test]
fn a_start_that_is_not_sharp_is_not_cut_at() {
    let mut ledger = seed();
    ledger.facts.push(fact(10, "a", Some("2020-01-01"), None, 1000));
    ledger.facts.push(fact(11, "b", Some("2020-03-01"), None, 2000));
    ledger.facts[1].valid_from = Some(t("2020-03-01") + 1);
    let mut tx = Tx::begin(3000);
    let mut report = ReconcileReport::default();
    place(&mut ledger, &mut tx, &mut report, scope(), 11);
    arrive(&mut ledger, 12, "c", "2020-02-01", None, 4000);
    let first = load_timeline(&ledger, scope())
        .into_iter()
        .find(|r| r.valid_from == Some(t("2020-01-01")))
        .unwrap();
    assert_eq!(first.end(), Some(t("2020-03-01")));
}

#[test]
fn a_fact_that_is_not_there_changes_nothing() {
    let mut ledger = seed();
    ledger.facts.push(fact(10, "a", Some("2020-01-01"), None, 1000));
    let mut tx = Tx::begin(3000);
    let mut report = ReconcileReport::default();
    place(&mut ledger, &mut tx, &mut report, scope(), 99);
    assert!(ledger.changes.is_empty());
    assert!(report.corrected.is_empty() && report.conflicts == 0);
}

/// The tables as texts, without the changes.
fn tables(ledger: &Ledger) -> String {
    format!(
        "{:?} {:?} {:?} {:?}",
        ledger.facts, ledger.evidence, ledger.qualifiers, ledger.conflicts
    )
}

#[test]
fn the_changes_make_the_tables() {
    let load = || {
        let mut ledger = seed();
        ledger.facts.push(fact(10, "a", Some("2020-01-01"), None, 1000));
        ledger.facts.push(fact(11, "b", Some("2020-03-01"), None, 2000));
        ledger.facts.push(fact(12, "c", Some("2020-02-01"), None, 3000));
        ledger.facts.push(fact(13, "d", Some("2020-02-01"), None, 3000));
        ledger.facts[3].confidence = sure(0.1);
        ledger.evidence.push(Evidence {
            fact_id: 10,
            chunk_id: Some(1),
            quote: Some("q".to_string()),
            proposed_predicate: None,
            document_id: None,
            doc_version: None,
        });
        ledger
    };
    let mut ledger = load();
    let mut tx = Tx::begin(5000);
    let mut report = ReconcileReport::default();
    for id in [13, 10] {
        place(&mut ledger, &mut tx, &mut report, scope(), id);
    }
    assert!(!report.corrected.is_empty() && report.conflicts > 0);
    let mut again = load();
    for change in &ledger.changes {
        match change {
            Change::Rewrite { replaced, fact, at } => again.rewrite(*replaced, fact.copied(), *at),
            Change::Invalidate { fact_id, at } => again.invalidate(*fact_id, *at),
            Change::Restore { fact_id } => again.restore(*fact_id),
            Change::Raise { conflict } => again.raise(conflict.copied()),
            other => panic!("{other:?}"),
        }
    }
    assert_eq!(tables(&again), tables(&ledger));
}

#[test]
fn an_unsure_value_in_the_middle_is_held_and_the_rest_is_handed_over() {
    let mut ledger = seed();
    arrive(&mut ledger, 10, "a", "2020-01-01", None, 1000);
    arrive(&mut ledger, 11, "b", "2020-06-01", None, 2000);
    ledger.facts.push(fact(12, "c", Some("2020-03-01"), None, 3000));
    ledger.facts.last_mut().unwrap().confidence = sure(0.6);
    let mut tx = Tx::begin(3000);
    let mut report = ReconcileReport::default();
    place(&mut ledger, &mut tx, &mut report, scope(), 12);
    assert_eq!(
        timeline(&ledger),
        vec![
            seg("a", "2020-01-01", Some("2020-06-01")),
            seg("c", "2020-03-01", Some("2020-06-01")),
            seg("b", "2020-06-01", None),
        ]
    );
    assert_eq!(report.corrected.len(), 1);
    assert_eq!(report.conflicts, 2, "once for each version of the unsure value");
    assert!(ledger.conflicts.iter().all(|c| c.reason == "low_confidence"));
    assert_eq!(ledger.conflicts[0].new_fact_id, 12);
    assert_eq!(ledger.conflicts[1].new_fact_id, report.corrected[0]);
}

#[test]
fn placing_once_more_changes_nothing() {
    let mut ledger = seed();
    arrive(&mut ledger, 10, "a", "2020-01-01", None, 1000);
    arrive(&mut ledger, 11, "b", "2020-06-01", None, 2000);
    let before = tables(&ledger);
    let mut tx = Tx::begin(3000);
    let mut report = ReconcileReport::default();
    place(&mut ledger, &mut tx, &mut report, scope(), 11);
    assert_eq!(tables(&ledger), before);
    assert!(report.corrected.is_empty() && report.conflicts == 0);
}

#[test]
fn to_say_the_same_is_an_equivalence() {
    let mut ledger = seed();
    for (k, text) in ["1.0", "1.00", "1e0", "2", "{\"a\": 1, \"b\": 2}", "{\"b\":2,\"a\":1}"]
        .iter()
        .enumerate()
    {
        let mut f = fact(10 + k as u128, "", None, None, k as i64);
        f.object_value = Some(text.to_string());
        ledger.facts.push(f);
    }
    let rows = load_timeline(&ledger, scope());
    let same = |a: usize, b: usize| same_value(Uniqueness::SubjectSide, &rows[a], &rows[b]);
    for a in 0..6 {
        assert!(same(a, a));
        for b in 0..6 {
            assert_eq!(same(a, b), same(b, a));
            for c in 0..6 {
                assert!(!(same(a, b) && same(b, c)) || same(a, c));
            }
        }
    }
    assert!(same(0, 1) && same(1, 2) && same(4, 5));
    assert!(!same(0, 3) && !same(0, 4));
}

#[test]
fn a_hundred_values_that_arrive_scattered_fall_into_sequence() {
    let start = |k: i64| day(t("2000-01-01") + k * 40 * 86_400_000_000);
    let mut ledger = seed();
    let mut reports = 0;
    for n in 0..101i64 {
        // Every place once, in no order.
        let k = n * 37 % 101;
        let report =
            arrive(&mut ledger, 1000 + k as u128, &format!("v{k}"), &start(k), None, 5000 + n);
        reports += report.conflicts;
    }
    let wanted: Vec<_> = (0..101i64)
        .map(|k| {
            let end = if k < 100 { Some(start(k + 1)) } else { None };
            seg(&format!("v{k}"), &start(k), end.as_deref())
        })
        .collect();
    assert_eq!(timeline(&ledger), wanted);
    assert_eq!(reports, 0);
    assert!(ledger.conflicts.is_empty());
}

#[test]
fn a_value_that_comes_back_has_two_intervals_in_any_order() {
    let facts = [("a", "2020-01-01"), ("b", "2020-03-01"), ("a", "2020-06-01"), ("a", "2020-06-01")];
    for order in [[0, 1, 2, 3], [2, 0, 3, 1], [3, 2, 1, 0], [1, 3, 0, 2]] {
        let mut ledger = seed();
        for (n, k) in order.iter().enumerate() {
            let (value, from) = facts[*k];
            arrive(&mut ledger, 1000 + *k as u128, value, from, None, 5000 + n as i64);
        }
        assert_eq!(
            timeline(&ledger),
            vec![
                seg("a", "2020-01-01", Some("2020-03-01")),
                seg("b", "2020-03-01", Some("2020-06-01")),
                seg("a", "2020-06-01", None),
                seg("a", "2020-06-01", None),
            ]
        );
        assert!(ledger.conflicts.is_empty());
    }
}
