//! Corrections: a fact is invalidated and rewritten.

use chrono::NaiveDate;
use temporal_ledger::confidence::Confidence;
use temporal_ledger::ledger::{Change, Evidence, Fact, Ledger, Qualifier, RelationType};
use temporal_ledger::lock::lock_key;
use temporal_ledger::rewrite::{close_superseded, close_with_unknown_end, correct_interval, Tx};
use temporal_ledger::timeline::{Scope, Uniqueness};
use temporal_ledger::validity::{truncate_to, Validity};

fn t(day: &str) -> i64 {
    NaiveDate::parse_from_str(day, "%Y-%m-%d")
        .unwrap()
        .and_hms_opt(0, 0, 0)
        .unwrap()
        .and_utc()
        .timestamp_micros()
}

fn seed(temporal: &str) -> Ledger {
    let mut ledger = Ledger::new();
    ledger.relations.push(RelationType {
        id: 3,
        kb_id: 1,
        key: "office".to_string(),
        label: "office".to_string(),
        kind: "relation".to_string(),
        temporal: temporal.to_string(),
        functional: true,
        inverse_functional: false,
        builtin: false,
    });
    ledger.facts.push(Fact {
        id: 10,
        kb_id: 1,
        subject_id: 2,
        predicate_id: Some(3),
        object_id: Some(4),
        object_value: None,
        valid_from: Some(t("2020-01-01")),
        valid_from_precision: Some("day".to_string()),
        valid_to: None,
        valid_to_precision: None,
        confidence: Confidence { bits: 0.9f32.to_bits() },
        supersedes: None,
        attested_from: Some(7),
        attested_to: Some(8),
        recorded_at: 1000,
        invalidated_at: None,
    });
    ledger.evidence.push(Evidence {
        fact_id: 10,
        chunk_id: Some(60),
        quote: Some("was appointed".to_string()),
        proposed_predicate: Some("appointed".to_string()),
        document_id: Some(50),
        doc_version: Some(2),
    });
    ledger.evidence.push(Evidence {
        fact_id: 99,
        chunk_id: Some(61),
        quote: None,
        proposed_predicate: None,
        document_id: None,
        doc_version: None,
    });
    ledger.qualifiers.push(Qualifier {
        fact_id: 10,
        qualifier_type_id: 70,
        value: Some("\"chair\"".to_string()),
        entity_id: Some(71),
    });
    ledger
}

#[test]
fn closing_rewrites_the_fact_with_its_evidence_and_qualifiers() {
    let mut ledger = seed("state");
    let mut tx = Tx::begin(2000);
    let id = close_superseded(&mut ledger, &mut tx, 10, t("2021-06-17"), "month").unwrap();
    assert_eq!(ledger.facts.len(), 2);
    assert_eq!(ledger.facts[0].invalidated_at, Some(2000));
    let f = &ledger.facts[1];
    assert_eq!(f.id, id);
    assert_eq!(f.valid_to, Some(t("2021-06-01")));
    assert_eq!(f.valid_to_precision.as_deref(), Some("month"));
    assert_eq!(f.supersedes, Some(10));
    assert_eq!(f.attested_from, Some(7));
    assert_eq!(f.attested_to, None);
    assert_eq!((f.subject_id, f.object_id, f.predicate_id), (2, Some(4), Some(3)));
    assert_eq!(f.confidence.bits, 0.9f32.to_bits());
    assert_eq!(ledger.evidence.len(), 3);
    let e = &ledger.evidence[2];
    assert_eq!((e.fact_id, e.chunk_id, e.document_id, e.doc_version), (id, Some(60), Some(50), Some(2)));
    assert_eq!(e.quote.as_deref(), Some("was appointed"));
    assert_eq!(e.proposed_predicate.as_deref(), Some("appointed"));
    assert_eq!(ledger.qualifiers.len(), 2);
    let q = &ledger.qualifiers[1];
    assert_eq!((q.fact_id, q.qualifier_type_id, q.entity_id), (id, 70, Some(71)));
    assert_eq!(q.value.as_deref(), Some("\"chair\""));
    assert_eq!(ledger.changes.len(), 1);
    assert!(matches!(&ledger.changes[0], Change::Rewrite { replaced: 10, at: 2000, fact } if fact.id == id));
}

#[test]
fn what_is_not_present_is_not_closed() {
    let mut ledger = seed("state");
    let mut tx = Tx::begin(2000);
    assert!(close_superseded(&mut ledger, &mut tx, 10, t("2021-01-01"), "day").is_some());
    assert_eq!(close_superseded(&mut ledger, &mut tx, 10, t("2022-01-01"), "day"), None);
    assert_eq!(close_superseded(&mut ledger, &mut tx, 11, t("2022-01-01"), "day"), None);
    assert_eq!(close_with_unknown_end(&mut ledger, &mut tx, 10, None), None);
    assert_eq!(
        correct_interval(&mut ledger, &mut tx, 10, Validity::starting(None, None)),
        None
    );
    assert_eq!(ledger.changes.len(), 1);
}

#[test]
fn an_unknown_end_is_anchored_where_it_was_told() {
    let mut ledger = seed("state");
    let mut tx = Tx::begin(2000);
    let id = close_with_unknown_end(&mut ledger, &mut tx, 10, Some(1234)).unwrap();
    let f = &ledger.facts[1];
    assert_eq!(f.id, id);
    assert_eq!(f.valid_to, None);
    assert_eq!(f.valid_to_precision.as_deref(), Some("unknown"));
    assert_eq!(f.attested_to, Some(1234));
    assert_eq!(f.attested_from, Some(7));
    assert_eq!(close_with_unknown_end(&mut ledger, &mut tx, id, Some(1)), None, "it has ended");
}

#[test]
fn an_unknown_end_without_an_anchor_is_told_now() {
    let mut ledger = seed("state");
    let mut tx = Tx::begin(2000);
    close_with_unknown_end(&mut ledger, &mut tx, 10, None).unwrap();
    assert_eq!(ledger.facts[1].attested_to, Some(2000));
}

#[test]
fn an_interval_is_corrected_by_hand() {
    let mut ledger = seed("state");
    let mut tx = Tx::begin(2000);
    let validity = Validity {
        from: Some(t("2023-08-20")),
        from_precision: Some("year"),
        to: Some(t("2024-02-29") + 5),
        to_precision: Some("day"),
    };
    let id = correct_interval(&mut ledger, &mut tx, 10, validity).unwrap();
    let f = &ledger.facts[1];
    assert_eq!(f.id, id);
    assert_eq!(f.valid_from, Some(t("2023-01-01")));
    assert_eq!(f.valid_from_precision.as_deref(), Some("year"));
    assert_eq!(f.valid_to, Some(t("2024-02-29")));
    assert_eq!(f.valid_to_precision.as_deref(), Some("day"));
    assert_eq!(f.attested_to, None);
    assert_eq!(ledger.facts[0].valid_from, Some(t("2020-01-01")), "not edited in place");
    assert_eq!(ledger.facts[0].invalidated_at, Some(2000));
}

#[test]
fn a_corrected_unknown_end_keeps_its_anchor() {
    let mut ledger = seed("state");
    let mut tx = Tx::begin(2000);
    let validity =
        Validity { from: None, from_precision: None, to: None, to_precision: Some("unknown") };
    correct_interval(&mut ledger, &mut tx, 10, validity).unwrap();
    assert_eq!(ledger.facts[1].attested_to, Some(8));
    let mut ledger = seed("state");
    ledger.facts[0].attested_to = None;
    correct_interval(&mut ledger, &mut tx, 10, validity).unwrap();
    assert_eq!(ledger.facts[1].attested_to, Some(2000));
}

#[test]
fn an_event_is_left_with_its_moment() {
    let mut ledger = seed("event");
    let mut tx = Tx::begin(2000);
    let span = Validity {
        from: Some(t("2023-08-20")),
        from_precision: Some("day"),
        to: Some(t("2024-02-29")),
        to_precision: Some("day"),
    };
    correct_interval(&mut ledger, &mut tx, 10, span).unwrap();
    assert_eq!(ledger.facts[1].valid_from, Some(t("2023-08-20")));
    assert_eq!(ledger.facts[1].valid_to, None);
    assert_eq!(ledger.facts[1].valid_to_precision, None);
    let mut ledger = seed("event");
    let end = Validity { from: None, from_precision: None, ..span };
    correct_interval(&mut ledger, &mut tx, 10, end).unwrap();
    assert_eq!(ledger.facts[1].valid_from, Some(t("2024-02-29")));
    assert_eq!(ledger.facts[1].valid_to, None);
}

#[test]
fn moments_are_cut_down_to_their_precision() {
    let at = t("2024-02-29") + 45_296_000_001;
    assert_eq!(truncate_to(at, Some("day")), t("2024-02-29"));
    assert_eq!(truncate_to(at, Some("month")), t("2024-02-01"));
    assert_eq!(truncate_to(at, Some("year")), t("2024-01-01"));
    assert_eq!(truncate_to(at, Some("unknown")), at);
    assert_eq!(truncate_to(at, None), at);
    let old = t("1969-12-31") + 1;
    assert_eq!(truncate_to(old, Some("day")), t("1969-12-31"));
    assert_eq!(truncate_to(old, Some("month")), t("1969-12-01"));
    assert_eq!(truncate_to(old, Some("year")), t("1969-01-01"));
    assert_eq!(truncate_to(i64::MAX, Some("day")), i64::MAX, "beyond the calendar");
    assert_eq!(truncate_to(i64::MIN, Some("year")), i64::MIN, "beyond the calendar");
    for precision in ["day", "month", "year"] {
        let once = truncate_to(at, Some(precision));
        assert_eq!(truncate_to(once, Some(precision)), once);
    }
}

#[test]
fn the_calendar_begins_and_ends_where_it_is_said_to() {
    let first = temporal_ledger::outside::FIRST_MICRO;
    let last = temporal_ledger::outside::LAST_MICRO;
    let date = |m: i64| chrono::DateTime::<chrono::Utc>::from_timestamp_micros(m);
    assert!(date(first).is_some() && date(first - 1).is_none());
    assert!(date(last).is_some() && date(last + 1).is_none());
    assert_eq!(truncate_to(first + 1, Some("day")), first);
    assert_eq!(truncate_to(first + 1, Some("month")), first);
    assert_eq!(truncate_to(first + 1, Some("year")), first);
    assert_eq!(truncate_to(first - 1, Some("year")), first - 1);
    assert_eq!(truncate_to(last, Some("day")), last - 86_399_999_999);
    assert_eq!(truncate_to(last + 1, Some("day")), last + 1);
}

#[test]
fn a_timeline_is_locked_under_its_own_name() {
    let scope = Scope {
        kb_id: 0x936d_a01f_9abd_4d9d_80c7_02af_85c8_22a8,
        holder: 1,
        predicate_id: u128::MAX,
        side: Uniqueness::SubjectSide,
    };
    assert_eq!(
        lock_key(scope),
        "timeline:936da01f-9abd-4d9d-80c7-02af85c822a8:00000000-0000-0000-0000-000000000001:ffffffff-ffff-ffff-ffff-ffffffffffff:SubjectSide"
    );
    let other = Scope { side: Uniqueness::ObjectSide, ..scope };
    assert!(lock_key(other).ends_with(":ObjectSide"));
    assert_ne!(lock_key(scope), lock_key(other));
}

#[test]
fn a_fact_is_closed_once() {
    let mut ledger = seed("state");
    let mut tx = Tx::begin(5000);
    let first = close_superseded(&mut ledger, &mut tx, 10, t("2021-01-01"), "day");
    assert!(first.is_some());
    assert_eq!(close_superseded(&mut ledger, &mut tx, 10, t("2022-01-01"), "day"), None);
    assert_eq!(close_with_unknown_end(&mut ledger, &mut tx, 10, None), None);
    let successors: Vec<u128> =
        ledger.facts.iter().filter(|f| f.supersedes == Some(10)).map(|f| f.id).collect();
    assert_eq!(successors, vec![first.unwrap()]);
    assert_eq!(ledger.changes.len(), 1);
}

#[test]
fn an_interval_is_corrected_once() {
    let mut ledger = seed("state");
    let mut tx = Tx::begin(5000);
    let first = correct_interval(&mut ledger, &mut tx, 10, Validity::starting(None, None));
    assert!(first.is_some());
    let other = Validity::starting(Some(t("2022-01-01")), Some("day"));
    assert_eq!(correct_interval(&mut ledger, &mut tx, 10, other), None);
    assert_eq!(ledger.facts.iter().filter(|f| f.supersedes == Some(10)).count(), 1);
    assert_eq!(ledger.changes.len(), 1);
}

#[test]
fn leap_years_are_those_of_the_calendar() {
    for (at, month, year) in [
        ("2000-02-29", "2000-02-01", "2000-01-01"),
        ("2100-03-01", "2100-03-01", "2100-01-01"),
        ("1900-12-31", "1900-12-01", "1900-01-01"),
        ("1600-12-31", "1600-12-01", "1600-01-01"),
        ("0004-02-29", "0004-02-01", "0004-01-01"),
        ("1969-12-31", "1969-12-01", "1969-01-01"),
        ("1970-01-01", "1970-01-01", "1970-01-01"),
        ("2024-12-31", "2024-12-01", "2024-01-01"),
    ] {
        let moment = t(at) + 86_399_999_999;
        assert_eq!(truncate_to(moment, Some("day")), t(at), "{at}");
        assert_eq!(truncate_to(moment, Some("month")), t(month), "{at}");
        assert_eq!(truncate_to(moment, Some("year")), t(year), "{at}");
    }
}
