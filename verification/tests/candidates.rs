//! Relations that look unique, and what reconciling them would come to.

use chrono::{TimeZone, Utc};
use temporal_ledger::candidates::{
    literal_name, plan_closures, uniqueness_candidates, Literal, OpenValue, EXAMPLE_HOLDERS,
};
use temporal_ledger::confidence::Confidence;
use temporal_ledger::ledger::{Entity, Fact, Ledger, RelationType};

fn v(from: Option<(i32, u32, u32)>, confidence: f32) -> OpenValue {
    OpenValue {
        fact_id: uuid::Uuid::now_v7().as_u128(),
        name: String::new(),
        valid_from: from
            .map(|(y, m, d)| Utc.with_ymd_and_hms(y, m, d, 0, 0, 0).unwrap().timestamp_micros()),
        confidence: Confidence { bits: confidence.to_bits() },
    }
}

#[test]
fn a_chain_of_three_closes_twice() {
    let values = [
        v(Some((2023, 2, 1)), 0.9),
        v(Some((2024, 7, 5)), 0.9),
        v(Some((2025, 9, 1)), 0.9),
    ];
    assert_eq!(plan_closures(&values), (2, 0));
}

#[test]
fn what_the_engine_would_not_close_goes_to_review() {
    // They start on the same day.
    assert_eq!(
        plan_closures(&[v(Some((2024, 1, 1)), 0.9), v(Some((2024, 1, 1)), 0.9)]),
        (0, 1)
    );
    // Neither has a start.
    assert_eq!(plan_closures(&[v(None, 0.9), v(None, 0.9)]), (0, 1));
    // The earlier one is not sure enough to rewrite history.
    assert_eq!(
        plan_closures(&[v(Some((2023, 1, 1)), 0.5), v(Some((2024, 1, 1)), 0.9)]),
        (0, 1)
    );
    // The other has no start: it ends where this one starts.
    assert_eq!(
        plan_closures(&[v(Some((2023, 1, 1)), 0.9), v(None, 0.9)]),
        (1, 0)
    );
    // One is no pair.
    assert_eq!(plan_closures(&[v(Some((2023, 1, 1)), 0.9)]), (0, 0));
    // Three without a start: three pairs of which none can be told.
    assert_eq!(
        plan_closures(&[v(None, 0.9), v(None, 0.9), v(None, 0.9)]),
        (0, 3)
    );
    // One with a start closes two without: both end where it starts.
    assert_eq!(
        plan_closures(&[v(Some((2023, 1, 1)), 0.9), v(None, 0.9), v(None, 0.9)]),
        (2, 0)
    );
}

#[test]
fn a_literal_reads_as_a_value_with_its_unit() {
    let mut amount = serde_json::Map::new();
    amount.insert("value".to_string(), serde_json::Value::from(28000));
    amount.insert("unit".to_string(), serde_json::Value::from("CNY"));
    assert_eq!(
        literal_name(&serde_json::Value::Object(amount).to_string()),
        "28000 CNY"
    );
    let mut title = serde_json::Map::new();
    title.insert("value".to_string(), serde_json::Value::from("Staff Engineer"));
    assert_eq!(
        literal_name(&serde_json::Value::Object(title).to_string()),
        "Staff Engineer"
    );
    assert_eq!(literal_name(&serde_json::Value::from(32000).to_string()), "32000");
    assert_eq!(literal_name(&serde_json::Value::from("plain").to_string()), "plain");
}

#[test]
fn a_literal_that_has_no_value_reads_as_it_is() {
    assert_eq!(literal_name("{ \"unit\" : \"CNY\" }"), "{\"unit\":\"CNY\"}");
    assert_eq!(literal_name("[1,  2]"), "[1,2]");
    assert_eq!(literal_name(" true "), "true");
    assert_eq!(literal_name("null"), "null");
    assert_eq!(literal_name("{\"value\": null}"), "null");
    assert_eq!(literal_name("{\"value\": {\"a\": 1}, \"unit\": \"m\"}"), "{\"a\":1} m");
    assert_eq!(literal_name("{\"value\": 5, \"unit\": \"\"}"), "5");
    assert_eq!(literal_name("{\"value\": 5, \"unit\": 7}"), "5");
    assert_eq!(literal_name("\"a \\\"b\\\"\""), "a \"b\"");
    assert_eq!(literal_name("not json"), "not json");
}

#[test]
fn what_was_read_of_a_literal_tells_how_it_reads() {
    let text = |s: &str| Some(s.to_string());
    let bare = || Literal {
        text: None,
        value: None,
        value_text: None,
        unit: None,
        whole: "{}".to_string(),
    };
    assert_eq!(bare().read(), "{}");
    assert_eq!(Literal { text: text("x"), ..bare() }.read(), "x");
    assert_eq!(Literal { value: text("3"), ..bare() }.read(), "3");
    assert_eq!(Literal { value: text("3"), unit: text("m"), ..bare() }.read(), "3 m");
    assert_eq!(
        Literal { value: text("\"a\""), value_text: text("a"), unit: text(""), ..bare() }.read(),
        "a"
    );
}

#[test]
fn an_observation_closes_itself_and_later_ones_close_what_has_no_start() {
    let low = v(Some((2022, 1, 1)), 0.5);
    let a = v(Some((2023, 1, 1)), 0.9);
    let b = v(None, 0.9);
    assert_eq!(plan_closures(&[low, a, b]), (1, 2));
    let late = v(Some((2024, 1, 1)), 0.9);
    let early = v(Some((2023, 1, 1)), 0.9);
    assert_eq!(plan_closures(&[late, early]), (1, 0), "an earlier one behind is closed");
    assert_eq!(plan_closures(&[]), (0, 0));
}

const KB: u128 = 1;

fn relation(id: u128, key: &str, kind: &str, functional: bool, inverse: bool) -> RelationType {
    RelationType {
        id,
        kb_id: KB,
        key: key.to_string(),
        label: format!("the {key}"),
        kind: kind.to_string(),
        temporal: "state".to_string(),
        functional,
        inverse_functional: inverse,
        builtin: false,
    }
}

fn open(id: u128, subject: u128, predicate: u128, object: Option<u128>, value: Option<&str>, from: Option<i64>) -> Fact {
    Fact {
        id,
        kb_id: KB,
        subject_id: subject,
        predicate_id: Some(predicate),
        object_id: object,
        object_value: value.map(|s| s.to_string()),
        valid_from: from,
        valid_from_precision: None,
        valid_to: None,
        valid_to_precision: None,
        confidence: Confidence { bits: 0.9f32.to_bits() },
        supersedes: None,
        attested_from: None,
        attested_to: None,
        recorded_at: id as i64,
        invalidated_at: None,
    }
}

fn people() -> Ledger {
    let mut ledger = Ledger::new();
    for (id, name) in [(20, "Ada"), (21, "Bob"), (22, "Cyd"), (23, "Dan"), (24, "Eve")] {
        ledger.entities.push(Entity { id, canonical_name: name.to_string() });
    }
    ledger.relations.push(relation(30, "leads", "relation", false, true));
    ledger.relations.push(relation(31, "salary", "attribute", false, false));
    ledger
}

#[test]
fn holders_with_two_open_values_are_candidates() {
    let mut ledger = people();
    ledger.facts.push(open(100, 20, 31, None, Some("{\"value\": 2, \"unit\": \"EUR\"}"), Some(50)));
    ledger.facts.push(open(101, 20, 31, None, Some("{\"value\": 1, \"unit\": \"EUR\"}"), Some(40)));
    ledger.facts.push(open(102, 21, 31, None, Some("3"), Some(40)));
    ledger.facts.push(open(103, 21, 31, None, Some("3"), Some(60)));
    let found = uniqueness_candidates(&ledger, KB);
    assert_eq!(found.len(), 1, "one value told twice is one value");
    let c = &found[0];
    assert_eq!((c.predicate_id, c.side, c.declared), (31, "subject", false));
    assert_eq!((c.key.as_str(), c.label.as_str(), c.kind.as_str()), ("salary", "the salary", "attribute"));
    assert_eq!((c.holders, c.open_facts, c.would_close, c.would_review), (1, 2, 1, 0));
    assert_eq!(c.examples[0].holder, "Ada");
    let names: Vec<_> = c.examples[0].values.iter().map(|v| (v.fact_id, v.name.as_str())).collect();
    assert_eq!(names, vec![(101, "1 EUR"), (100, "2 EUR")], "in the order of time");
}

#[test]
fn both_sides_are_looked_at() {
    let mut ledger = people();
    ledger.facts.push(open(100, 20, 30, Some(22), None, None));
    ledger.facts.push(open(101, 21, 30, Some(22), None, Some(40)));
    ledger.facts.push(open(102, 21, 30, Some(23), None, Some(50)));
    let found = uniqueness_candidates(&ledger, KB);
    let sides: Vec<_> = found.iter().map(|c| (c.side, c.declared, c.holders)).collect();
    assert_eq!(sides, vec![("subject", false, 1), ("object", true, 1)]);
    let subject: Vec<_> = found[0].examples[0].values.iter().map(|v| v.name.as_str()).collect();
    assert_eq!(found[0].examples[0].holder, "Bob");
    assert_eq!(subject, vec!["Cyd", "Dan"]);
    let object: Vec<_> = found[1].examples[0].values.iter().map(|v| v.name.as_str()).collect();
    assert_eq!(found[1].examples[0].holder, "Cyd");
    assert_eq!(object, vec!["Bob", "Ada"], "what has no start comes last");
    assert_eq!((found[1].would_close, found[1].would_review), (1, 0));
}

#[test]
fn names_ended_facts_and_events_are_no_evidence_of_uniqueness() {
    let mut ledger = people();
    ledger.relations.push(relation(32, "known_as", "attribute", false, false));
    ledger.relations[2].builtin = true;
    ledger.relations.push(relation(33, "met", "relation", false, false));
    ledger.relations[3].temporal = "event".to_string();
    ledger.facts.push(open(100, 20, 32, None, Some("\"A\""), None));
    ledger.facts.push(open(101, 20, 32, None, Some("\"B\""), None));
    ledger.facts.push(open(102, 20, 33, Some(21), None, None));
    ledger.facts.push(open(103, 20, 33, Some(22), None, None));
    ledger.facts.push(open(104, 20, 31, None, Some("1"), None));
    ledger.facts.push(open(105, 20, 31, None, Some("2"), None));
    ledger.facts[5].valid_to_precision = Some("unknown".to_string());
    ledger.facts.push(open(106, 20, 31, None, Some("3"), None));
    ledger.facts[6].invalidated_at = Some(5);
    ledger.facts.push(open(107, 20, 31, None, Some("4"), None));
    ledger.facts[7].kb_id = 99;
    ledger.facts.push(open(108, 20, 31, None, None, None));
    assert!(uniqueness_candidates(&ledger, KB).is_empty());
    ledger.relations[2].builtin = false;
    let found = uniqueness_candidates(&ledger, KB);
    assert_eq!(found.len(), 1);
    assert_eq!((found[0].predicate_id, found[0].would_review), (32, 1));
}

#[test]
fn so_many_holders_are_shown_and_all_are_counted() {
    let mut ledger = people();
    for (n, holder) in [20u128, 21, 22, 23, 24].into_iter().enumerate() {
        let id = 100 + 10 * n as u128;
        ledger.facts.push(open(id, holder, 31, None, Some("1"), Some(10)));
        ledger.facts.push(open(id + 1, holder, 31, None, Some("2"), Some(20)));
    }
    let found = uniqueness_candidates(&ledger, KB);
    assert_eq!(found[0].holders, 5);
    assert_eq!(found[0].open_facts, 10);
    assert_eq!(found[0].would_close, 5);
    assert_eq!(found[0].examples.len(), EXAMPLE_HOLDERS);
    let shown: Vec<_> = found[0].examples.iter().map(|e| e.holder.as_str()).collect();
    assert_eq!(shown, vec!["Ada", "Bob", "Cyd"]);
}

#[test]
fn two_holders_of_one_name_are_two() {
    let mut ledger = people();
    ledger.entities[1].canonical_name = "Ada".to_string();
    for (id, holder, value) in [(100, 20, "1"), (101, 20, "2"), (102, 21, "1"), (103, 21, "2")] {
        ledger.facts.push(open(id, holder, 31, None, Some(value), Some(id as i64)));
    }
    let found = uniqueness_candidates(&ledger, KB);
    assert_eq!((found[0].holders, found[0].would_close), (2, 2));
}

#[test]
fn a_value_without_a_name_is_a_question() {
    let mut ledger = people();
    ledger.facts.push(open(100, 20, 30, Some(900), None, Some(1)));
    ledger.facts.push(open(101, 20, 30, Some(21), None, Some(2)));
    let found = uniqueness_candidates(&ledger, KB);
    let names: Vec<_> = found[0].examples[0].values.iter().map(|v| v.name.as_str()).collect();
    assert_eq!(names, vec!["?", "Bob"]);
}
