use timber::alerter::{Engine, Outcome, Step, Trigger};
use timber::matcher::{MatchedLine, Rule};
use timber::parser::LogLine;
use timber::settings::ConfigError;

fn pairs(v: &[(&str, &str)]) -> Vec<(String, String)> {
    v.iter().map(|(a, b)| (a.to_string(), b.to_string())).collect()
}

fn strs(v: &[&str]) -> Vec<String> {
    v.iter().map(|s| s.to_string()).collect()
}

fn matched(rule: &str, fields: &[(&str, &str)]) -> MatchedLine {
    MatchedLine {
        rule: rule.to_string(),
        line: LogLine {
            year: Some(2021),
        month: Some(1),
        day: Some(1),
        hour: Some(0),
        minute: Some(0),
        second: Some(0),
            level: Some("info".to_string()),
            process: Some("sshd".to_string()),
            host: Some("h".to_string()),
            pid: None,
            message: Some("m".to_string()),
            raw: "r".to_string(),
        },
        fields: pairs(fields),
    }
}

fn step(rule: &str, constraints: &[&str]) -> Step {
    Step { rule: rule.to_string(), constraints: strs(constraints) }
}

fn trigger(name: &str, steps: Vec<Step>, keys: &[&str], window: u64) -> Trigger {
    Trigger { name: name.to_string(), steps, keys: strs(keys), window, init: Vec::new() }
}

fn brute_force() -> Engine {
    Engine::new(vec![trigger(
        "brute",
        vec![step("fail", &[]), step("fail", &["source_ip"]), step("ok", &["source_ip"])],
        &["source_ip"],
        60,
    )])
    .unwrap()
}

fn alerts(v: &[Outcome]) -> usize {
    v.iter().filter(|o| matches!(o, Outcome::Alert { .. })).count()
}

#[test]
fn three_steps_same_key_alert_once() {
    let mut e = brute_force();
    assert!(e.ingest(&matched("fail", &[("source_ip", "A")]), 0).is_empty());
    assert_eq!(e.state_count(), 1);
    assert!(e.ingest(&matched("fail", &[("source_ip", "A")]), 1).is_empty());
    let out = e.ingest(&matched("ok", &[("source_ip", "A")]), 2);
    assert_eq!(out.len(), 1);
    match &out[0] {
        Outcome::Alert { trigger, key, bound } => {
            assert_eq!(trigger, "brute");
            assert_eq!(key, &strs(&["A"]));
            assert_eq!(bound, &pairs(&[("source_ip", "A")]));
        }
        other => panic!("unexpected outcome {:?}", other),
    }
    assert_eq!(e.state_count(), 0);
    assert!(e.ingest(&matched("ok", &[("source_ip", "A")]), 3).is_empty());
}

#[test]
fn other_key_on_second_step_gives_no_alert() {
    let mut e = brute_force();
    assert!(e.ingest(&matched("fail", &[("source_ip", "A")]), 0).is_empty());
    assert!(e.ingest(&matched("fail", &[("source_ip", "B")]), 1).is_empty());
    assert_eq!(e.state_count(), 2);
    assert_eq!(alerts(&e.ingest(&matched("ok", &[("source_ip", "A")]), 2)), 0);
    assert_eq!(e.state_count(), 2);
    assert!(e.ingest(&matched("fail", &[("source_ip", "A")]), 3).is_empty());
    assert_eq!(alerts(&e.ingest(&matched("ok", &[("source_ip", "A")]), 4)), 1);
}

#[test]
fn expiry_then_fresh_start() {
    let mut e = Engine::new(vec![trigger("twice", vec![step("fail", &[]), step("fail", &[])], &["source_ip"], 10)])
        .unwrap();
    assert!(e.ingest(&matched("fail", &[("source_ip", "A")]), 0).is_empty());
    assert!(e.sweep(10).is_empty());
    assert_eq!(e.state_count(), 1);
    let out = e.sweep(11);
    assert_eq!(out.len(), 1);
    match &out[0] {
        Outcome::Expire { trigger, key } => {
            assert_eq!(trigger, "twice");
            assert_eq!(key, &strs(&["A"]));
        }
        other => panic!("unexpected outcome {:?}", other),
    }
    assert_eq!(e.state_count(), 0);
    assert!(e.ingest(&matched("fail", &[("source_ip", "A")]), 12).is_empty());
    assert_eq!(e.state_count(), 1);
}

#[test]
fn ingest_expires_before_advancing() {
    let mut e = Engine::new(vec![trigger("twice", vec![step("fail", &[]), step("fail", &[])], &["source_ip"], 10)])
        .unwrap();
    assert!(e.ingest(&matched("fail", &[("source_ip", "A")]), 0).is_empty());
    let out = e.ingest(&matched("fail", &[("source_ip", "A")]), 20);
    assert_eq!(out.len(), 1);
    assert!(matches!(out[0], Outcome::Expire { .. }));
    assert_eq!(e.state_count(), 1);
}

#[test]
fn keys_progress_independently() {
    let mut e = brute_force();
    e.ingest(&matched("fail", &[("source_ip", "A")]), 0);
    e.ingest(&matched("fail", &[("source_ip", "B")]), 0);
    e.ingest(&matched("fail", &[("source_ip", "A")]), 1);
    let out = e.ingest(&matched("ok", &[("source_ip", "A")]), 2);
    assert_eq!(out.len(), 1);
    match &out[0] {
        Outcome::Alert { key, .. } => assert_eq!(key, &strs(&["A"])),
        other => panic!("unexpected outcome {:?}", other),
    }
    assert_eq!(e.state_count(), 1);
    e.ingest(&matched("fail", &[("source_ip", "B")]), 3);
    let out = e.ingest(&matched("ok", &[("source_ip", "B")]), 4);
    assert_eq!(alerts(&out), 1);
}

#[test]
fn single_step_fires_at_once() {
    let mut e = Engine::new(vec![trigger("root", vec![step("root_login", &[])], &["user"], 5)]).unwrap();
    let out = e.ingest(&matched("root_login", &[("user", "root")]), 0);
    assert_eq!(alerts(&out), 1);
    assert_eq!(e.state_count(), 0);
    assert_eq!(alerts(&e.ingest(&matched("root_login", &[("user", "root")]), 1)), 1);
}

#[test]
fn missing_key_field_skips_trigger() {
    let mut e = brute_force();
    assert!(e.ingest(&matched("fail", &[("user", "x")]), 0).is_empty());
    assert_eq!(e.state_count(), 0);
}

#[test]
fn init_seeds_key_and_bound_values() {
    let mut t = trigger("seeded", vec![step("a", &[]), step("b", &["zone"])], &["zone"], 10);
    t.init = pairs(&[("zone", "dmz")]);
    let mut e = Engine::new(vec![t]).unwrap();
    assert!(e.ingest(&matched("a", &[]), 0).is_empty());
    assert_eq!(e.state_count(), 1);
    assert!(e.ingest(&matched("b", &[("zone", "lan")]), 1).is_empty());
    assert!(e.ingest(&matched("b", &[]), 2).is_empty());
    assert_eq!(e.state_count(), 1);
    let out = e.ingest(&matched("b", &[("zone", "dmz")]), 3);
    assert_eq!(out.len(), 1);
    match &out[0] {
        Outcome::Alert { key, bound, .. } => {
            assert_eq!(key, &strs(&["dmz"]));
            assert_eq!(bound, &pairs(&[("zone", "dmz")]));
        }
        other => panic!("unexpected outcome {:?}", other),
    }
}

#[test]
fn constraint_mismatch_leaves_state() {
    let mut e = Engine::new(vec![trigger(
        "same_user",
        vec![step("login", &[]), step("sudo", &["user"])],
        &[],
        100,
    )])
    .unwrap();
    assert!(e.ingest(&matched("login", &[("user", "alice")]), 0).is_empty());
    assert!(e.ingest(&matched("sudo", &[("user", "bob")]), 1).is_empty());
    assert_eq!(e.state_count(), 1);
    let out = e.ingest(&matched("sudo", &[("user", "alice")]), 2);
    assert_eq!(out.len(), 1);
    match &out[0] {
        Outcome::Alert { key, bound, .. } => {
            assert!(key.is_empty());
            assert_eq!(bound, &pairs(&[("user", "alice")]));
        }
        other => panic!("unexpected outcome {:?}", other),
    }
}

#[test]
fn one_event_advances_several_triggers() {
    let mut e = Engine::new(vec![
        trigger("t1", vec![step("x", &[])], &[], 1),
        trigger("t2", vec![step("x", &[])], &[], 1),
    ])
    .unwrap();
    assert_eq!(alerts(&e.ingest(&matched("x", &[]), 0)), 2);
}

#[test]
fn duplicate_trigger_names_are_refused() {
    let r = Engine::new(vec![trigger("t", vec![step("x", &[])], &[], 1), trigger("t", vec![step("y", &[])], &[], 1)]);
    assert_eq!(r.err(), Some(ConfigError::DuplicateTrigger));
}

#[test]
fn trigger_without_steps_is_refused() {
    let r = Engine::new(vec![trigger("t", vec![], &[], 1)]);
    assert_eq!(r.err(), Some(ConfigError::EmptyTrigger));
}

#[test]
fn evict_oldest_drops_earliest_state() {
    let mut e = brute_force();
    assert!(e.evict_oldest().is_none());
    e.ingest(&matched("fail", &[("source_ip", "A")]), 5);
    e.ingest(&matched("fail", &[("source_ip", "B")]), 3);
    e.ingest(&matched("fail", &[("source_ip", "C")]), 4);
    match e.evict_oldest() {
        Some(Outcome::Expire { trigger, key }) => {
            assert_eq!(trigger, "brute");
            assert_eq!(key, strs(&["B"]));
        }
        other => panic!("unexpected outcome {:?}", other),
    }
    assert_eq!(e.state_count(), 2);
}

#[test]
fn constrained_fields_must_be_captured() {
    let rules = vec![
        Rule::new("fail", "sshd", "^Failed .* from (?P<source_ip>\\S+)").unwrap(),
        Rule::new("ok", "sshd", "^Accepted .* from (?P<ip>\\S+)").unwrap(),
    ];
    assert!(rules[0].declares("source_ip"));
    assert!(!rules[0].declares("ip"));
    assert_eq!(rules[1].name(), "ok");
    let good = trigger("g", vec![step("fail", &[]), step("fail", &["source_ip"])], &["source_ip"], 5);
    assert_eq!(good.check_fields(&rules), Ok(()));
    let bad = trigger("b", vec![step("fail", &[]), step("ok", &["source_ip"])], &["source_ip"], 5);
    assert_eq!(bad.check_fields(&rules), Err(ConfigError::UnknownField));
    let missing = trigger("m", vec![step("nope", &["x"])], &[], 5);
    assert_eq!(missing.check_fields(&rules), Err(ConfigError::UnknownField));
}
