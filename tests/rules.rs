use timber::matcher::{classify, Rule};
use timber::parser::LogLine;
use timber::settings::ConfigError;

fn line(process: &str, message: &str) -> LogLine {
    LogLine {
        year: Some(2021),
        month: Some(1),
        day: Some(2),
        hour: Some(3),
        minute: Some(4),
        second: Some(5),
        level: Some("info".to_string()),
        process: Some(process.to_string()),
        host: Some("h".to_string()),
        pid: None,
        message: Some(message.to_string()),
        raw: String::new(),
    }
}

fn pairs(v: &[(&str, &str)]) -> Vec<(String, String)> {
    v.iter().map(|(a, b)| (a.to_string(), b.to_string())).collect()
}

#[test]
fn rule_line_is_read() {
    let r = Rule::from_string("fail:sshd:auth:^Failed password for (?P<user>\\w+)").unwrap();
    let m = r.is_match(&line("sshd", "Failed password for root")).unwrap();
    assert_eq!(m.rule, "fail");
    assert_eq!(m.fields, pairs(&[("user", "root")]));
    assert_eq!(m.line.message(), Some("Failed password for root"));
}

#[test]
fn rule_pattern_may_hold_colons() {
    let r = Rule::from_string("port:app:x:^port: (?P<port>\\d+)$").unwrap();
    let m = r.is_match(&line("app", "port: 8080")).unwrap();
    assert_eq!(m.fields, pairs(&[("port", "8080")]));
}

#[test]
fn short_rule_line_is_malformed() {
    assert_eq!(Rule::from_string("a:b:c").unwrap_err(), ConfigError::MalformedRule);
    assert_eq!(Rule::from_string("").unwrap_err(), ConfigError::MalformedRule);
}

#[test]
fn bad_rule_pattern_is_refused() {
    assert_eq!(Rule::new("r", "p", "foo(").unwrap_err(), ConfigError::InvalidPattern);
    assert_eq!(Rule::from_string("r:p:t:foo(").unwrap_err(), ConfigError::InvalidPattern);
}

#[test]
fn other_process_never_matches() {
    let r = Rule::new("any", "sshd", ".*").unwrap();
    assert!(r.is_match(&line("cron", "x")).is_none());
    assert!(r.is_match(&line("sshd", "x")).is_some());
}

#[test]
fn rule_without_groups_has_no_fields() {
    let r = Rule::new("up", "kernel", "link up").unwrap();
    let m = r.is_match(&line("kernel", "eth0 link up")).unwrap();
    assert!(m.fields.is_empty());
    assert!(r.is_match(&line("kernel", "eth0 link down")).is_none());
}

#[test]
fn unresolved_named_group_fails_the_rule() {
    let r = Rule::new("opt", "p", "^a(?P<x>b)?c(?P<y>d)$").unwrap();
    assert!(r.is_match(&line("p", "acd")).is_none());
    let m = r.is_match(&line("p", "abcd")).unwrap();
    assert_eq!(m.fields, pairs(&[("x", "b"), ("y", "d")]));
}

#[test]
fn classify_keeps_rule_order() {
    let rules = vec![
        Rule::new("second", "sshd", "root").unwrap(),
        Rule::new("never", "sshd", "^nothing$").unwrap(),
        Rule::new("other", "cron", "root").unwrap(),
        Rule::new("first", "sshd", "^(?P<what>\\w+)").unwrap(),
    ];
    let out = classify(&rules, &line("sshd", "Failed password for root"));
    let names: Vec<&str> = out.iter().map(|m| m.rule.as_str()).collect();
    assert_eq!(names, vec!["second", "first"]);
    assert_eq!(out[1].fields, pairs(&[("what", "Failed")]));
}

#[test]
fn classify_without_rules_for_process_is_empty() {
    let rules = vec![Rule::new("a", "sshd", "x").unwrap()];
    assert!(classify(&rules, &line("cron", "x")).is_empty());
}

#[test]
fn line_without_process_or_message_never_matches() {
    let r = Rule::new("any", "sshd", ".*").unwrap();
    let mut l = line("sshd", "x");
    l.process = None;
    assert!(r.is_match(&l).is_none());
    let mut l = line("sshd", "x");
    l.message = None;
    assert!(r.is_match(&l).is_none());
}

#[test]
fn fields_of_given_captures() {
    let r = Rule::new("opt", "p", "^a(?P<x>b)?(c)(?P<y>d)$").unwrap();
    let some = |t: &str| Some(t.to_string());
    let all = vec![some("abcd"), some("b"), some("c"), some("d")];
    assert_eq!(r.collect_fields(&all), Some(pairs(&[("x", "b"), ("y", "d")])));
    let missing = vec![some("acd"), None, some("c"), some("d")];
    assert_eq!(r.collect_fields(&missing), None);
    let short = vec![some("abcd"), some("b")];
    assert_eq!(r.collect_fields(&short), None);
}
