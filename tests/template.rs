use timber::parser::{Field, LogLine, ParseError};
use timber::settings::{compile, template_to_pattern, Settings};
use timber::text::parse_decimal;

const FORMAT: &str = "${YEAR}-${MONTH}-${DAY}T${HOUR}:${MIN}:${SEC} ${HOST} ${LEVEL} ${MSGHDR}${MSG}";

fn settings() -> Settings {
    Settings { log_format: compile(FORMAT).unwrap() }
}

#[test]
fn pattern_of_macros_and_literals() {
    assert_eq!(template_to_pattern("${YEAR}-x"), "^(?P<year>\\d{4})\\-x$");
    assert_eq!(template_to_pattern("a.b$c"), "^a\\.b\\$c$");
    assert_eq!(template_to_pattern("$${MSG}"), "^\\$(?P<message>.+)$");
}

#[test]
fn unknown_macro_compiles_to_nothing() {
    assert_eq!(template_to_pattern("${FOO}"), "^$");
    assert_eq!(template_to_pattern("x${FOO}y"), "^xy$");
}

#[test]
fn trailing_newline_is_stripped() {
    assert_eq!(template_to_pattern("${HOST}\n"), "^(?P<host>\\S+)$");
    assert_eq!(template_to_pattern(""), "^$");
}

#[test]
fn round_trip_of_substituted_values() {
    let line = "2021-03-14T09:26:53 gate01 info sshd[4242]: Failed password for root from 10.0.0.7";
    let ev = LogLine::from_string(line, &settings()).unwrap();
    assert_eq!(ev.year, Some(2021));
    assert_eq!(ev.month, Some(3));
    assert_eq!(ev.day, Some(14));
    assert_eq!(ev.hour, Some(9));
    assert_eq!(ev.minute, Some(26));
    assert_eq!(ev.second, Some(53));
    assert_eq!(ev.host.as_deref(), Some("gate01"));
    assert_eq!(ev.level.as_deref(), Some("info"));
    assert_eq!(ev.process(), Some("sshd"));
    assert_eq!(ev.pid, Some(4242));
    assert_eq!(ev.message(), Some("Failed password for root from 10.0.0.7"));
    assert_eq!(ev.raw(), line);
}

#[test]
fn round_trip_other_values() {
    let line = "1999-12-31T23:59:00 db-2.local ERR cron.daily_1: job done";
    let ev = LogLine::from_string(line, &settings()).unwrap();
    assert_eq!(
        (ev.year, ev.month, ev.day, ev.hour, ev.minute, ev.second),
        (Some(1999), Some(12), Some(31), Some(23), Some(59), Some(0))
    );
    assert_eq!(ev.host.as_deref(), Some("db-2.local"));
    assert_eq!(ev.level.as_deref(), Some("ERR"));
    assert_eq!(ev.process(), Some("cron.daily_1"));
    assert_eq!(ev.message(), Some("job done"));
}

#[test]
fn absent_pid_is_none() {
    let line = "2021-03-14T09:26:53 gate01 info kernel: eth0 link up";
    let ev = LogLine::from_string(line, &settings()).unwrap();
    assert_eq!(ev.pid, None);
    assert_eq!(ev.process(), Some("kernel"));
}

#[test]
fn missing_message_is_rejected() {
    let line = "2021-03-14T09:26:53 gate01 info sshd[4242]: ";
    assert_eq!(LogLine::from_string(line, &settings()).unwrap_err(), ParseError::NoMatch);
}

#[test]
fn malformed_year_is_rejected() {
    let line = "20x1-03-14T09:26:53 gate01 info sshd[4242]: hello";
    assert_eq!(LogLine::from_string(line, &settings()).unwrap_err(), ParseError::NoMatch);
}

#[test]
fn non_ascii_digits_are_a_type_mismatch() {
    let line = "\u{0662}\u{0660}\u{0662}\u{0661}-03-14T09:26:53 gate01 info sshd: hello";
    assert_eq!(
        LogLine::from_string(line, &settings()).unwrap_err(),
        ParseError::TypeMismatch(Field::Year)
    );
}

#[test]
fn partial_line_is_rejected() {
    let line = "2021-03-14T09:26:53 gate01";
    assert_eq!(LogLine::from_string(line, &settings()).unwrap_err(), ParseError::NoMatch);
}

#[test]
fn template_without_year_leaves_it_absent() {
    let s = Settings { log_format: compile("${HOST} ${MSGHDR}${MSG}").unwrap() };
    let ev = LogLine::from_string("h p: m", &s).unwrap();
    assert_eq!(ev.year, None);
    assert_eq!(ev.second, None);
    assert_eq!(ev.level, None);
    assert_eq!(ev.host.as_deref(), Some("h"));
    assert_eq!(ev.process(), Some("p"));
    assert_eq!(ev.message(), Some("m"));
}

#[test]
fn message_only_template() {
    let s = Settings { log_format: compile("${MSG}").unwrap() };
    let ev = LogLine::from_string("hello world", &s).unwrap();
    assert_eq!(ev.message(), Some("hello world"));
    assert_eq!(ev.raw(), "hello world");
    assert_eq!(ev.year, None);
    assert_eq!(ev.process(), None);
    assert_eq!(ev.pid, None);
}

#[test]
fn literal_template_round_trip() {
    let s = Settings { log_format: compile("[${LEVEL}] ${HOST}").unwrap() };
    let ev = LogLine::from_string("[warn] box.1", &s).unwrap();
    assert_eq!(ev.level.as_deref(), Some("warn"));
    assert_eq!(ev.host.as_deref(), Some("box.1"));
    assert_eq!(LogLine::from_string("warn box.1", &s).unwrap_err(), ParseError::NoMatch);
}

fn group(name: Option<&str>) -> Option<String> {
    name.map(|n| n.to_string())
}

#[test]
fn captures_are_checked_in_field_order() {
    let names = vec![group(None), group(Some("month")), group(Some("year"))];
    let caps = vec![group(Some("x")), group(Some("300")), group(Some("abc"))];
    assert_eq!(
        LogLine::from_captures(&names, Some(caps), "x").unwrap_err(),
        ParseError::TypeMismatch(Field::Year)
    );
}

#[test]
fn month_out_of_range_is_a_type_mismatch() {
    let names = vec![group(None), group(Some("year")), group(Some("month"))];
    let caps = vec![group(Some("x")), group(Some("2020")), group(Some("300"))];
    assert_eq!(
        LogLine::from_captures(&names, Some(caps), "x").unwrap_err(),
        ParseError::TypeMismatch(Field::Month)
    );
}

#[test]
fn captures_without_fixed_fields_give_an_event() {
    let names = vec![group(None), group(Some("message"))];
    let caps = vec![group(Some("hi")), group(Some("hi"))];
    let ev = LogLine::from_captures(&names, Some(caps), "hi").unwrap();
    assert_eq!(ev.message(), Some("hi"));
    assert_eq!(ev.year, None);
}

#[test]
fn no_captures_is_no_match() {
    assert_eq!(LogLine::from_captures(&vec![group(None)], None, "x").unwrap_err(), ParseError::NoMatch);
}

#[test]
fn decimal_numbers() {
    assert_eq!(parse_decimal("255", 255), Some(255));
    assert_eq!(parse_decimal("256", 255), None);
    assert_eq!(parse_decimal("0042", 255), Some(42));
    assert_eq!(parse_decimal("", 255), None);
    assert_eq!(parse_decimal("12a", 255), None);
    assert_eq!(parse_decimal("4294967295", u32::MAX), Some(u32::MAX));
    assert_eq!(parse_decimal("4294967296", u32::MAX), None);
    assert_eq!(parse_decimal("+5", 255), Some(5));
    assert_eq!(parse_decimal("+", 255), None);
    assert_eq!(parse_decimal("++5", 255), None);
    assert_eq!(parse_decimal("-5", 255), None);
    assert_eq!(parse_decimal("5+", 255), None);
    assert_eq!(parse_decimal(" 5", 255), None);
}

#[test]
fn captured_number_with_plus_sign_is_read() {
    let names = vec![group(None), group(Some("hour")), group(Some("pid"))];
    let caps = vec![group(Some("x")), group(Some("+5")), group(Some("+42"))];
    let ev = LogLine::from_captures(&names, Some(caps), "x").unwrap();
    assert_eq!(ev.hour, Some(5));
    assert_eq!(ev.pid, Some(42));
}
