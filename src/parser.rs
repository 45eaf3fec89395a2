//! Turning one line of text into a structured event with a compiled extractor.
use vstd::prelude::*;
use crate::pattern::{opt_strs, regex_captures, regex_group_names};
use crate::settings::Settings;
use crate::text::{decimal_value, decimal_within, is_digit, parse_decimal, str_equal, unsigned_digits};

verus! {

/// One parsed log line. A field is `None` when the line's format has no
/// group for it, or when its group took no part in the match.
#[derive(Debug)]
pub struct LogLine {
    pub year: Option<u32>,
    pub month: Option<u8>,
    pub day: Option<u8>,
    pub hour: Option<u8>,
    pub minute: Option<u8>,
    pub second: Option<u8>,
    pub level: Option<String>,
    pub process: Option<String>,
    pub host: Option<String>,
    pub pid: Option<u32>,
    pub message: Option<String>,
    pub raw: String,
}

/// The mathematical content of a [`LogLine`].
pub ghost struct LogLineView {
    pub year: Option<u32>,
    pub month: Option<u8>,
    pub day: Option<u8>,
    pub hour: Option<u8>,
    pub minute: Option<u8>,
    pub second: Option<u8>,
    pub level: Option<Seq<char>>,
    pub process: Option<Seq<char>>,
    pub host: Option<Seq<char>>,
    pub pid: Option<u32>,
    pub message: Option<Seq<char>>,
    pub raw: Seq<char>,
}

/// The text of an optional string.
pub open spec fn opt_view(o: Option<String>) -> Option<Seq<char>> {
    match o {
        Some(s) => Some(s@),
        None => None,
    }
}

impl View for LogLine {
    type V = LogLineView;

    open spec fn view(&self) -> LogLineView {
        LogLineView {
            year: self.year,
            month: self.month,
            day: self.day,
            hour: self.hour,
            minute: self.minute,
            second: self.second,
            level: opt_view(self.level),
            process: opt_view(self.process),
            host: opt_view(self.host),
            pid: self.pid,
            message: opt_view(self.message),
            raw: self.raw@,
        }
    }
}

/// Borrows the text of an optional string.
fn opt_str(o: &Option<String>) -> (r: Option<&str>)
    ensures
        match r {
            Some(s) => opt_view(*o) == Some(s@),
            None => o is None,
        },
{
    match o {
        Some(s) => Some(s.as_str()),
        None => None,
    }
}

/// Copies an optional string.
fn copy_opt(o: &Option<String>) -> (r: Option<String>)
    ensures
        opt_view(r) == opt_view(*o),
{
    match o {
        Some(s) => Some(s.clone()),
        None => None,
    }
}

impl LogLine {
    /// The name of the process that wrote the line, when the format has it.
    pub fn process(&self) -> (r: Option<&str>)
        ensures
            match r {
                Some(s) => self@.process == Some(s@),
                None => self@.process is None,
            },
    {
        opt_str(&self.process)
    }

    /// The line as it was read.
    pub fn raw(&self) -> (r: &str)
        ensures
            r@ == self.raw@,
    {
        self.raw.as_str()
    }

    /// The free-text message at the end of the line, when the format has it.
    pub fn message(&self) -> (r: Option<&str>)
        ensures
            match r {
                Some(s) => self@.message == Some(s@),
                None => self@.message is None,
            },
    {
        opt_str(&self.message)
    }

    /// A copy of the line.
    pub fn copy(&self) -> (r: LogLine)
        ensures
            r@ == self@,
    {
        LogLine {
            year: self.year,
            month: self.month,
            day: self.day,
            hour: self.hour,
            minute: self.minute,
            second: self.second,
            level: copy_opt(&self.level),
            process: copy_opt(&self.process),
            host: copy_opt(&self.host),
            pid: self.pid,
            message: copy_opt(&self.message),
            raw: self.raw.clone(),
        }
    }
}

/// A field of a line.
#[derive(Debug, Clone, Copy, PartialEq, Eq, Structural)]
pub enum Field {
    Year,
    Month,
    Day,
    Hour,
    Minute,
    Second,
    Level,
    Process,
    Host,
    Pid,
    Message,
}

/// Why a line was not turned into an event.
#[derive(Debug, Clone, Copy, PartialEq, Eq, Structural)]
pub enum ParseError {
    /// The line does not have the format.
    NoMatch,
    /// A numeric field holds text that is not a number in its range.
    TypeMismatch(Field),
}

/// The name of the group that captures a field.
pub open spec fn field_name(f: Field) -> Seq<char> {
    match f {
        Field::Year => "year"@,
        Field::Month => "month"@,
        Field::Day => "day"@,
        Field::Hour => "hour"@,
        Field::Minute => "minute"@,
        Field::Second => "second"@,
        Field::Level => "level"@,
        Field::Process => "process"@,
        Field::Host => "host"@,
        Field::Pid => "pid"@,
        Field::Message => "message"@,
    }
}

/// The largest value of a numeric field; `None` for a text field.
pub open spec fn field_max(f: Field) -> Option<int> {
    match f {
        Field::Year | Field::Pid => Some(u32::MAX as int),
        Field::Month | Field::Day | Field::Hour | Field::Minute | Field::Second => Some(u8::MAX as int),
        _ => None,
    }
}

/// The fields in the order they are checked.
pub open spec fn field_order() -> Seq<Field> {
    seq![
        Field::Year,
        Field::Month,
        Field::Day,
        Field::Hour,
        Field::Minute,
        Field::Second,
        Field::Level,
        Field::Process,
        Field::Host,
        Field::Pid,
        Field::Message,
    ]
}

/// The text captured by the first group named `name` at or after index `i`.
pub open spec fn named_from(
    names: Seq<Option<Seq<char>>>,
    vals: Seq<Option<Seq<char>>>,
    name: Seq<char>,
    i: int,
) -> Option<Seq<char>>
    decreases names.len() - i,
{
    if i < 0 || i >= names.len() {
        None
    } else if names[i] == Some(name) {
        if i < vals.len() {
            vals[i]
        } else {
            None
        }
    } else {
        named_from(names, vals, name, i + 1)
    }
}

/// The text captured for a field.
pub open spec fn captured(names: Seq<Option<Seq<char>>>, vals: Seq<Option<Seq<char>>>, f: Field) -> Option<
    Seq<char>,
> {
    named_from(names, vals, field_name(f), 0)
}

/// What is wrong with a field: a numeric field whose text is not a number
/// in its range. A field that was not captured is simply absent.
pub open spec fn field_error(names: Seq<Option<Seq<char>>>, vals: Seq<Option<Seq<char>>>, f: Field) -> Option<
    ParseError,
> {
    match (captured(names, vals, f), field_max(f)) {
        (Some(t), Some(mx)) => if decimal_within(t, mx) {
            None
        } else {
            Some(ParseError::TypeMismatch(f))
        },
        _ => None,
    }
}

/// The first fault among the fields from index `i` of `fs` on.
pub open spec fn first_error(
    names: Seq<Option<Seq<char>>>,
    vals: Seq<Option<Seq<char>>>,
    fs: Seq<Field>,
    i: int,
) -> Option<ParseError>
    decreases fs.len() - i,
{
    if i < 0 || i >= fs.len() {
        None
    } else {
        match field_error(names, vals, fs[i]) {
            Some(e) => Some(e),
            None => first_error(names, vals, fs, i + 1),
        }
    }
}

/// The value of a captured number, if it was captured.
pub open spec fn number(names: Seq<Option<Seq<char>>>, vals: Seq<Option<Seq<char>>>, f: Field) -> Option<int> {
    match captured(names, vals, f) {
        Some(t) => Some(decimal_value(t)),
        None => None,
    }
}

/// A captured number as a `u32`.
pub open spec fn number_u32(names: Seq<Option<Seq<char>>>, vals: Seq<Option<Seq<char>>>, f: Field) -> Option<u32> {
    match number(names, vals, f) {
        Some(v) => Some(v as u32),
        None => None,
    }
}

/// A captured number as a `u8`.
pub open spec fn number_u8(names: Seq<Option<Seq<char>>>, vals: Seq<Option<Seq<char>>>, f: Field) -> Option<u8> {
    match number(names, vals, f) {
        Some(v) => Some(v as u8),
        None => None,
    }
}

/// The event a line yields, given the names of the extractor's groups and
/// what they captured (`None`: the line does not have the format). A line
/// that has the format yields an event unless a captured number is out of
/// reach; each field holds what its group captured.
pub open spec fn parse_spec(
    names: Seq<Option<Seq<char>>>,
    caps: Option<Seq<Option<Seq<char>>>>,
    line: Seq<char>,
) -> Result<LogLineView, ParseError> {
    match caps {
        None => Err(ParseError::NoMatch),
        Some(vals) => match first_error(names, vals, field_order(), 0) {
            Some(e) => Err(e),
            None => Ok(
                LogLineView {
                    year: number_u32(names, vals, Field::Year),
                    month: number_u8(names, vals, Field::Month),
                    day: number_u8(names, vals, Field::Day),
                    hour: number_u8(names, vals, Field::Hour),
                    minute: number_u8(names, vals, Field::Minute),
                    second: number_u8(names, vals, Field::Second),
                    level: captured(names, vals, Field::Level),
                    process: captured(names, vals, Field::Process),
                    host: captured(names, vals, Field::Host),
                    pid: number_u32(names, vals, Field::Pid),
                    message: captured(names, vals, Field::Message),
                    raw: line,
                },
            ),
        },
    }
}

/// The text of what the groups captured.
pub open spec fn caps_view(caps: Option<Vec<Option<String>>>) -> Option<Seq<Option<Seq<char>>>> {
    match caps {
        Some(v) => Some(opt_strs(v@)),
        None => None,
    }
}

/// The view of a parse result.
pub open spec fn result_view(r: Result<LogLine, ParseError>) -> Result<LogLineView, ParseError> {
    match r {
        Ok(l) => Ok(l@),
        Err(e) => Err(e),
    }
}

fn group_of(f: Field) -> (r: &'static str)
    ensures
        r@ == field_name(f),
{
    match f {
        Field::Year => "year",
        Field::Month => "month",
        Field::Day => "day",
        Field::Hour => "hour",
        Field::Minute => "minute",
        Field::Second => "second",
        Field::Level => "level",
        Field::Process => "process",
        Field::Host => "host",
        Field::Pid => "pid",
        Field::Message => "message",
    }
}

/// The text captured for a field.
fn captured_value(names: &Vec<Option<String>>, vals: &Vec<Option<String>>, f: Field) -> (r: Option<
    String,
>)
    ensures
        match r {
            Some(t) => captured(opt_strs(names@), opt_strs(vals@), f) == Some(t@),
            None => captured(opt_strs(names@), opt_strs(vals@), f) is None,
        },
{
    let name = group_of(f);
    let ghost ns = opt_strs(names@);
    let ghost vs = opt_strs(vals@);
    let mut i: usize = 0;
    while i < names.len()
        invariant
            i <= names.len(),
            ns == opt_strs(names@),
            vs == opt_strs(vals@),
            name@ == field_name(f),
            named_from(ns, vs, name@, 0) == named_from(ns, vs, name@, i as int),
        decreases names.len() - i,
    {
        let hit = match &names[i] {
            Some(n) => str_equal(n.as_str(), name),
            None => false,
        };
        assert(hit == (ns[i as int] == Some(name@)));
        if hit {
            let r = if i < vals.len() {
                match &vals[i] {
                    Some(v) => Some(v.clone()),
                    None => None,
                }
            } else {
                None
            };
            proof {
                if i < vals.len() {
                    assert(vs[i as int] == (match vals@[i as int] {
                        Some(v) => Some(v@),
                        None => None,
                    }));
                }
                assert(named_from(ns, vs, name@, i as int) == match r {
                    Some(t) => Some(t@),
                    None => None,
                });
                assert(captured(ns, vs, f) == named_from(ns, vs, name@, 0));
                if r is Some {
                    assert(captured(ns, vs, f) == Some(r->Some_0@));
                }
            }
            return r;
        }
        i = i + 1;
    }
    None
}

/// The largest value of a numeric field, as [`field_max`] states.
fn max_of(f: Field) -> (r: Option<u32>)
    ensures
        match r {
            Some(m) => field_max(f) == Some(m as int),
            None => field_max(f) is None,
        },
{
    match f {
        Field::Year | Field::Pid => Some(u32::MAX),
        Field::Month | Field::Day | Field::Hour | Field::Minute | Field::Second => Some(u8::MAX as u32),
        _ => None,
    }
}

/// What is wrong with a field, as [`field_error`] states.
fn check_field(names: &Vec<Option<String>>, vals: &Vec<Option<String>>, f: Field) -> (r: Option<ParseError>)
    ensures
        r == field_error(opt_strs(names@), opt_strs(vals@), f),
{
    match (captured_value(names, vals, f), max_of(f)) {
        (Some(t), Some(max)) => if parse_decimal(t.as_str(), max).is_some() {
            None
        } else {
            Some(ParseError::TypeMismatch(f))
        },
        _ => None,
    }
}

/// The value of a numeric field without fault.
fn number_field(names: &Vec<Option<String>>, vals: &Vec<Option<String>>, f: Field) -> (r: Option<u32>)
    requires
        field_error(opt_strs(names@), opt_strs(vals@), f) is None,
        field_max(f) is Some,
    ensures
        match r {
            Some(v) => number(opt_strs(names@), opt_strs(vals@), f) == Some(v as int),
            None => number(opt_strs(names@), opt_strs(vals@), f) is None,
        },
        r is Some ==> r->Some_0 as int <= field_max(f)->Some_0,
{
    match (captured_value(names, vals, f), max_of(f)) {
        (Some(t), Some(max)) => parse_decimal(t.as_str(), max),
        _ => None,
    }
}

/// The value of a small numeric field without fault.
fn small_field(names: &Vec<Option<String>>, vals: &Vec<Option<String>>, f: Field) -> (r: Option<u8>)
    requires
        field_error(opt_strs(names@), opt_strs(vals@), f) is None,
        field_max(f) == Some(u8::MAX as int),
    ensures
        r == number_u8(opt_strs(names@), opt_strs(vals@), f),
{
    match number_field(names, vals, f) {
        Some(v) => Some(v as u8),
        None => None,
    }
}

/// The position of a field in [`field_order`].
spec fn field_index(f: Field) -> int {
    match f {
        Field::Year => 0,
        Field::Month => 1,
        Field::Day => 2,
        Field::Hour => 3,
        Field::Minute => 4,
        Field::Second => 5,
        Field::Level => 6,
        Field::Process => 7,
        Field::Host => 8,
        Field::Pid => 9,
        Field::Message => 10,
    }
}

impl LogLine {
    /// Builds the event of `line` from the names of the extractor's groups and
    /// what they captured (`None`: the line does not have the format).
    /// Numeric fields are checked in field order; the first fault is reported.
    pub fn from_captures(names: &Vec<Option<String>>, caps: Option<Vec<Option<String>>>, line: &str) -> (r:
        Result<LogLine, ParseError>)
        ensures
            result_view(r) == parse_spec(
                opt_strs(names@),
                caps_view(caps),
                line@,
            ),
    {
        let ghost caps_v = caps_view(caps);
        let vals = match caps {
            Some(v) => v,
            None => {
                return Err(ParseError::NoMatch);
            },
        };
        let ghost ns = opt_strs(names@);
        let ghost vs = opt_strs(vals@);
        let order: Vec<Field> = vec![
            Field::Year,
            Field::Month,
            Field::Day,
            Field::Hour,
            Field::Minute,
            Field::Second,
            Field::Level,
            Field::Process,
            Field::Host,
            Field::Pid,
            Field::Message,
        ];
        assert(order@ =~= field_order());
        let mut i: usize = 0;
        while i < order.len()
            invariant
                i <= order.len(),
                order@ == field_order(),
                ns == opt_strs(names@),
                vs == opt_strs(vals@),
                caps_v == Some(vs),
                caps_v == caps_view(caps),
                first_error(ns, vs, field_order(), 0) == first_error(ns, vs, field_order(), i as int),
                forall|j: int| 0 <= j < i ==> field_error(ns, vs, #[trigger] field_order()[j]) is None,
            decreases order.len() - i,
        {
            let f = order[i];
            assert(f == field_order()[i as int]);
            if let Some(e) = check_field(names, &vals, f) {
                assert(first_error(ns, vs, field_order(), i as int) == Some(e));
                return Err(e);
            }
            i = i + 1;
        }
        assert forall|f: Field| #[trigger] field_error(ns, vs, f) is None by {
            assert(field_order()[field_index(f)] == f);
        }
        Ok(
            LogLine::build(
                number_field(names, &vals, Field::Year),
                small_field(names, &vals, Field::Month),
                small_field(names, &vals, Field::Day),
                small_field(names, &vals, Field::Hour),
                small_field(names, &vals, Field::Minute),
                small_field(names, &vals, Field::Second),
                captured_value(names, &vals, Field::Host),
                captured_value(names, &vals, Field::Level),
                captured_value(names, &vals, Field::Process),
                number_field(names, &vals, Field::Pid),
                captured_value(names, &vals, Field::Message),
                line,
            ),
        )
    }

    /// Assembles an event from its fields and the line it was read from.
    pub fn build(
        year: Option<u32>,
        month: Option<u8>,
        day: Option<u8>,
        hour: Option<u8>,
        minute: Option<u8>,
        second: Option<u8>,
        host: Option<String>,
        level: Option<String>,
        process: Option<String>,
        pid: Option<u32>,
        message: Option<String>,
        line: &str,
    ) -> (r: LogLine)
        ensures
            r@ == (LogLineView {
                year,
                month,
                day,
                hour,
                minute,
                second,
                level: opt_view(level),
                process: opt_view(process),
                host: opt_view(host),
                pid,
                message: opt_view(message),
                raw: line@,
            }),
    {
        LogLine {
            year,
            month,
            day,
            hour,
            minute,
            second,
            level,
            process,
            host,
            pid,
            message,
            raw: String::from_str(line),
        }
    }

    /// Parses one line with the configured extractor.
    pub fn from_string(line: &str, settings: &Settings) -> (r: Result<LogLine, ParseError>)
        requires
            settings.log_format.wf(),
        ensures
            result_view(r) == parse_spec(
                regex_group_names(settings.log_format.pattern()),
                regex_captures(settings.log_format.pattern(), line@),
                line@,
            ),
    {
        let caps = settings.log_format.regex().captures(line);
        LogLine::from_captures(settings.log_format.group_names(), caps, line)
    }
}


proof fn lemma_first_error_kind(
    names: Seq<Option<Seq<char>>>,
    vals: Seq<Option<Seq<char>>>,
    fs: Seq<Field>,
    i: int,
)
    ensures
        first_error(names, vals, fs, i) is None || first_error(names, vals, fs, i)->Some_0 is TypeMismatch,
    decreases fs.len() - i,
{
    if 0 <= i < fs.len() && field_error(names, vals, fs[i]) is None {
        lemma_first_error_kind(names, vals, fs, i + 1);
    }
}

/// A line is rejected exactly when it does not have the format or a
/// captured number is out of reach, and never turned into a partial event:
/// `NoMatch` comes exactly when the expression does not match; a year that
/// holds anything but digits after an optional leading `+` is a type
/// mismatch; and an accepted line's
/// event holds every captured field, the message and the year included.
pub proof fn lemma_incomplete_line_rejected(
    names: Seq<Option<Seq<char>>>,
    caps: Option<Seq<Option<Seq<char>>>>,
    line: Seq<char>,
)
    ensures
        parse_spec(names, caps, line) == Err::<LogLineView, ParseError>(ParseError::NoMatch) <==> caps is None,
        caps is Some && captured(names, caps->Some_0, Field::Year) is Some && (exists|i: int|
            0 <= i < unsigned_digits(captured(names, caps->Some_0, Field::Year)->Some_0).len() && !is_digit(
                #[trigger] unsigned_digits(captured(names, caps->Some_0, Field::Year)->Some_0)[i],
            )) ==> parse_spec(names, caps, line) == Err::<LogLineView, ParseError>(
            ParseError::TypeMismatch(Field::Year),
        ),
        parse_spec(names, caps, line) is Ok ==> {
            let l = parse_spec(names, caps, line)->Ok_0;
            &&& caps is Some
            &&& l.message == captured(names, caps->Some_0, Field::Message)
            &&& l.process == captured(names, caps->Some_0, Field::Process)
            &&& (l.year is Some <==> captured(names, caps->Some_0, Field::Year) is Some)
        },
{
    if let Some(vals) = caps {
        lemma_first_error_kind(names, vals, field_order(), 0);
        assert(field_order()[0] == Field::Year);
    }
}

} // verus!
