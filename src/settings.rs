//! Configuration errors and the compiler of line-format templates.
use vstd::prelude::*;
use crate::pattern::{Pattern, regex_accepts, regex_group_names, opt_strs};
use crate::text::str_equal;

verus! {

/// A fault in the configuration handed to the pipeline.
#[derive(Debug, Clone, Copy, PartialEq, Eq, Structural)]
pub enum ConfigError {
    /// A pattern that the regular-expression engine refuses.
    InvalidPattern,
    /// A rule line without its four colon-separated parts.
    MalformedRule,
    /// Two triggers with the same name.
    DuplicateTrigger,
    /// A trigger without any step.
    EmptyTrigger,
    /// A step constrains a field that no rule of the step's name captures.
    UnknownField,
}


/// A character that has a meaning of its own in a regular expression.
pub open spec fn is_meta(c: char) -> bool {
    c == '\\' || c == '.' || c == '+' || c == '*' || c == '?' || c == '(' || c == ')' || c == '|'
        || c == '[' || c == ']' || c == '{' || c == '}' || c == '^' || c == '$' || c == '#'
        || c == '&' || c == '-' || c == '~'
}

/// The expression that matches exactly the character `c`.
pub open spec fn escaped(c: char) -> Seq<char> {
    if is_meta(c) {
        seq!['\\', c]
    } else {
        seq![c]
    }
}

/// The group a macro stands for; an unknown macro stands for nothing.
pub open spec fn macro_pattern(name: Seq<char>) -> Seq<char> {
    if name == "YEAR"@ {
        "(?P<year>\\d{4})"@
    } else if name == "MONTH"@ {
        "(?P<month>\\d{2})"@
    } else if name == "DAY"@ {
        "(?P<day>\\d{2})"@
    } else if name == "HOUR"@ {
        "(?P<hour>\\d{2})"@
    } else if name == "MIN"@ {
        "(?P<minute>\\d{2})"@
    } else if name == "SEC"@ {
        "(?P<second>\\d{2})"@
    } else if name == "HOST"@ {
        "(?P<host>\\S+)"@
    } else if name == "LEVEL"@ {
        "(?P<level>[[:alpha:]]+)"@
    } else if name == "MSGHDR"@ {
        "(?P<process>[a-zA-Z0-9_\\.-]+)(\\[(?P<pid>\\d+)\\])?:\\s"@
    } else if name == "MSG"@ {
        "(?P<message>.+)"@
    } else {
        Seq::empty()
    }
}

/// Where the template reader stands: in literal text, just after a `$`, or
/// inside `${...}` with the name read so far.
pub ghost enum Scan {
    Text,
    Dollar,
    Macro(Seq<char>),
}

/// What the template from position `i` on contributes to the expression.
pub open spec fn scan_from(t: Seq<char>, i: int, st: Scan) -> Seq<char>
    decreases t.len() - i,
{
    if i >= t.len() {
        match st {
            Scan::Text => Seq::empty(),
            Scan::Dollar => "\\$"@,
            Scan::Macro(n) => macro_pattern(n),
        }
    } else {
        let c = t[i];
        match st {
            Scan::Text => if c == '$' {
                scan_from(t, i + 1, Scan::Dollar)
            } else {
                escaped(c) + scan_from(t, i + 1, Scan::Text)
            },
            Scan::Dollar => if c == '{' {
                scan_from(t, i + 1, Scan::Macro(Seq::empty()))
            } else if c == '$' {
                "\\$"@ + scan_from(t, i + 1, Scan::Dollar)
            } else {
                "\\$"@ + escaped(c) + scan_from(t, i + 1, Scan::Text)
            },
            Scan::Macro(n) => if c == '}' {
                macro_pattern(n) + scan_from(t, i + 1, Scan::Text)
            } else {
                scan_from(t, i + 1, Scan::Macro(n.push(c)))
            },
        }
    }
}

/// The template without its trailing newline.
pub open spec fn strip_newline(t: Seq<char>) -> Seq<char> {
    if t.len() > 0 && t.last() == '\n' {
        t.drop_last()
    } else {
        t
    }
}

/// The expression a template compiles to, anchored to the whole line.
pub open spec fn template_pattern(t: Seq<char>) -> Seq<char> {
    "^"@ + scan_from(strip_newline(t), 0, Scan::Text) + "$"@
}

/// The group of a macro name.
fn macro_regex(name: &str) -> (r: &'static str)
    ensures
        r@ == macro_pattern(name@),
{
    if str_equal(name, "YEAR") {
        "(?P<year>\\d{4})"
    } else if str_equal(name, "MONTH") {
        "(?P<month>\\d{2})"
    } else if str_equal(name, "DAY") {
        "(?P<day>\\d{2})"
    } else if str_equal(name, "HOUR") {
        "(?P<hour>\\d{2})"
    } else if str_equal(name, "MIN") {
        "(?P<minute>\\d{2})"
    } else if str_equal(name, "SEC") {
        "(?P<second>\\d{2})"
    } else if str_equal(name, "HOST") {
        "(?P<host>\\S+)"
    } else if str_equal(name, "LEVEL") {
        "(?P<level>[[:alpha:]]+)"
    } else if str_equal(name, "MSGHDR") {
        "(?P<process>[a-zA-Z0-9_\\.-]+)(\\[(?P<pid>\\d+)\\])?:\\s"
    } else if str_equal(name, "MSG") {
        "(?P<message>.+)"
    } else {
        proof {
            reveal_strlit("");
        }
        ""
    }
}

/// Whether `c` has to be escaped.
fn meta_char(c: char) -> (r: bool)
    ensures
        r == is_meta(c),
{
    c == '\\' || c == '.' || c == '+' || c == '*' || c == '?' || c == '(' || c == ')' || c == '|'
        || c == '[' || c == ']' || c == '{' || c == '}' || c == '^' || c == '$' || c == '#'
        || c == '&' || c == '-' || c == '~'
}

spec fn scan_state(mode: u8, name: Seq<char>) -> Scan {
    if mode == 0 {
        Scan::Text
    } else if mode == 1 {
        Scan::Dollar
    } else {
        Scan::Macro(name)
    }
}

/// Appends the expression that matches the character at `i` exactly.
fn push_escaped(out: &mut String, t: &str, i: usize)
    requires
        i < t@.len() <= usize::MAX,
    ensures
        final(out)@ == old(out)@ + escaped(t@[i as int]),
{
    let c = t.get_char(i);
    if meta_char(c) {
        out.append("\\");
        proof {
            reveal_strlit("\\");
        }
    }
    let one = t.substring_char(i, i + 1);
    assert(one@ =~= seq![c]);
    out.append(one);
    assert(final(out)@ =~= old(out)@ + escaped(c));
}

/// Builds the expression of a template: `${NAME}` macros become named
/// groups, other characters match themselves, and the result is anchored at
/// both ends.
pub fn template_to_pattern(template: &str) -> (r: String)
    ensures
        r@ == template_pattern(template@),
{
    let ghost ts = strip_newline(template@);
    let mut n = template.unicode_len();
    if n > 0 && template.get_char(n - 1) == '\n' {
        n = n - 1;
    }
    assert(ts.len() == n);
    let mut out = String::from_str("^");
    let mut mode: u8 = 0;
    let mut name = String::new();
    let mut i: usize = 0;
    while i < n
        invariant
            i <= n,
            n == ts.len(),
            n <= template@.len() <= usize::MAX,
            ts == strip_newline(template@),
            forall|j: int| 0 <= j < n ==> ts[j] == template@[j],
            mode <= 2,
            out@ + scan_from(ts, i as int, scan_state(mode, name@)) == "^"@ + scan_from(ts, 0, Scan::Text),
        decreases n - i,
    {
        let c = template.get_char(i);
        let ghost before = out@;
        let ghost rest = scan_from(ts, i + 1, scan_state(mode, name@));
        if mode == 0 {
            if c == '$' {
                mode = 1;
            } else {
                push_escaped(&mut out, template, i);
                assert(before + (escaped(c) + rest) =~= out@ + rest);
            }
        } else if mode == 1 {
            if c == '{' {
                mode = 2;
                name = String::new();
                assert(name@ =~= Seq::<char>::empty());
            } else if c == '$' {
                out.append("\\$");
                assert(before + ("\\$"@ + rest) =~= out@ + rest);
            } else {
                out.append("\\$");
                push_escaped(&mut out, template, i);
                mode = 0;
                assert(before + ("\\$"@ + escaped(c) + scan_from(ts, i + 1, Scan::Text)) =~= out@ + scan_from(ts, i + 1, Scan::Text));
            }
        } else {
            if c == '}' {
                out.append(macro_regex(name.as_str()));
                mode = 0;
                assert(before + (macro_pattern(name@) + scan_from(ts, i + 1, Scan::Text)) =~= out@ + scan_from(ts, i + 1, Scan::Text));
            } else {
                let ghost old_name = name@;
                name.append(template.substring_char(i, i + 1));
                assert(name@ =~= old_name.push(c));
            }
        }
        i = i + 1;
    }
    let ghost before = out@;
    if mode == 1 {
        out.append("\\$");
    } else if mode == 2 {
        out.append(macro_regex(name.as_str()));
    }
    out.append("$");
    assert(out@ =~= "^"@ + scan_from(ts, 0, Scan::Text) + "$"@);
    out
}


/// A compiled template: the anchored expression and the names of its groups.
#[derive(Debug)]
pub struct Extractor {
    pattern: Pattern,
    names: Vec<Option<String>>,
}

impl Extractor {
    /// The expression the template compiled to.
    pub closed spec fn pattern(&self) -> Seq<char> {
        self.pattern.source()
    }

    /// The names of the groups, by index.
    pub closed spec fn names(&self) -> Seq<Option<Seq<char>>> {
        opt_strs(self.names@)
    }

    /// The names are those of the expression's groups.
    pub open spec fn wf(&self) -> bool {
        self.names() == regex_group_names(self.pattern())
    }

    pub(crate) fn regex(&self) -> (r: &Pattern)
        ensures
            r.source() == self.pattern(),
    {
        &self.pattern
    }

    pub(crate) fn group_names(&self) -> (r: &Vec<Option<String>>)
        ensures
            opt_strs(r@) == self.names(),
    {
        &self.names
    }
}

/// Compiles a line-format template into an extractor. Fails only when the
/// regular-expression engine refuses the compiled expression.
pub fn compile(template: &str) -> (r: Result<Extractor, ConfigError>)
    ensures
        r is Ok <==> regex_accepts(template_pattern(template@)),
        match r {
            Ok(e) => e.wf() && e.pattern() == template_pattern(template@),
            Err(err) => err == ConfigError::InvalidPattern,
        },
{
    let source = template_to_pattern(template);
    match Pattern::new(source.as_str()) {
        Ok(pattern) => {
            let names = pattern.group_names();
            Ok(Extractor { pattern, names })
        },
        Err(_) => Err(ConfigError::InvalidPattern),
    }
}

/// What the pipeline is configured with: the format of its input lines.
#[derive(Debug)]
pub struct Settings {
    pub log_format: Extractor,
}

} // verus!
