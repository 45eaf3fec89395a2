//! Classification of parsed lines against per-process rules.
use vstd::prelude::*;
use crate::parser::{LogLine, LogLineView};
use crate::pattern::{opt_strs, regex_accepts, regex_captures, regex_group_names, Pattern};
use crate::settings::ConfigError;
use crate::text::{pair_views, str_equal};

verus! {

/// A line that satisfied a rule, with the named groups the rule captured.
#[derive(Debug)]
pub struct MatchedLine {
    pub rule: String,
    pub line: LogLine,
    /// Name and text of each captured group; where a name occurs twice, the
    /// first pair counts.
    pub fields: Vec<(String, String)>,
}

/// The mathematical content of a [`MatchedLine`].
pub ghost struct MatchedView {
    pub rule: Seq<char>,
    pub line: LogLineView,
    pub fields: Seq<(Seq<char>, Seq<char>)>,
}

impl View for MatchedLine {
    type V = MatchedView;

    open spec fn view(&self) -> MatchedView {
        MatchedView { rule: self.rule@, line: self.line@, fields: pair_views(self.fields@) }
    }
}


/// A named pattern for the messages of one process.
#[derive(Debug)]
pub struct Rule {
    name: String,
    process: String,
    pattern: Pattern,
    names: Vec<Option<String>>,
}

/// The mathematical content of a [`Rule`].
pub ghost struct RuleView {
    pub name: Seq<char>,
    pub process: Seq<char>,
    pub pattern: Seq<char>,
    /// The names of the pattern's groups, by index.
    pub names: Seq<Option<Seq<char>>>,
}

impl View for Rule {
    type V = RuleView;

    closed spec fn view(&self) -> RuleView {
        RuleView {
            name: self.name@,
            process: self.process@,
            pattern: self.pattern.source(),
            names: opt_strs(self.names@),
        }
    }
}

pub open spec fn rule_views(v: Seq<Rule>) -> Seq<RuleView> {
    v.map_values(|r: Rule| r@)
}

/// The rule's group names are those of its pattern.
pub open spec fn rule_wf(r: RuleView) -> bool {
    r.names == regex_group_names(r.pattern)
}

/// The named groups of a match, each with its text; `None` when a named
/// group among the first `n` took no part in the match.
pub open spec fn named_fields(names: Seq<Option<Seq<char>>>, vals: Seq<Option<Seq<char>>>, n: int) -> Option<
    Seq<(Seq<char>, Seq<char>)>,
>
    decreases n,
{
    if n <= 0 {
        Some(Seq::empty())
    } else {
        match named_fields(names, vals, n - 1) {
            None => None,
            Some(p) => match names[n - 1] {
                None => Some(p),
                Some(nm) => if n - 1 < vals.len() && vals[n - 1] is Some {
                    Some(p.push((nm, vals[n - 1]->Some_0)))
                } else {
                    None
                },
            },
        }
    }
}

/// The fields a rule captures from a line; `None` when the line has no
/// process or message, is not the rule's process, the message does not
/// match, or a named group is missing.
pub open spec fn rule_match(r: RuleView, l: LogLineView) -> Option<Seq<(Seq<char>, Seq<char>)>> {
    match (l.process, l.message) {
        (Some(p), Some(msg)) => if r.process != p {
            None
        } else {
            match regex_captures(r.pattern, msg) {
                None => None,
                Some(vals) => named_fields(r.names, vals, r.names.len() as int),
            }
        },
        _ => None,
    }
}

/// The first colon of `s` at or after `i`, or the length of `s`.
pub open spec fn next_colon(s: Seq<char>, i: int) -> int
    decreases s.len() - i,
{
    if i < 0 || i >= s.len() {
        s.len() as int
    } else if s[i] == ':' {
        i
    } else {
        next_colon(s, i + 1)
    }
}

/// The name, process and pattern of a rule line `name:process:tag:pattern`;
/// the pattern is the rest of the line, colons included.
pub open spec fn rule_parts(s: Seq<char>) -> Option<(Seq<char>, Seq<char>, Seq<char>)> {
    let c1 = next_colon(s, 0);
    let c2 = next_colon(s, c1 + 1);
    let c3 = next_colon(s, c2 + 1);
    if c3 < s.len() {
        Some((s.subrange(0, c1), s.subrange(c1 + 1, c2), s.subrange(c3 + 1, s.len() as int)))
    } else {
        None
    }
}

proof fn lemma_next_colon(s: Seq<char>, i: int)
    requires
        0 <= i,
    ensures
        i <= next_colon(s, i) <= s.len() || (i > s.len() && next_colon(s, i) == s.len()),
        next_colon(s, i) < s.len() ==> s[next_colon(s, i)] == ':',
    decreases s.len() - i,
{
    if i < s.len() && s[i] != ':' {
        lemma_next_colon(s, i + 1);
    }
}

/// The first colon of `s` at or after `i`, or the length of `s`.
fn find_colon(s: &str, n: usize, i: usize) -> (r: usize)
    requires
        n == s@.len(),
    ensures
        r as int == next_colon(s@, i as int),
{
    let mut j: usize = i;
    while j < n
        invariant
            n == s@.len(),
            i <= j,
            next_colon(s@, i as int) == next_colon(s@, j as int),
        decreases n - j,
    {
        if s.get_char(j) == ':' {
            return j;
        }
        j = j + 1;
    }
    n
}

impl Rule {
    /// A rule named `name` for the messages of `process`. Fails when the
    /// pattern is refused.
    pub fn new(name: &str, process: &str, regex: &str) -> (r: Result<Rule, ConfigError>)
        ensures
            r is Ok <==> regex_accepts(regex@),
            match r {
                Ok(rule) => rule@ == (RuleView {
                    name: name@,
                    process: process@,
                    pattern: regex@,
                    names: regex_group_names(regex@),
                }),
                Err(e) => e == ConfigError::InvalidPattern,
            },
    {
        match Pattern::new(regex) {
            Ok(pattern) => {
                let names = pattern.group_names();
                Ok(Rule { name: String::from_str(name), process: String::from_str(process), pattern, names })
            },
            Err(_) => Err(ConfigError::InvalidPattern),
        }
    }

    /// Reads a rule line `name:process:tag:pattern`.
    pub fn from_string(line: &str) -> (r: Result<Rule, ConfigError>)
        ensures
            match rule_parts(line@) {
                None => r == Err::<Rule, ConfigError>(ConfigError::MalformedRule),
                Some((name, process, regex)) => {
                    &&& r is Ok <==> regex_accepts(regex)
                    &&& match r {
                        Ok(rule) => rule@ == (RuleView {
                            name,
                            process,
                            pattern: regex,
                            names: regex_group_names(regex),
                        }),
                        Err(e) => e == ConfigError::InvalidPattern,
                    }
                },
            },
    {
        let n = line.unicode_len();
        let c1 = find_colon(line, n, 0);
        proof {
            lemma_next_colon(line@, 0);
        }
        if c1 >= n {
            return Err(ConfigError::MalformedRule);
        }
        let c2 = find_colon(line, n, c1 + 1);
        proof {
            lemma_next_colon(line@, c1 + 1);
        }
        if c2 >= n {
            return Err(ConfigError::MalformedRule);
        }
        let c3 = find_colon(line, n, c2 + 1);
        proof {
            lemma_next_colon(line@, c2 + 1);
        }
        if c3 >= n {
            return Err(ConfigError::MalformedRule);
        }
        Rule::new(
            line.substring_char(0, c1),
            line.substring_char(c1 + 1, c2),
            line.substring_char(c3 + 1, n),
        )
    }

    /// The rule's name.
    pub fn name(&self) -> (r: &str)
        ensures
            r@ == self@.name,
    {
        self.name.as_str()
    }

    /// Whether the rule's pattern has a group named `field`.
    pub fn declares(&self, field: &str) -> (r: bool)
        ensures
            r == self@.names.contains(Some(field@)),
    {
        let ghost ns = self@.names;
        let mut i: usize = 0;
        while i < self.names.len()
            invariant
                i <= self.names.len(),
                ns == self@.names,
                forall|j: int| 0 <= j < i ==> ns[j] != Some(field@),
            decreases self.names.len() - i,
        {
            assert(ns[i as int] == match self.names@[i as int] {
                Some(x) => Some(x@),
                None => None,
            });
            if let Some(n) = &self.names[i] {
                if str_equal(n.as_str(), field) {
                    return true;
                }
            }
            i = i + 1;
        }
        false
    }

    /// Whether the rule's group names are those of its pattern.
    pub open spec fn wf(&self) -> bool {
        rule_wf(self@)
    }

    /// The fields of a match, given what the rule's groups captured (by
    /// index): each named group with its text, in group order; `None` when a
    /// named group took no part in the match.
    pub fn collect_fields(&self, vals: &Vec<Option<String>>) -> (r: Option<Vec<(String, String)>>)
        ensures
            match r {
                Some(f) => named_fields(self@.names, opt_strs(vals@), self@.names.len() as int) == Some(
                    pair_views(f@),
                ),
                None => named_fields(self@.names, opt_strs(vals@), self@.names.len() as int) is None,
            },
    {
        let ghost ns = self@.names;
        let ghost vs = opt_strs(vals@);
        let mut out: Vec<(String, String)> = Vec::new();
        let mut i: usize = 0;
        while i < self.names.len()
            invariant
                i <= self.names.len(),
                ns == self@.names,
                ns.len() == self.names.len(),
                vs == opt_strs(vals@),
                named_fields(ns, vs, i as int) == Some(pair_views(out@)),
            decreases self.names.len() - i,
        {
            let ghost prev = out@;
            assert(ns[i as int] == match self.names@[i as int] {
                Some(x) => Some(x@),
                None => None,
            });
            match &self.names[i] {
                None => {},
                Some(nm) => {
                    if i < vals.len() {
                        assert(vs[i as int] == match vals@[i as int] {
                            Some(x) => Some(x@),
                            None => None,
                        });
                        match &vals[i] {
                            Some(v) => {
                                out.push((nm.clone(), v.clone()));
                                assert(pair_views(out@) =~= pair_views(prev).push((nm@, v@)));
                            },
                            None => {
                                proof {
                                    lemma_named_fields_none(ns, vs, i as int + 1, ns.len() as int);
                                }
                                return None;
                            },
                        }
                    } else {
                        proof {
                            lemma_named_fields_none(ns, vs, i as int + 1, ns.len() as int);
                        }
                        return None;
                    }
                },
            }
            i = i + 1;
        }
        Some(out)
    }

    /// Matches the rule against a line: the line must come from the rule's
    /// process, its message must match the pattern, and every named group must
    /// take part in the match.
    pub fn is_match(&self, line: &LogLine) -> (r: Option<MatchedLine>)
        requires
            self.wf(),
        ensures
            match r {
                Some(m) => rule_match(self@, line@) == Some(m@.fields) && m@.rule == self@.name
                    && m@.line == line@,
                None => rule_match(self@, line@) is None,
            },
    {
        let process = match line.process() {
            Some(p) => p,
            None => {
                return None;
            },
        };
        if !str_equal(self.process.as_str(), process) {
            return None;
        }
        let message = match line.message() {
            Some(m) => m,
            None => {
                return None;
            },
        };
        let vals = match self.pattern.captures(message) {
            Some(v) => v,
            None => {
                return None;
            },
        };
        match self.collect_fields(&vals) {
            Some(fields) => Some(MatchedLine { rule: self.name.clone(), line: line.copy(), fields }),
            None => None,
        }
    }
}

proof fn lemma_named_fields_none(names: Seq<Option<Seq<char>>>, vals: Seq<Option<Seq<char>>>, i: int, n: int)
    requires
        0 < i <= n,
        named_fields(names, vals, i) is None,
    ensures
        named_fields(names, vals, n) is None,
    decreases n - i,
{
    if i < n {
        lemma_named_fields_none(names, vals, i + 1, n);
    }
}

/// The matches of a line against rules, in rule order.
pub open spec fn classify_spec(rules: Seq<RuleView>, l: LogLineView) -> Seq<MatchedView>
    decreases rules.len(),
{
    if rules.len() == 0 {
        Seq::empty()
    } else {
        let r = rules.last();
        classify_spec(rules.drop_last(), l) + match rule_match(r, l) {
            Some(f) => seq![MatchedView { rule: r.name, line: l, fields: f }],
            None => Seq::empty(),
        }
    }
}

pub open spec fn matched_views(v: Seq<MatchedLine>) -> Seq<MatchedView> {
    v.map_values(|m: MatchedLine| m@)
}

/// Classifies a line against rules in their configured order; every rule
/// that matches is reported.
pub fn classify(rules: &Vec<Rule>, line: &LogLine) -> (r: Vec<MatchedLine>)
    requires
        forall|i: int| 0 <= i < rules.len() ==> (#[trigger] rules@[i]).wf(),
    ensures
        matched_views(r@) == classify_spec(rule_views(rules@), line@),
{
    let ghost rv = rule_views(rules@);
    let mut out: Vec<MatchedLine> = Vec::new();
    let mut i: usize = 0;
    while i < rules.len()
        invariant
            i <= rules.len(),
            rv == rule_views(rules@),
            forall|k: int| 0 <= k < rules.len() ==> (#[trigger] rules@[k]).wf(),
            matched_views(out@) == classify_spec(rv.take(i as int), line@),
        decreases rules.len() - i,
    {
        let ghost prev = out@;
        assert(rv.take(i + 1).drop_last() =~= rv.take(i as int));
        assert(rv.take(i + 1).last() == rules@[i as int]@);
        match rules[i].is_match(line) {
            Some(m) => {
                out.push(m);
                assert(matched_views(out@) =~= matched_views(prev) + seq![m@]);
            },
            None => {
                assert(matched_views(out@) =~= matched_views(prev) + Seq::<MatchedView>::empty());
            },
        }
        i = i + 1;
    }
    assert(rv.take(i as int) =~= rv);
    out
}

/// Classification keeps rule order: classifying against the rules `a`
/// followed by the rules `b` reports the matches of `a`, then those of `b`.
pub proof fn lemma_classify_order(a: Seq<RuleView>, b: Seq<RuleView>, l: LogLineView)
    ensures
        classify_spec(a + b, l) == classify_spec(a, l) + classify_spec(b, l),
    decreases b.len(),
{
    if b.len() == 0 {
        assert(a + b =~= a);
        assert(classify_spec(a, l) + classify_spec(b, l) =~= classify_spec(a, l));
    } else {
        lemma_classify_order(a, b.drop_last(), l);
        assert((a + b).drop_last() =~= a + b.drop_last());
        assert((a + b).last() == b.last());
        let tail = match rule_match(b.last(), l) {
            Some(f) => seq![MatchedView { rule: b.last().name, line: l, fields: f }],
            None => Seq::empty(),
        };
        assert(classify_spec(a, l) + classify_spec(b.drop_last(), l) + tail =~= classify_spec(a, l) + (
        classify_spec(b.drop_last(), l) + tail));
    }
}

} // verus!
