//! Compiled regular expressions, with the source text they were built from.
use vstd::prelude::*;

verus! {

#[verifier::external_type_specification]
#[verifier::external_body]
pub struct ExRegex(regex::Regex);

#[verifier::external_type_specification]
#[verifier::external_body]
pub struct ExRegexError(regex::Error);

/// Whether the regex engine accepts `pattern` (syntax and default size limit).
pub uninterp spec fn regex_accepts(pattern: Seq<char>) -> bool;

/// The groups of the leftmost-first match of `pattern` in `text`, in the order
/// of their opening parenthesis, or `None` when there is no match.
pub uninterp spec fn regex_captures(pattern: Seq<char>, text: Seq<char>) -> Option<Seq<Option<Seq<char>>>>;

/// The names of the groups of `pattern`, in the order of their opening
/// parenthesis, `None` for an unnamed group.
pub uninterp spec fn regex_group_names(pattern: Seq<char>) -> Seq<Option<Seq<char>>>;

/// The text of each optional string.
pub open spec fn opt_strs(v: Seq<Option<String>>) -> Seq<Option<Seq<char>>> {
    v.map_values(|o: Option<String>| match o {
        Some(s) => Some(s@),
        None => None,
    })
}

/// A regular expression together with the text it was compiled from.
#[derive(Debug)]
pub struct Pattern {
    source: String,
    regex: regex::Regex,
}

impl Pattern {
    /// The text the expression was compiled from.
    pub closed spec fn source(&self) -> Seq<char> {
        self.source@
    }

    /// Relies on regex::Regex::new: it fails exactly on the patterns the
    /// engine refuses.
    #[verifier::external_body]
    pub(crate) fn new(source: &str) -> (r: Result<Pattern, regex::Error>)
        ensures
            r is Ok <==> regex_accepts(source@),
            r is Ok ==> r->Ok_0.source() == source@,
    {
        match regex::Regex::new(source) {
            Ok(regex) => Ok(Pattern { source: source.to_string(), regex }),
            Err(e) => Err(e),
        }
    }

    /// Relies on regex::Regex::captures: the groups of the first match, each
    /// with the text it matched.
    #[verifier::external_body]
    pub(crate) fn captures(&self, text: &str) -> (r: Option<Vec<Option<String>>>)
        ensures
            r is Some <==> regex_captures(self.source(), text@) is Some,
            r is Some ==> opt_strs(r->Some_0@) == regex_captures(self.source(), text@)->Some_0,
    {
        match self.regex.captures(text) {
            Some(caps) => Some(caps.iter().map(|m| m.map(|m| m.as_str().to_string())).collect()),
            None => None,
        }
    }

    /// Relies on regex::Regex::capture_names: the name of each group, by index.
    #[verifier::external_body]
    pub(crate) fn group_names(&self) -> (r: Vec<Option<String>>)
        ensures
            opt_strs(r@) == regex_group_names(self.source()),
    {
        self.regex.capture_names().map(|n| n.map(|n| n.to_string())).collect()
    }
}

} // verus!
