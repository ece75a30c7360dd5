//! Regular expressions, matched by the `regex` crate.
use vstd::prelude::*;

verus! {

#[verifier::external_type_specification]
#[verifier::external_body]
pub struct ExRegex(regex::Regex);

/// Whether `regex::Regex::new` accepts the pattern.
pub uninterp spec fn regex_compiles(pattern: Seq<char>) -> bool;

/// What `regex::Regex::is_match` answers for the pattern and the text.
pub uninterp spec fn regex_is_match(pattern: Seq<char>, text: Seq<char>) -> bool;

/// What `regex::Regex::captures` gives for the pattern and the text: `None` when
/// nothing matches, else the text of every group (group 0 is the whole match),
/// `None` for a group that took no part in the match.
pub uninterp spec fn regex_captures(pattern: Seq<char>, text: Seq<char>) -> Option<
    Seq<Option<Seq<char>>>,
>;

/// A compiled regular expression, kept together with the pattern it was compiled from.
pub struct Pattern {
    source: String,
    compiled: regex::Regex,
}

impl Pattern {
    /// The pattern this expression was compiled from.
    pub closed spec fn source(&self) -> Seq<char> {
        self.source@
    }
}

/// `regex::Regex::new`: `Some` exactly when the crate accepts the pattern.
#[verifier::external_body]
pub(crate) fn compile(pattern: &str) -> (r: Option<Pattern>)
    ensures
        r is Some <==> regex_compiles(pattern@),
        r matches Some(p) ==> p.source() == pattern@,
{
    match regex::Regex::new(pattern) {
        Ok(compiled) => Some(Pattern { source: pattern.to_string(), compiled }),
        Err(_) => None,
    }
}

/// `regex::Regex::is_match` on the compiled pattern.
#[verifier::external_body]
pub(crate) fn is_match(p: &Pattern, text: &str) -> (r: bool)
    ensures
        r == regex_is_match(p.source(), text@),
{
    p.compiled.is_match(text)
}

/// The views of a list of optional strings.
pub open spec fn group_views(groups: Seq<Option<String>>) -> Seq<Option<Seq<char>>> {
    groups.map_values(
        |g: Option<String>|
            match g {
                Some(s) => Some(s@),
                None => None,
            },
    )
}

/// `regex::Regex::captures` on the compiled pattern, each group taken as an owned string.
#[verifier::external_body]
pub(crate) fn captures(p: &Pattern, text: &str) -> (r: Option<Vec<Option<String>>>)
    ensures
        match regex_captures(p.source(), text@) {
            Some(gs) => r matches Some(v) && group_views(v@) == gs,
            None => r is None,
        },
{
    p.compiled.captures(text).map(
        |caps| caps.iter().map(|m| m.map(|m| m.as_str().to_string())).collect(),
    )
}

} // verus!
