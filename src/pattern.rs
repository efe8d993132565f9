use vstd::prelude::*;

use crate::error::ScrapeError;

verus! {

#[verifier::external_type_specification]
#[verifier::external_body]
pub struct ExRegex(regex::Regex);

#[verifier::external_type_specification]
#[verifier::external_body]
pub struct ExRegexError(regex::Error);

/// A compiled regular expression, kept with the text it was compiled from.
/// Only `compile` builds one, so the two always agree.
pub struct Pattern {
    source: String,
    compiled: regex::Regex,
}

impl View for Pattern {
    type V = Seq<char>;

    closed spec fn view(&self) -> Seq<char> {
        self.source@
    }
}

/// The successive non-overlapping matches of `pattern` in `haystack`, each
/// given as the text of every capture group, group 0 first (`None` for a
/// group that took no part in the match).
pub uninterp spec fn capture_groups(pattern: Seq<char>, haystack: Seq<char>) -> Seq<
    Seq<Option<Seq<char>>>,
>;

/// `haystack` with every non-overlapping match of `pattern` replaced by
/// `replacement`, in which `$name` and `${name}` stand for the text of the
/// capture group of that name or number (`$$` for a literal `$`).
pub uninterp spec fn replaced_all(
    pattern: Seq<char>,
    haystack: Seq<char>,
    replacement: Seq<char>,
) -> Seq<char>;

/// The pieces of `haystack` between the successive non-overlapping matches
/// of `pattern`, with the piece before the first match and the one after
/// the last.
pub uninterp spec fn split_pieces(pattern: Seq<char>, haystack: Seq<char>) -> Seq<Seq<char>>;

/// Whether `source` is a regular expression that compiles within the
/// default size limits.
pub uninterp spec fn regex_compiles(source: Seq<char>) -> bool;

/// Relies on `regex::Regex::new`: compiles `source`, or reports the error.
#[verifier::external_body]
fn compile(source: &str) -> (r: Result<Pattern, regex::Error>)
    ensures
        r is Ok <==> regex_compiles(source@),
        r matches Ok(p) ==> p@ == source@,
{
    match regex::Regex::new(source) {
        Ok(compiled) => Ok(Pattern { source: source.to_string(), compiled }),
        Err(e) => Err(e),
    }
}

/// Relies on `regex::Regex::captures_iter`: the capture groups of each
/// successive match in `haystack`, as owned strings.
#[verifier::external_body]
pub(crate) fn captures_of(p: &Pattern, haystack: &str) -> (r: Vec<Vec<Option<String>>>)
    ensures
        r.deep_view() == capture_groups(p@, haystack@),
{
    let mut all = Vec::new();
    for caps in p.compiled.captures_iter(haystack) {
        all.push(caps.iter().map(|m| m.map(|m| m.as_str().to_string())).collect());
    }
    all
}

/// Relies on `regex::Regex::replace_all`: every match in `haystack` replaced
/// by `replacement`.
#[verifier::external_body]
pub(crate) fn replace_matches(p: &Pattern, haystack: &str, replacement: &str) -> (r: String)
    ensures
        r@ == replaced_all(p@, haystack@, replacement@),
{
    p.compiled.replace_all(haystack, replacement).into_owned()
}

/// Relies on `regex::Regex::split`: the text between the matches in
/// `haystack`, as owned strings.
#[verifier::external_body]
pub(crate) fn split_matches(p: &Pattern, haystack: &str) -> (r: Vec<String>)
    ensures
        r.deep_view() == split_pieces(p@, haystack@),
{
    p.compiled.split(haystack).map(|s| s.to_string()).collect()
}

impl Pattern {
    /// Compiles `source` as a regular expression.
    pub fn new(source: &str) -> (r: Result<Pattern, ScrapeError>)
        ensures
            r is Ok <==> regex_compiles(source@),
            r matches Ok(p) ==> p@ == source@,
            r matches Err(e) ==> e == ScrapeError::InvalidPattern,
    {
        match compile(source) {
            Ok(p) => Ok(p),
            Err(_) => Err(ScrapeError::InvalidPattern),
        }
    }
}

} // verus!
