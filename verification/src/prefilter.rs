use vstd::prelude::*;

verus! {

/// The regular expression that a body is searched for before it is parsed:
/// the match token, its letters in either case.
pub const PREFILTER_PATTERN: &'static str = "(?i)imgur";

/// A compiled regular expression of the `regex` crate. Nothing of it is
/// visible here.
#[verifier::external_type_specification]
#[verifier::external_body]
pub struct ExRegex(regex::bytes::Regex);

/// Whether the `regex` crate accepts `pattern` as a regular expression.
pub uninterp spec fn regex_compiles(pattern: Seq<char>) -> bool;

/// Whether the regular expression `pattern` has a match somewhere in
/// `haystack`, as the `regex` crate finds it.
pub uninterp spec fn regex_search(pattern: Seq<char>, haystack: Seq<u8>) -> bool;

/// The matcher that a worker tries each body with before it parses it.
///
/// It holds a pattern and what the `regex` crate compiled from it. The two
/// are made together by [`Prefilter::new`] and never change.
pub struct Prefilter {
    pattern: String,
    compiled: regex::bytes::Regex,
}

/// What a worker does with a body.
#[derive(Clone, Copy, Debug, PartialEq, Eq, Structural)]
pub enum Triage {
    /// The search found nothing: the body is dropped unparsed.
    Skip,
    /// The search found the token: the body is parsed.
    Parse,
}

/// What follows from the outcome of the search.
pub open spec fn spec_triage(found: bool) -> Triage {
    if found {
        Triage::Parse
    } else {
        Triage::Skip
    }
}

/// Decides from the outcome of the search what is done with the body.
pub fn triage_of(found: bool) -> (triage: Triage)
    ensures
        triage == spec_triage(found),
{
    if found {
        Triage::Parse
    } else {
        Triage::Skip
    }
}

/// `regex::bytes::Regex::new`.
///
/// Trusted: the pattern is compiled exactly when the crate accepts it, which
/// depends on the pattern alone, and the matcher keeps the pattern's text
/// beside what was compiled from it.
#[verifier::external_body]
fn compile(pattern: &str) -> (made: Option<Prefilter>)
    ensures
        made is Some <==> regex_compiles(pattern@),
        made matches Some(prefilter) ==> prefilter.pattern() == pattern@,
{
    match regex::bytes::Regex::new(pattern) {
        Ok(compiled) => Some(Prefilter { pattern: pattern.to_owned(), compiled }),
        Err(_) => None,
    }
}

/// `regex::bytes::Regex::is_match`.
///
/// Trusted: the answer is the one that the crate gives for the matcher's
/// pattern and this haystack, which depends on nothing else. What the answer
/// is for a given pattern is not stated here.
#[verifier::external_body]
fn is_match(prefilter: &Prefilter, haystack: &[u8]) -> (found: bool)
    ensures
        found == regex_search(prefilter.pattern(), haystack@),
{
    prefilter.compiled.is_match(haystack)
}

impl Prefilter {
    /// The pattern that the matcher was compiled from.
    pub closed spec fn pattern(&self) -> Seq<char> {
        self.pattern@
    }

    /// Compiles the prefilter. `None` says that the `regex` crate did not
    /// accept [`PREFILTER_PATTERN`].
    pub fn new() -> (made: Option<Prefilter>)
        ensures
            made is Some <==> regex_compiles(PREFILTER_PATTERN@),
            made matches Some(prefilter) ==> prefilter.pattern() == PREFILTER_PATTERN@,
    {
        compile(PREFILTER_PATTERN)
    }

    /// Searches the raw bytes of `body` for the match token and says whether
    /// the body is worth parsing.
    pub fn triage(&self, body: &[u8]) -> (triage: Triage)
        ensures
            triage == spec_triage(regex_search(self.pattern(), body@)),
    {
        triage_of(is_match(self, body))
    }
}

} // verus!
