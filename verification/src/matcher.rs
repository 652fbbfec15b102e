//! Channel matchers: compiled regular expressions and the searches the
//! extractor runs with them.
//!
//! The searches themselves are done by the `regex` crate. What this module
//! states about their results is taken on trust from that crate's
//! documentation; everything built on top of them is verified.

use crate::text::is_boundary;
use vstd::prelude::*;

verus! {

#[verifier::external_type_specification]
#[verifier::external_body]
pub struct ExRegex(regex::Regex);

#[verifier::external_type_specification]
#[verifier::external_body]
pub struct ExRegexError(regex::Error);

/// Whether `regex::Regex::new` compiles `pattern`: it does where the pattern
/// is well-formed and the program made of it stays within the size that the
/// `regex` crate allows by default.
pub uninterp spec fn regex_compiles(pattern: Seq<char>) -> bool;

/// The matches that `regex::Regex::find_iter` yields, in the order in which
/// it yields them, for the regex compiled from `pattern` on `haystack`. Each
/// match is the pair of its start and end byte offsets.
pub uninterp spec fn regex_find_all(pattern: Seq<char>, haystack: Seq<char>) -> Seq<(usize, usize)>;

/// The byte offsets of capture group `group` that
/// `regex::Regex::captures_read_at` records for the regex compiled from
/// `pattern`, searching `haystack` from byte offset `start`; `None` when the
/// search finds nothing, when the pattern has no such group or when the
/// group took no part in the match.
pub uninterp spec fn regex_group_at(
    pattern: Seq<char>,
    haystack: Seq<char>,
    start: int,
    group: int,
) -> Option<(usize, usize)>;

/// A span is a pair of boundaries of `haystack`, the first not behind the
/// second.
pub open spec fn span_fits(span: (usize, usize), haystack: Seq<char>) -> bool {
    &&& span.0 <= span.1
    &&& is_boundary(haystack, span.0 as int)
    &&& is_boundary(haystack, span.1 as int)
}

/// Every span fits `haystack`, and each starts where the one before it ended
/// or later.
pub open spec fn spans_fit(spans: Seq<(usize, usize)>, haystack: Seq<char>) -> bool {
    &&& forall|i: int| 0 <= i < spans.len() ==> span_fits(#[trigger] spans[i], haystack)
    &&& forall|i: int, j: int|
        0 <= i < j < spans.len() ==> (#[trigger] spans[i]).1 <= (#[trigger] spans[j]).0
}

/// One channel's matcher: a pattern and the regex compiled from it.
///
/// A `Matcher` is only ever built by [`Matcher::new`], so `regex` is always
/// the regex that `regex::Regex::new` made of `pattern`. The searches below
/// rely on that.
pub struct Matcher {
    pattern: String,
    regex: regex::Regex,
}

impl View for Matcher {
    type V = Seq<char>;

    closed spec fn view(&self) -> Seq<char> {
        self.pattern@
    }
}

/// Calls `regex::Regex::new`.
///
/// Claimed of it: whether it succeeds is a function of the pattern. Which
/// patterns compile is for the `regex` crate to say.
#[verifier::external_body]
fn compile(pattern: &str) -> (r: Result<regex::Regex, regex::Error>)
    ensures
        r is Ok <==> regex_compiles(pattern@),
{
    regex::Regex::new(pattern)
}

/// Calls `regex::Regex::find_iter` and collects the offsets of every match.
///
/// Claimed of it: the result is a function of the pattern and the haystack;
/// the offsets of a match never split a character, its start does not exceed
/// its end, and the matches are successive and do not overlap.
#[verifier::external_body]
pub(crate) fn find_spans(matcher: &Matcher, haystack: &str) -> (spans: Vec<(usize, usize)>)
    ensures
        spans@ == regex_find_all(matcher@, haystack@),
        spans_fit(spans@, haystack@),
{
    matcher.regex.find_iter(haystack).map(|m| (m.start(), m.end())).collect()
}

/// Calls `regex::Regex::captures_read_at` from `start` and reads capture
/// group `group` out of the locations it filled in.
///
/// Claimed of it: the result is a function of the pattern, the haystack,
/// the start and the group; the offsets of a group that took part in the
/// match never split a character, and its start does not exceed its end.
/// The search panics for a `start` behind the end of the haystack;
/// `requires` allows only offsets inside it that do not split a character.
#[verifier::external_body]
pub(crate) fn group_span(matcher: &Matcher, haystack: &str, start: usize, group: usize) -> (found:
    Option<(usize, usize)>)
    requires
        is_boundary(haystack@, start as int),
    ensures
        found == regex_group_at(matcher@, haystack@, start as int, group as int),
        found matches Some(span) ==> span_fits(span, haystack@),
{
    let mut locations = matcher.regex.capture_locations();
    matcher.regex.captures_read_at(&mut locations, haystack, start);
    locations.get(group)
}

/// A pattern that the `regex` crate would not compile.
#[derive(Clone, Copy, Debug, PartialEq, Eq, Structural)]
pub struct InvalidPattern;

impl Matcher {
    /// Builds the matcher for a compilation that has been attempted: the
    /// matcher of `pattern` when it produced a regex, the error otherwise.
    fn assemble(pattern: &str, compiled: Result<regex::Regex, regex::Error>) -> (r: Result<
        Matcher,
        InvalidPattern,
    >)
        ensures
            r is Ok <==> compiled is Ok,
            r matches Ok(m) ==> m@ == pattern@,
    {
        match compiled {
            Ok(regex) => Ok(Matcher { pattern: pattern.to_owned(), regex }),
            Err(_) => Err(InvalidPattern),
        }
    }

    /// Compiles `pattern`. It gives the matcher of that pattern where the
    /// `regex` crate compiles it, and the error where it does not.
    pub fn new(pattern: &str) -> (r: Result<Matcher, InvalidPattern>)
        ensures
            r is Ok <==> regex_compiles(pattern@),
            r matches Ok(m) ==> m@ == pattern@,
    {
        Matcher::assemble(pattern, compile(pattern))
    }

    /// The pattern this matcher was compiled from.
    pub fn pattern(&self) -> (p: &str)
        ensures
            p@ == self@,
    {
        self.pattern.as_str()
    }
}

} // verus!
