//! The matcher: one automaton over the whole vocabulary, which finds the
//! occurrences of all its terms in a text in one pass.

use crate::term_set::{ascending, byte_strings, TermSet};
use aho_corasick::{AhoCorasick, AhoCorasickBuilder, MatchKind};
use vstd::prelude::*;
use vstd::string::StringSliceAdditionalSpecFns;

verus! {

/// A matcher for a vocabulary, built once and then only read. It holds an
/// automaton of the crate `aho_corasick`, of which nothing is known here but
/// what `compile` and `search` state.
#[verifier::external_body]
pub struct Matcher {
    automaton: AhoCorasick,
}

/// The patterns that a matcher was built from, in the order in which they
/// were given.
pub uninterp spec fn patterns_of(matcher: Matcher) -> Seq<Seq<u8>>;

/// The matches of `patterns` in `haystack` that do not overlap, found from
/// left to right, as pairs of the offsets at which a match starts and ends:
/// each is the leftmost match after the one before it, and of the patterns
/// that match at that place the longest.
pub uninterp spec fn leftmost_longest(patterns: Seq<Seq<u8>>, haystack: Seq<u8>) -> Seq<
    (usize, usize),
>;

/// `AhoCorasickBuilder::build` of `aho_corasick`, on a builder set to
/// leftmost-longest matching and to a full automaton. It is claimed that the
/// automaton is one of the patterns given. With `usize` state identifiers,
/// which `build` takes, the build does not fail.
#[verifier::external_body]
fn compile(patterns: &Vec<&str>) -> (matcher: Matcher)
    ensures
        patterns_of(matcher) == byte_strings(patterns@),
{
    Matcher {
        automaton: AhoCorasickBuilder::new().match_kind(MatchKind::LeftmostLongest).dfa(true).build(
            patterns,
        ),
    }
}

/// `AhoCorasick::find_iter` of `aho_corasick`, each match turned into the
/// pair of its start and its end. It is claimed that the matches depend on
/// the patterns of the automaton and on the haystack alone;
/// `leftmost_longest` is the name of what comes out.
#[verifier::external_body]
fn search(matcher: &Matcher, haystack: &str) -> (hits: Vec<(usize, usize)>)
    ensures
        hits@ == leftmost_longest(patterns_of(*matcher), haystack.spec_bytes()),
{
    matcher.automaton.find_iter(haystack).map(|m| (m.start(), m.end())).collect()
}

impl Matcher {
    /// The matcher for the terms of `vocabulary`: its patterns are those
    /// terms in ascending order.
    pub fn new(vocabulary: &TermSet) -> (matcher: Matcher)
        ensures
            ascending(patterns_of(matcher)),
            patterns_of(matcher).to_set() == vocabulary@,
    {
        compile(vocabulary.terms())
    }

    /// The occurrences in `text` of the patterns, as pairs of offsets:
    /// leftmost first, and of several patterns at one place the longest; no
    /// two overlap.
    pub fn find_all(&self, text: &str) -> (hits: Vec<(usize, usize)>)
        ensures
            hits@ == leftmost_longest(patterns_of(*self), text.spec_bytes()),
    {
        search(self, text)
    }
}

} // verus!
