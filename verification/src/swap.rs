//! Replacing search patterns in text, through the `aho-corasick` crate.
use vstd::prelude::*;
use crate::uuid_text::views;

verus! {

/// Declares the automaton type of `aho-corasick` to Verus.
#[verifier::external_type_specification]
#[verifier::external_body]
pub struct ExAhoCorasick(aho_corasick::AhoCorasick);

/// The patterns that an automaton searches for, in pattern-index order.
pub uninterp spec fn matcher_patterns(ac: aho_corasick::AhoCorasick) -> Seq<Seq<char>>;

/// What `replace_all` gives for `haystack` with an automaton that
/// `new_matcher` built (standard match kind, unanchored searches): every
/// match of the patterns replaced by the replacement with the same index.
pub uninterp spec fn replaced_all(
    patterns: Seq<Seq<char>>,
    replacements: Seq<Seq<char>>,
    haystack: Seq<char>,
) -> Seq<char>;

/// Whether `AhoCorasick::new` builds an automaton for `patterns`: it
/// refuses only patterns whose automaton would outgrow the crate's limits
/// on states, patterns or pattern length.
pub uninterp spec fn matcher_builds(patterns: Seq<Seq<char>>) -> bool;

/// The automaton was built with the crate's defaults: standard match kind
/// and unanchored searches (so that `replace_all` cannot fail on it).
pub uninterp spec fn standard_matcher(ac: aho_corasick::AhoCorasick) -> bool;

/// `p` occurs somewhere in `h`.
pub open spec fn occurs_in(p: Seq<char>, h: Seq<char>) -> bool {
    exists|i: int| 0 <= i && i + p.len() <= h.len() && #[trigger] h.subrange(i, i + p.len()) == p
}

/// Builds an automaton that searches for `patterns`.
///
/// Trusted: `aho_corasick::AhoCorasick::new`, which fails only when the
/// automaton would exceed the crate's size limits (whether it does is
/// named, not described; with no pattern at all it never does); the
/// automaton built searches for exactly the given patterns, in the given
/// order.
#[verifier::external_body]
pub(crate) fn new_matcher(patterns: &Vec<String>) -> (r: Option<aho_corasick::AhoCorasick>)
    ensures
        r is Some <==> matcher_builds(views(patterns@)),
        patterns@.len() == 0 ==> r is Some,
        r matches Some(ac) ==> matcher_patterns(ac) == views(patterns@) && standard_matcher(ac),
{
    aho_corasick::AhoCorasick::new(patterns).ok()
}

/// Replaces every match in `haystack` by the replacement of the matching
/// pattern.
///
/// Trusted: `aho_corasick::AhoCorasick::replace_all`, which panics only
/// when the replacement count differs from the pattern count or when the
/// automaton supports anchored searches only (both ruled out by
/// `requires`), and which leaves a haystack in which no pattern occurs
/// unchanged.
#[verifier::external_body]
pub(crate) fn matcher_replace_all(
    ac: &aho_corasick::AhoCorasick,
    haystack: &str,
    replacements: &Vec<String>,
) -> (r: String)
    requires
        standard_matcher(*ac),
        replacements@.len() == matcher_patterns(*ac).len(),
    ensures
        r@ == replaced_all(matcher_patterns(*ac), views(replacements@), haystack@),
        (forall|k: int| 0 <= k < matcher_patterns(*ac).len() ==> !occurs_in(#[trigger] matcher_patterns(*ac)[k], haystack@))
            ==> r@ == haystack@,
{
    ac.replace_all(haystack, replacements)
}

} // verus!
