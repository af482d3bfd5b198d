//! Boundary to the regex engine: compiled patterns and pattern sets, with
//! their behaviour named as functions of the pattern text and the searched
//! bytes alone.

use vstd::prelude::*;

verus! {

/// What a pattern finds in a byte buffer: the successive non-overlapping
/// match ranges, as (start, end) byte offsets, leftmost first.
pub uninterp spec fn regex_find(pattern: Seq<char>, text: Seq<u8>) -> Seq<(usize, usize)>;

/// Whether the regex engine accepts a single pattern.
pub uninterp spec fn regex_valid(pattern: Seq<char>) -> bool;

/// Whether the regex engine accepts a whole set of patterns compiled at once.
pub uninterp spec fn regex_set_valid(patterns: Seq<Seq<char>>) -> bool;

/// Which patterns of a set match somewhere in a byte buffer: their indices,
/// in ascending order.
pub uninterp spec fn regex_set_hits(patterns: Seq<Seq<char>>, text: Seq<u8>) -> Seq<usize>;

/// The characters a byte buffer decodes to, or None when it is not valid
/// text.
pub uninterp spec fn text_chars(bytes: Seq<u8>) -> Option<Seq<char>>;

/// Declares the byte-oriented compiled regex type of the regex engine.
#[verifier::external_type_specification]
#[verifier::external_body]
pub struct ExRegex(regex::bytes::Regex);

/// Declares the byte-oriented multi-pattern matcher type of the regex engine.
#[verifier::external_type_specification]
#[verifier::external_body]
pub struct ExRegexSet(regex::bytes::RegexSet);

/// A compiled pattern, remembering the pattern text it was built from.
pub struct Pattern {
    re: regex::bytes::Regex,
    src: String,
}

impl Pattern {
    /// The pattern text this pattern was compiled from.
    pub closed spec fn pattern(&self) -> Seq<char> {
        self.src@
    }

    /// Relies on regex::bytes::Regex::new: whether a pattern compiles is a
    /// function of the pattern text alone.
    #[verifier::external_body]
    pub fn new(pattern: &str) -> (r: Option<Pattern>)
        ensures
            r is Some <==> regex_valid(pattern@),
            r matches Some(p) ==> p.pattern() == pattern@,
    {
        match regex::bytes::Regex::new(pattern) {
            Ok(re) => Some(Pattern { re, src: pattern.to_owned() }),
            Err(_) => None,
        }
    }

    /// Relies on regex::bytes::Regex::find_iter: all successive
    /// non-overlapping matches, leftmost first, as byte offsets into the
    /// haystack, so every reported range lies within the haystack.
    #[verifier::external_body]
    pub fn find_all(&self, text: &[u8]) -> (r: Vec<(usize, usize)>)
        ensures
            r@ == regex_find(self.pattern(), text@),
            forall|i: int| 0 <= i < r@.len() ==> (#[trigger] r@[i]).0 <= r@[i].1 <= text@.len(),
    {
        self.re.find_iter(text).map(|m| (m.start(), m.end())).collect()
    }
}

/// A compiled set of patterns, remembering the pattern texts.
pub struct PatternSet {
    set: regex::bytes::RegexSet,
    srcs: Vec<String>,
}

impl PatternSet {
    /// The pattern texts this set was compiled from.
    pub closed spec fn patterns(&self) -> Seq<Seq<char>> {
        self.srcs@.map_values(|p: String| p@)
    }

    /// Relies on regex::bytes::RegexSet::new: whether a set of patterns
    /// compiles together is a function of the pattern texts alone.
    #[verifier::external_body]
    pub fn new(patterns: &Vec<String>) -> (r: Option<PatternSet>)
        ensures
            r is Some <==> regex_set_valid(patterns@.map_values(|p: String| p@)),
            r matches Some(s) ==> s.patterns() == patterns@.map_values(|p: String| p@),
    {
        match regex::bytes::RegexSet::new(patterns) {
            Ok(set) => Some(PatternSet { set, srcs: patterns.clone() }),
            Err(_) => None,
        }
    }

    /// Relies on regex::bytes::RegexSet::matches: the indices of exactly
    /// those patterns of the set that match somewhere in the haystack, in
    /// ascending order; a pattern is reported exactly when a search with that
    /// pattern alone would find a match.
    #[verifier::external_body]
    pub fn matched(&self, text: &[u8]) -> (r: Vec<usize>)
        ensures
            r@ == regex_set_hits(self.patterns(), text@),
            forall|i: int| 0 <= i < r@.len() ==> (#[trigger] r@[i]) < self.patterns().len(),
            forall|i: int, j: int| 0 <= i < j < r@.len() ==> r@[i] < r@[j],
            forall|k: usize|
                0 <= k < self.patterns().len() ==> (r@.contains(k) <==> regex_find(
                    self.patterns()[k as int],
                    text@,
                ).len() > 0),
    {
        self.set.matches(text).iter().collect()
    }
}

/// Relies on core::str::from_utf8: Some exactly when the bytes are valid
/// text, and the decoded characters are a function of the bytes alone.
#[verifier::external_body]
pub fn decode_text(bytes: &[u8]) -> (r: Option<String>)
    ensures
        r is Some <==> text_chars(bytes@) is Some,
        r matches Some(s) ==> Some(s@) == text_chars(bytes@),
{
    match core::str::from_utf8(bytes) {
        Ok(s) => Some(s.to_string()),
        Err(_) => None,
    }
}

} // verus!
