//! Regular expressions over bytes, from the `regex` crate.
//!
//! What a pattern matches is left to the crate and only named here. That a
//! match depends on nothing but the pattern and the bytes, where matches can
//! lie, and that a set tells which of its patterns match at all is stated.

use regex::bytes::{Regex, RegexBuilder, RegexSet, RegexSetBuilder};
use vstd::prelude::*;

verus! {

#[verifier::external_type_specification]
#[verifier::external_body]
pub struct ExRegex(Regex);

#[verifier::external_type_specification]
#[verifier::external_body]
pub struct ExRegexSet(RegexSet);

#[verifier::external_type_specification]
#[verifier::external_body]
pub struct ExRegexError(regex::Error);

/// The text that a regex was compiled from.
pub uninterp spec fn source_of(re: Regex) -> Seq<char>;

/// The texts that a set was compiled from, in order.
pub uninterp spec fn sources_of(set: RegexSet) -> Seq<Seq<char>>;

/// Whether a pattern compiles within a size limit, on a machine with words of
/// `word_bits` bits: the size of a compiled pattern depends on it.
pub uninterp spec fn compiles(pattern: Seq<char>, size_limit: usize, word_bits: u32) -> bool;

/// Whether patterns compile together within a size limit.
pub uninterp spec fn set_compiles(
    patterns: Seq<Seq<char>>,
    size_limit: usize,
    word_bits: u32,
) -> bool;

/// Start and end of the successive matches of a pattern in a byte string.
pub uninterp spec fn matches_of(pattern: Seq<char>, haystack: Seq<u8>) -> Seq<(int, int)>;

/// The spans that a list of offset pairs stands for.
pub open spec fn offsets(spans: Seq<(usize, usize)>) -> Seq<(int, int)> {
    spans.map_values(|s: (usize, usize)| (s.0 as int, s.1 as int))
}

/// The texts of several string slices.
pub open spec fn texts(ss: Seq<&str>) -> Seq<Seq<char>> {
    ss.map_values(|s: &str| s@)
}

/// `RegexBuilder::new(pattern).size_limit(size_limit).build()`: the compiled
/// pattern, or the crate's error where it does not compile within the limit.
#[verifier::external_body]
pub(crate) fn build(pattern: &str, size_limit: usize) -> (r: Result<Regex, regex::Error>)
    ensures
        r is Ok == compiles(pattern@, size_limit, usize::BITS),
        r matches Ok(re) ==> source_of(re) == pattern@,
{
    RegexBuilder::new(pattern).size_limit(size_limit).build()
}

/// `RegexSetBuilder::new(patterns).size_limit(size_limit).build()`: the
/// patterns compiled together, or the crate's error.
#[verifier::external_body]
pub(crate) fn build_set(patterns: Vec<&str>, size_limit: usize) -> (r: Result<
    RegexSet,
    regex::Error,
>)
    ensures
        r is Ok == set_compiles(texts(patterns@), size_limit, usize::BITS),
        r matches Ok(set) ==> sources_of(set) == texts(patterns@),
{
    RegexSetBuilder::new(patterns).size_limit(size_limit).build()
}

/// `Regex::find_iter`: the successive matches. They lie in the haystack, and
/// none starts before the one in front of it has ended.
#[verifier::external_body]
pub(crate) fn find_all(re: &Regex, haystack: &[u8]) -> (r: Vec<(usize, usize)>)
    ensures
        offsets(r@) == matches_of(source_of(*re), haystack@),
        forall|i: int| 0 <= i < r@.len() ==> (#[trigger] r@[i]).0 <= r@[i].1 <= haystack@.len(),
        forall|i: int, j: int| 0 <= i < j < r@.len() ==> (#[trigger] r@[i]).1 <= (#[trigger] r@[j]).0,
{
    re.find_iter(haystack).map(|m| (m.start(), m.end())).collect()
}

/// `RegexSet::matches`: which patterns of a set match anywhere, in ascending
/// order.
#[verifier::external_body]
pub(crate) fn which_match(set: &RegexSet, haystack: &[u8]) -> (r: Vec<usize>)
    ensures
        forall|i: int, j: int| 0 <= i < j < r@.len() ==> (#[trigger] r@[i]) < (#[trigger] r@[j]),
        forall|k: int|
            0 <= k < r@.len() ==> (#[trigger] r@[k]) < sources_of(*set).len() && matches_of(
                sources_of(*set)[r@[k] as int],
                haystack@,
            ).len() > 0,
        forall|i: int|
            0 <= i < sources_of(*set).len() && matches_of(
                #[trigger] sources_of(*set)[i],
                haystack@,
            ).len() > 0 ==> r@.contains(i as usize),
{
    set.matches(haystack).into_iter().collect()
}

} // verus!
