//! Trusted declarations of and wrappers around the regex crate: compiling
//! patterns, compiling pattern sets, and querying which patterns of a set
//! match a text.

use vstd::prelude::*;
use regex::Error as RegexError;
use regex::Regex;
use regex::RegexSet;

verus! {

#[verifier::external_type_specification]
#[verifier::external_body]
pub struct ExRegex(Regex);

#[verifier::external_type_specification]
#[verifier::external_body]
pub struct ExRegexSet(RegexSet);

#[verifier::external_type_specification]
#[verifier::external_body]
pub struct ExRegexError(RegexError);

/// Whether `regex::Regex::new` accepts a pattern; a function of the
/// pattern alone.
pub uninterp spec fn regex_valid(pattern: Seq<char>) -> bool;

/// Whether `regex::RegexSet::new` accepts a list of patterns; a function
/// of the list alone.
pub uninterp spec fn regex_set_valid(patterns: Seq<Seq<char>>) -> bool;

/// The patterns a compiled regex set was built from.
pub uninterp spec fn regex_set_patterns(rs: RegexSet) -> Seq<Seq<char>>;

/// The indices of the patterns of `patterns` that match `text`, in
/// ascending order; a function of the patterns and the text alone.
pub uninterp spec fn regex_set_match_seq(patterns: Seq<Seq<char>>, text: Seq<char>) -> Seq<int>;

/// Relies on `regex::Regex::new`: whether a pattern compiles depends on
/// the pattern alone.
#[verifier::external_body]
pub fn compile_regex(pattern: &str) -> (r: Result<Regex, RegexError>)
    ensures
        r is Ok <==> regex_valid(pattern@),
{
    Regex::new(pattern)
}

/// Relies on `regex::RegexSet::new`: whether a list of patterns compiles
/// into a set depends on the list alone, and the compiled set holds
/// exactly those patterns, in order.
#[verifier::external_body]
pub fn compile_regex_set(patterns: &Vec<String>) -> (r: Result<RegexSet, RegexError>)
    ensures
        r is Ok <==> regex_set_valid(patterns@.map_values(|s: String| s@)),
        (r matches Ok(rs) ==> regex_set_patterns(rs) == patterns@.map_values(|s: String| s@)),
{
    RegexSet::new(patterns)
}

/// Relies on `regex::RegexSet::matches` and `SetMatches::iter`: the
/// indices of the matching patterns come back in ascending order, each
/// below the number of patterns in the set.
#[verifier::external_body]
pub fn regex_set_matches(rs: &RegexSet, text: &str) -> (v: Vec<usize>)
    ensures
        v@.map_values(|u: usize| u as int) == regex_set_match_seq(regex_set_patterns(*rs), text@),
        forall|i: int| 0 <= i < v@.len() ==> (#[trigger] v@[i]) < regex_set_patterns(*rs).len(),
        forall|i: int, j: int| 0 <= i < j < v@.len() ==> v@[i] < v@[j],
{
    rs.matches(text).iter().collect()
}

} // verus!
