//! The edit distance between a name and a query, which the `distance` crate
//! computes.

use vstd::prelude::*;

verus! {

/// The Damerau-Levenshtein distance between two strings: the least number
/// of insertions, deletions, substitutions and transpositions of characters
/// that turn one into the other.
pub uninterp spec fn damerau_levenshtein_distance(s: Seq<char>, t: Seq<char>) -> nat;

/// Calls `distance::damerau_levenshtein`. Assumed of it: the result depends
/// on the characters of the two strings alone. The function builds a table
/// of `(s.chars().count() + 2) * (t.chars().count() + 2)` cells, so its cost
/// grows with the product of the two lengths.
#[verifier::external_body]
pub(crate) fn edit_distance(s: &str, t: &str) -> (d: usize)
    ensures
        d == damerau_levenshtein_distance(s@, t@),
{
    distance::damerau_levenshtein(s, t)
}

} // verus!
