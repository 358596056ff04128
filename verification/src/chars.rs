//! Character classes used by the matcher, and the contracts assumed of the
//! standard library's character methods.

use vstd::prelude::*;

verus! {

/// Whether `c` is an upper-case letter: whether it has the property
/// `Uppercase` of the Unicode standard, as `char::is_uppercase` decides it.
pub uninterp spec fn is_upper(c: char) -> bool;

/// A character together with its case: `upper` says whether it is an
/// upper-case letter.
#[derive(Clone, Copy, Debug, PartialEq, Eq)]
pub struct Letter {
    pub ch: char,
    pub upper: bool,
}

/// A character with its case.
pub open spec fn letter_of(c: char) -> Letter {
    Letter { ch: c, upper: is_upper(c) }
}

/// The letters of a string: each character with its case.
pub open spec fn letters(s: Seq<char>) -> Seq<Letter> {
    Seq::new(s.len(), |i: int| letter_of(s[i]))
}

/// ASCII case folding: `A` to `Z` map to `a` to `z`, every other character
/// is left as it is.
pub open spec fn ascii_lower(c: char) -> char {
    if 'A' <= c && c <= 'Z' {
        ((c as u32) + 32) as char
    } else {
        c
    }
}

/// The characters after which a match counts as the start of a word.
pub open spec fn is_separator(c: char) -> bool {
    c == ' ' || c == '_' || c == '-' || c == '/' || c == '\\'
}

/// Two characters match when they are equal after ASCII case folding.
pub open spec fn chars_match(a: char, b: char) -> bool {
    ascii_lower(a) == ascii_lower(b)
}

/// Assumed of `char::is_uppercase`: its result depends on the character
/// alone.
pub assume_specification[ char::is_uppercase ](c: char) -> (b: bool)
    ensures
        b == is_upper(c),
;

/// Assumed of `char::to_ascii_lowercase`: ASCII upper-case letters are mapped
/// to their lower-case counterparts and nothing else changes.
pub assume_specification[ char::to_ascii_lowercase ](c: &char) -> (r: char)
    ensures
        r == ascii_lower(*c),
;

/// Decides whether `c` is one of the five separator characters.
pub fn is_separator_char(c: char) -> (b: bool)
    ensures
        b == is_separator(c),
{
    c == ' ' || c == '_' || c == '-' || c == '/' || c == '\\'
}

} // verus!
