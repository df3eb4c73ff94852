//! What the library takes from the standard library without proof: which
//! characters are alphabetic, what the lowercase form of a string is, and
//! how a string grows by a character. The first two are named here, so that
//! contracts can speak of them.

use vstd::prelude::*;

verus! {

/// Whether `c` has the Unicode `Alphabetic` property, as `char::is_alphabetic`
/// reports it.
pub uninterp spec fn alphabetic(c: char) -> bool;

/// The lowercase form of a string, as `str::to_lowercase` produces it.
pub uninterp spec fn lowercase_of(s: Seq<char>) -> Seq<char>;

/// `char::is_alphabetic` decides the Unicode `Alphabetic` property; nothing
/// more is claimed of it than that its answer is a function of the character.
pub assume_specification[ char::is_alphabetic ](c: char) -> (b: bool)
    ensures
        b == alphabetic(c),
;

/// `str::to_lowercase` returns the lowercase equivalent of the slice as a new
/// `String`; the result is a function of the characters of the slice alone.
pub assume_specification[ str::to_lowercase ](s: &str) -> (small: String)
    ensures
        small@ == lowercase_of(s@),
;

/// `String::push` appends one character to the end of the string.
pub assume_specification[ String::push ](s: &mut String, c: char)
    ensures
        final(s)@ == old(s)@.push(c),
;

} // verus!
