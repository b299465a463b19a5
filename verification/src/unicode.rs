//! The Unicode character properties and case mappings that the spellchecking
//! engine relies on. The tables behind them belong to the standard library;
//! here each one gets a name that contracts can speak of, and the standard
//! function is taken to compute exactly that name.

use vstd::prelude::*;

verus! {

/// Whether `c` has the Unicode `Alphabetic` property.
pub uninterp spec fn alphabetic(c: char) -> bool;

/// Whether `c` has the Unicode `White_Space` property.
pub uninterp spec fn whitespace(c: char) -> bool;

/// Whether `c` has the Unicode `Uppercase` property.
pub uninterp spec fn uppercase_letter(c: char) -> bool;

/// The uppercase mapping of `c`: one character or, for a few, several.
pub uninterp spec fn uppercase_mapping(c: char) -> Seq<char>;

/// The lowercase form of a whole string.
pub uninterp spec fn lowercase_mapping(s: Seq<char>) -> Seq<char>;

/// `char::is_alphabetic` is not verified here: it is taken to decide the
/// `Alphabetic` property that `alphabetic` names, for every character.
pub assume_specification[ char::is_alphabetic ](c: char) -> (b: bool)
    ensures
        b == alphabetic(c),
;

/// `char::is_whitespace` is not verified here: it is taken to decide the
/// `White_Space` property that `whitespace` names, for every character.
pub assume_specification[ char::is_whitespace ](c: char) -> (b: bool)
    ensures
        b == whitespace(c),
;

/// `char::is_uppercase` is not verified here: it is taken to decide the
/// `Uppercase` property that `uppercase_letter` names, for every character.
pub assume_specification[ char::is_uppercase ](c: char) -> (b: bool)
    ensures
        b == uppercase_letter(c),
;

/// `str::to_lowercase` is not verified here: the string it returns is taken
/// to hold exactly the characters that `lowercase_mapping` names for the input.
pub assume_specification[ str::to_lowercase ](s: &str) -> (lowered: String)
    ensures
        lowered@ == lowercase_mapping(s@),
;

/// Calls `char::to_uppercase` and collects the characters it yields into a
/// string. Not verified: the string is taken to hold exactly the mapping
/// that `uppercase_mapping` names for `c`.
#[verifier::external_body]
pub(crate) fn to_uppercase_string(c: char) -> (upper: String)
    ensures
        upper@ == uppercase_mapping(c),
{
    c.to_uppercase().to_string()
}

} // verus!
