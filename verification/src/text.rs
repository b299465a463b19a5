//! Plumbing between Rust strings and the character sequences that the
//! contracts of this crate are stated over.

use vstd::prelude::*;

verus! {

/// The character sequences of a list of string slices, in order.
pub open spec fn str_views(parts: Seq<&str>) -> Seq<Seq<char>> {
    parts.map_values(|part: &str| part@)
}

/// The character sequences of a list of strings, in order.
pub open spec fn string_views(parts: Seq<String>) -> Seq<Seq<char>> {
    parts.map_values(|part: String| part@)
}

/// The characters of `s`, in order, as a vector.
pub fn chars_of(s: &str) -> (chars: Vec<char>)
    ensures
        chars@ == s@,
{
    let mut chars: Vec<char> = Vec::new();
    for c in it: s.chars()
        invariant
            chars@ == it.seq().take(it.index()),
            it.seq() == s@,
    {
        chars.push(c);
    }
    chars
}

} // verus!
