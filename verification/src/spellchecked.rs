//! The record that the engine emits for each word it has processed.

use vstd::prelude::*;
use vstd::std_specs::cmp::PartialEqSpecImpl;

verus! {

/// A word as it was written, next to the form the spellchecker chose for it.
#[derive(Debug)]
pub struct Spellchecked {
    pub original: String,
    pub spellchecked: String,
}

/// What a `Spellchecked` record holds, as character sequences.
pub struct Correction {
    pub original: Seq<char>,
    pub spellchecked: Seq<char>,
}

impl View for Spellchecked {
    type V = Correction;

    open spec fn view(&self) -> Correction {
        Correction { original: self.original@, spellchecked: self.spellchecked@ }
    }
}

/// The contents of a list of records, in order.
pub open spec fn record_views(records: Seq<Spellchecked>) -> Seq<Correction> {
    records.map_values(|record: Spellchecked| record@)
}

impl PartialEq for Spellchecked {
    /// Two records are equal when both of their strings are.
    fn eq(&self, other: &Self) -> (equal: bool) {
        self.original == other.original && self.spellchecked == other.spellchecked
    }
}

impl PartialEqSpecImpl for Spellchecked {
    open spec fn obeys_eq_spec() -> bool {
        true
    }

    open spec fn eq_spec(&self, other: &Self) -> bool {
        self.original@ == other.original@ && self.spellchecked@ == other.spellchecked@
    }
}

} // verus!
