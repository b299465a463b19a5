//! Nearest-word search over a fixed dictionary.

use crate::dictionary::{is_load_outcome, load_dictionary, DictionaryError};
use crate::edit_distance::{edit_distance, lemma_edit_distance_zero, wagner_fischer_table};
use crate::text::{chars_of, string_views};
use vstd::prelude::*;

verus! {

/// Whether entry `i` is the one a search for `word` settles on: no entry is
/// closer to `word`, and every entry before it is strictly farther away.
pub open spec fn is_closest(dictionary: Seq<Seq<char>>, word: Seq<char>, i: int) -> bool {
    &&& 0 <= i < dictionary.len()
    &&& forall|j: int|
        0 <= j < dictionary.len() ==> edit_distance(word, dictionary[i]) <= edit_distance(
            word,
            #[trigger] dictionary[j],
        )
    &&& forall|j: int|
        0 <= j < i ==> edit_distance(word, dictionary[i]) < edit_distance(
            word,
            #[trigger] dictionary[j],
        )
}

/// The index of the first entry at the least distance from `word`.
pub open spec fn closest_index(dictionary: Seq<Seq<char>>, word: Seq<char>) -> int {
    choose|i: int| is_closest(dictionary, word, i)
}

/// The dictionary's suggestion for `word`: the first entry at the least
/// edit distance from it. There is none for the empty word, nor from an
/// empty dictionary.
pub open spec fn suggestion(dictionary: Seq<Seq<char>>, word: Seq<char>) -> Option<Seq<char>> {
    if word.len() == 0 || dictionary.len() == 0 {
        None
    } else {
        Some(dictionary[closest_index(dictionary, word)])
    }
}

/// At most one entry of a dictionary is the closest to a word.
pub proof fn lemma_closest_unique(dictionary: Seq<Seq<char>>, word: Seq<char>, i: int, j: int)
    requires
        is_closest(dictionary, word, i),
        is_closest(dictionary, word, j),
    ensures
        i == j,
{
    if i < j {
        assert(edit_distance(word, dictionary[j]) < edit_distance(word, dictionary[i]));
        assert(edit_distance(word, dictionary[i]) <= edit_distance(word, dictionary[j]));
    } else if j < i {
        assert(edit_distance(word, dictionary[i]) < edit_distance(word, dictionary[j]));
        assert(edit_distance(word, dictionary[j]) <= edit_distance(word, dictionary[i]));
    }
}

/// A dictionary with at least one entry has a closest entry for every word.
pub proof fn lemma_closest_exists(dictionary: Seq<Seq<char>>, word: Seq<char>)
    requires
        dictionary.len() > 0,
    ensures
        is_closest(dictionary, word, closest_index(dictionary, word)),
    decreases dictionary.len(),
{
    if dictionary.len() == 1 {
        assert(is_closest(dictionary, word, 0));
    } else {
        let shorter = dictionary.drop_last();
        lemma_closest_exists(shorter, word);
        let before = closest_index(shorter, word);
        let last = dictionary.len() - 1;
        assert(forall|j: int| 0 <= j < shorter.len() ==> shorter[j] == dictionary[j]);
        if edit_distance(word, dictionary[last]) < edit_distance(word, dictionary[before]) {
            assert forall|j: int| 0 <= j < last implies edit_distance(word, dictionary[last])
                < edit_distance(word, #[trigger] dictionary[j]) by {
                assert(edit_distance(word, shorter[before]) <= edit_distance(word, shorter[j]));
            }
            assert(is_closest(dictionary, word, last));
        } else {
            assert forall|j: int| 0 <= j < dictionary.len() implies edit_distance(
                word,
                dictionary[before],
            ) <= edit_distance(word, #[trigger] dictionary[j]) by {
                if j < last {
                    assert(edit_distance(word, shorter[before]) <= edit_distance(word, shorter[j]));
                }
            }
            assert forall|j: int| 0 <= j < before implies edit_distance(word, dictionary[before])
                < edit_distance(word, #[trigger] dictionary[j]) by {
                assert(edit_distance(word, shorter[before]) < edit_distance(word, shorter[j]));
            }
            assert(is_closest(dictionary, word, before));
        }
    }
}

/// Ties go to the earlier entry: when two entries are equally far from a
/// word and every other entry is farther, the suggestion is the one that
/// comes first in the dictionary.
pub proof fn lemma_tie_goes_to_first(
    dictionary: Seq<Seq<char>>,
    word: Seq<char>,
    first: int,
    second: int,
)
    requires
        word.len() > 0,
        0 <= first < second < dictionary.len(),
        edit_distance(word, dictionary[first]) == edit_distance(word, dictionary[second]),
        forall|k: int|
            0 <= k < dictionary.len() && k != first && k != second ==> edit_distance(
                word,
                dictionary[first],
            ) < edit_distance(word, #[trigger] dictionary[k]),
    ensures
        suggestion(dictionary, word) == Some(dictionary[first]),
{
    assert(is_closest(dictionary, word, first));
    lemma_closest_unique(dictionary, word, first, closest_index(dictionary, word));
}

/// A word that the dictionary holds is its own suggestion.
pub proof fn lemma_known_word_is_kept(dictionary: Seq<Seq<char>>, word: Seq<char>)
    requires
        word.len() > 0,
        dictionary.contains(word),
    ensures
        suggestion(dictionary, word) == Some(word),
{
    let at = choose|i: int| 0 <= i < dictionary.len() && dictionary[i] == word;
    lemma_closest_exists(dictionary, word);
    let best = closest_index(dictionary, word);
    lemma_edit_distance_zero(word, dictionary[at]);
    assert(edit_distance(word, dictionary[best]) <= edit_distance(word, dictionary[at]));
    lemma_edit_distance_zero(word, dictionary[best]);
}

/// A spellchecker: an ordered list of known words, searched from first to
/// last for the one nearest to a query.
pub struct Spellchecker {
    dictionary: Vec<String>,
}

impl View for Spellchecker {
    type V = Seq<Seq<char>>;

    /// The dictionary's entries, in their stored order.
    closed spec fn view(&self) -> Seq<Seq<char>> {
        string_views(self.dictionary@)
    }
}

impl Spellchecker {
    /// Makes a spellchecker over the given entries, kept as they come: in
    /// order, with nothing trimmed, merged or sorted.
    pub fn new(dictionary: Vec<String>) -> (spellchecker: Spellchecker)
        ensures
            spellchecker@ == string_views(dictionary@),
    {
        Spellchecker { dictionary }
    }

    /// Makes a spellchecker from what the dictionary's source gave: `None`
    /// when it could not be opened, else its bytes, one entry per line.
    /// Fails, without panicking, when the source is missing or when one of
    /// its lines is not valid text.
    pub fn load(dictionary_file: &str, contents: Option<&[u8]>) -> (loaded: Result<
        Spellchecker,
        DictionaryError,
    >)
        ensures
            is_load_outcome(
                dictionary_file@,
                contents,
                match loaded {
                    Ok(spellchecker) => Ok(spellchecker@),
                    Err(error) => Err(error),
                },
            ),
    {
        match load_dictionary(dictionary_file, contents) {
            Ok(dictionary) => Ok(Spellchecker::new(dictionary)),
            Err(error) => Err(error),
        }
    }

    /// Finds the dictionary entry nearest to `word` by edit distance; of
    /// several equally near, the first. The word is compared as it is given,
    /// so callers lowercase it beforehand.
    pub fn spellcheck(&self, word: &str) -> (closest_word: Option<String>)
        ensures
            closest_word is None <==> word@.len() == 0 || self@.len() == 0,
            closest_word matches Some(found) ==> {
                &&& is_closest(self@, word@, closest_index(self@, word@))
                &&& found@ == self@[closest_index(self@, word@)]
            },
            suggestion(self@, word@) == match closest_word {
                Some(found) => Some(found@),
                None => None,
            },
    {
        if word.is_empty() {
            return None;
        }
        let letters = chars_of(word);
        let mut min_distance: Option<usize> = None;
        let mut closest: usize = 0;
        let mut k: usize = 0;
        while k < self.dictionary.len()
            invariant
                letters@ == word@,
                k <= self.dictionary@.len(),
                self@ == string_views(self.dictionary@),
                min_distance is None <==> k == 0,
                min_distance matches Some(least) ==> {
                    &&& is_closest(self@.take(k as int), word@, closest as int)
                    &&& least == edit_distance(word@, self@[closest as int])
                },
            decreases self.dictionary@.len() - k,
        {
            let entry = chars_of(self.dictionary[k].as_str());
            let distance = wagner_fischer_table(&letters, &entry);
            let closer = match min_distance {
                Some(least) => distance < least,
                None => true,
            };
            proof {
                let seen = self@.take(k as int);
                let grown = self@.take(k + 1);
                assert(forall|j: int| 0 <= j < seen.len() ==> seen[j] == grown[j]);
                assert(grown[k as int] == self@[k as int]);
                if closer {
                    assert forall|j: int| 0 <= j < k implies edit_distance(word@, grown[k as int])
                        < edit_distance(word@, #[trigger] grown[j]) by {
                        assert(edit_distance(word@, seen[closest as int]) <= edit_distance(
                            word@,
                            seen[j],
                        ));
                    }
                    assert(is_closest(grown, word@, k as int));
                } else {
                    assert forall|j: int| 0 <= j < grown.len() implies edit_distance(
                        word@,
                        grown[closest as int],
                    ) <= edit_distance(word@, #[trigger] grown[j]) by {
                        if j < k {
                            assert(edit_distance(word@, seen[closest as int]) <= edit_distance(
                                word@,
                                seen[j],
                            ));
                        }
                    }
                    assert forall|j: int| 0 <= j < closest implies edit_distance(
                        word@,
                        grown[closest as int],
                    ) < edit_distance(word@, #[trigger] grown[j]) by {
                        assert(edit_distance(word@, seen[closest as int]) < edit_distance(
                            word@,
                            seen[j],
                        ));
                    }
                    assert(is_closest(grown, word@, closest as int));
                }
            }
            if closer {
                min_distance = Some(distance);
                closest = k;
            }
            k += 1;
        }
        proof {
            assert(self@.take(k as int) =~= self@);
            if min_distance is Some {
                lemma_closest_unique(self@, word@, closest as int, closest_index(self@, word@));
            }
        }
        match min_distance {
            Some(_) => Some(self.dictionary[closest].clone()),
            None => None,
        }
    }

    /// The Levenshtein distance between `a` and `b`, computed with the
    /// Wagner-Fischer table over their characters.
    pub fn wagner_fischer(&self, a: &str, b: &str) -> (distance: usize)
        ensures
            distance == edit_distance(a@, b@),
    {
        let first = chars_of(a);
        let second = chars_of(b);
        wagner_fischer_table(&first, &second)
    }
}

} // verus!
