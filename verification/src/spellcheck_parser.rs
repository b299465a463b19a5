//! Spellchecking of free text: every whitespace-delimited word is corrected
//! against the dictionary, while its punctuation and the capitalization of
//! its first letter are kept.

use crate::spellchecked::{record_views, Correction, Spellchecked};
use crate::spellchecker::{suggestion, Spellchecker};
use crate::text::{chars_of, str_views};
use crate::tokenizer::{
    alphabetic_class, alphabetic_runs, is_run_decomposition, lemma_runs_decompose,
    lemma_runs_step, runs, split_whitespace, whitespace_tokens,
};
use crate::unicode::{
    alphabetic, lowercase_mapping, to_uppercase_string, uppercase_letter, uppercase_mapping,
};
use rayon::iter::{IntoParallelRefIterator, ParallelIterator};
use vstd::prelude::*;
use vstd::string::{StrSliceExecFns, StringExecFns};

verus! {

/// Whether every character of `word` is alphabetic.
pub open spec fn is_alphabetic_word(word: Seq<char>) -> bool {
    forall|k: int| 0 <= k < word.len() ==> alphabetic(#[trigger] word[k])
}

/// The capitalization policy: when `original` starts with an uppercase
/// letter, the first character of `candidate` is replaced by its uppercase
/// mapping; everything after it is left as it is. A candidate without a
/// first character is left as it is too.
pub open spec fn capitalized(original: Seq<char>, candidate: Seq<char>) -> Seq<char> {
    if original.len() > 0 && uppercase_letter(original[0]) && candidate.len() > 0 {
        uppercase_mapping(candidate[0]) + candidate.skip(1)
    } else {
        candidate
    }
}

/// The corrected form of a single word: the dictionary's suggestion for the
/// lowercased word, or the word itself where there is none, with the
/// capitalization policy applied.
pub open spec fn corrected_word(dictionary: Seq<Seq<char>>, word: Seq<char>) -> Seq<char> {
    capitalized(
        word,
        match suggestion(dictionary, lowercase_mapping(word)) {
            Some(found) => found,
            None => word,
        },
    )
}

/// The record for a single word; the empty word has none.
pub open spec fn word_correction(dictionary: Seq<Seq<char>>, word: Seq<char>) -> Option<
    Correction,
> {
    if word.len() == 0 {
        None
    } else {
        Some(Correction { original: word, spellchecked: corrected_word(dictionary, word) })
    }
}

/// What becomes of one run of a word: an alphabetic run is corrected as a
/// word of its own, any other run passes through unchanged.
pub open spec fn corrected_run(dictionary: Seq<Seq<char>>, run: Seq<char>) -> Seq<char> {
    if is_alphabetic_word(run) {
        match word_correction(dictionary, run) {
            Some(correction) => correction.spellchecked,
            None => Seq::empty(),
        }
    } else {
        run
    }
}

/// The corrected forms of the given runs, in order.
pub open spec fn corrected_runs(dictionary: Seq<Seq<char>>, parts: Seq<Seq<char>>) -> Seq<
    Seq<char>,
> {
    parts.map_values(|run: Seq<char>| corrected_run(dictionary, run))
}

/// The corrected form of a word that carries punctuation: its alphabetic
/// runs corrected, its other runs untouched, all put back together in order.
pub open spec fn corrected_with_punctuation(dictionary: Seq<Seq<char>>, word: Seq<char>) -> Seq<
    char,
> {
    corrected_runs(dictionary, alphabetic_runs(word)).flatten()
}

/// The record for one whitespace-delimited word. Its original is always the
/// whole word, whether the word was corrected in one piece or run by run.
pub open spec fn processed_word(dictionary: Seq<Seq<char>>, word: Seq<char>) -> Correction {
    Correction {
        original: word,
        spellchecked: if is_alphabetic_word(word) {
            corrected_word(dictionary, word)
        } else {
            corrected_with_punctuation(dictionary, word)
        },
    }
}

/// The records for the given words, one for each and in the same order.
pub open spec fn processed_words(dictionary: Seq<Seq<char>>, words: Seq<Seq<char>>) -> Seq<
    Correction,
> {
    words.map_values(|word: Seq<char>| processed_word(dictionary, word))
}

/// The records for a whole text: one for each of its whitespace-delimited
/// words, in the order in which the words appear.
pub open spec fn corrections(dictionary: Seq<Seq<char>>, text: Seq<char>) -> Seq<Correction> {
    processed_words(dictionary, whitespace_tokens(text))
}

/// The records of a text follow its words: there is one record for each
/// whitespace-delimited word, the record at each position is the one for
/// the word at that position, and its original is that word.
pub proof fn lemma_records_follow_words(dictionary: Seq<Seq<char>>, text: Seq<char>)
    ensures
        corrections(dictionary, text).len() == whitespace_tokens(text).len(),
        forall|i: int|
            0 <= i < whitespace_tokens(text).len() ==> {
                &&& (#[trigger] corrections(dictionary, text)[i]) == processed_word(
                    dictionary,
                    whitespace_tokens(text)[i],
                )
                &&& corrections(dictionary, text)[i].original == whitespace_tokens(text)[i]
            },
{
}

/// A text without characters has no records.
pub proof fn lemma_empty_text_has_no_records(dictionary: Seq<Seq<char>>)
    ensures
        corrections(dictionary, Seq::<char>::empty()) == Seq::<Correction>::empty(),
{
    reveal(Seq::filter);
    assert(whitespace_tokens(Seq::<char>::empty()) =~= Seq::<Seq<char>>::empty());
    assert(corrections(dictionary, Seq::<char>::empty()) =~= Seq::<Correction>::empty());
}

/// Whether every character of `word` is alphabetic.
pub fn all_alphabetic(word: &str) -> (all: bool)
    ensures
        all == is_alphabetic_word(word@),
{
    let letters = chars_of(word);
    let mut k: usize = 0;
    while k < letters.len()
        invariant
            letters@ == word@,
            k <= letters@.len(),
            forall|j: int| 0 <= j < k ==> alphabetic(#[trigger] word@[j]),
        decreases letters@.len() - k,
    {
        if !letters[k].is_alphabetic() {
            return false;
        }
        k += 1;
    }
    true
}

/// Parses input text and spellchecks it word by word.
pub struct SpellcheckParser {
    spellchecker: Spellchecker,
}

impl View for SpellcheckParser {
    type V = Seq<Seq<char>>;

    /// The entries of the dictionary that words are checked against.
    closed spec fn view(&self) -> Seq<Seq<char>> {
        self.spellchecker@
    }
}

impl SpellcheckParser {
    /// Makes a parser that corrects words against `spellchecker`.
    pub fn new(spellchecker: Spellchecker) -> (parser: SpellcheckParser)
        ensures
            parser@ == spellchecker@,
    {
        SpellcheckParser { spellchecker }
    }

    /// Spellchecks a whole text. Whitespace splits it into words and is not
    /// kept; the records come in the order of the words.
    pub fn spellcheck_all(&self, to_spellcheck: &str) -> (records: Vec<Spellchecked>)
        ensures
            record_views(records@) == corrections(self@, to_spellcheck@),
    {
        let words = split_whitespace(to_spellcheck);
        process_in_parallel(self, &words)
    }

    /// Corrects one whitespace-delimited word: in one piece when it is all
    /// alphabetic, run by run when it carries punctuation or digits.
    pub fn process_word(&self, original_word: &str) -> (record: Spellchecked)
        requires
            original_word@.len() > 0,
        ensures
            record@ == processed_word(self@, original_word@),
    {
        if all_alphabetic(original_word) {
            self.spellcheck_word(original_word).unwrap()
        } else {
            Spellchecked {
                original: original_word.to_owned(),
                spellchecked: self.spellcheck_with_punctuation(original_word),
            }
        }
    }

    /// Corrects a single word. The empty word yields no record.
    pub fn spellcheck_word(&self, original_word: &str) -> (record: Option<Spellchecked>)
        ensures
            record is None <==> original_word@.len() == 0,
            word_correction(self@, original_word@) == match record {
                Some(found) => Some(found@),
                None => None,
            },
    {
        if original_word.is_empty() {
            return None;
        }
        let lowered = original_word.to_lowercase();
        let mut spellchecked_word = match self.spellchecker.spellcheck(lowered.as_str()) {
            Some(word) => word,
            None => original_word.to_owned(),
        };
        self.capitalize_if_needed(original_word, &mut spellchecked_word);
        Some(Spellchecked { original: original_word.to_owned(), spellchecked: spellchecked_word })
    }

    /// Applies the capitalization policy to `spellchecked_word`: when
    /// `original_word` starts with an uppercase letter, the first character
    /// of `spellchecked_word` is uppercased.
    pub fn capitalize_if_needed(&self, original_word: &str, spellchecked_word: &mut String)
        ensures
            final(spellchecked_word)@ == capitalized(original_word@, old(spellchecked_word)@),
    {
        if original_word.is_empty() || spellchecked_word.as_str().is_empty() {
            return ;
        }
        if original_word.get_char(0).is_uppercase() {
            let candidate = spellchecked_word.as_str();
            let length = candidate.unicode_len();
            let mut capitalized_word = to_uppercase_string(candidate.get_char(0));
            capitalized_word.append(candidate.substring_char(1, length));
            assert(candidate@.subrange(1, length as int) =~= candidate@.skip(1));
            *spellchecked_word = capitalized_word;
        }
    }

    /// Cuts `text` into its maximal runs of alphabetic and of non-alphabetic
    /// characters, in order.
    pub fn split_by_alphabetic<'a>(text: &'a str) -> (split: Vec<&'a str>)
        ensures
            str_views(split@) == alphabetic_runs(text@),
            is_run_decomposition(text@, alphabetic_class(), str_views(split@)),
            str_views(split@).flatten() == text@,
            text@.len() == 0 <==> split@.len() == 0,
    {
        let letters = chars_of(text);
        let n = letters.len();
        let mut split: Vec<&'a str> = Vec::new();
        proof {
            lemma_runs_decompose(text@, alphabetic_class());
        }
        if n == 0 {
            assert(str_views(split@) =~= alphabetic_runs(text@));
            return split;
        }
        let mut word_start: usize = 0;
        let mut i: usize = 1;
        assert(runs(text@.take(1), alphabetic_class()) =~= str_views(split@).push(
            text@.subrange(0, 1),
        ));
        while i < n
            invariant
                letters@ == text@,
                n == letters@.len(),
                word_start < i <= n,
                runs(text@.take(i as int), alphabetic_class()) == str_views(split@).push(
                    text@.subrange(word_start as int, i as int),
                ),
            decreases n - i,
        {
            proof {
                lemma_runs_step(text@, alphabetic_class(), i as int);
            }
            let ghost run = text@.subrange(word_start as int, i as int);
            if letters[i].is_alphabetic() != letters[i - 1].is_alphabetic() {
                let word = text.substring_char(word_start, i);
                assert(str_views(split@.push(word)) =~= str_views(split@).push(run));
                assert(seq![text@[i as int]] =~= text@.subrange(i as int, i + 1));
                split.push(word);
                word_start = i;
            } else {
                assert(str_views(split@).push(run).drop_last() =~= str_views(split@));
                assert(run.push(text@[i as int]) =~= text@.subrange(word_start as int, i + 1));
            }
            i += 1;
        }
        let word = text.substring_char(word_start, n);
        assert(text@.take(n as int) =~= text@);
        assert(str_views(split@.push(word)) =~= str_views(split@).push(word@));
        split.push(word);
        assert(str_views(split@).len() == split@.len());
        split
    }

    /// Corrects a word that carries punctuation: each alphabetic run is
    /// spellchecked, every other run is kept, and the pieces are joined in
    /// their order.
    pub fn spellcheck_with_punctuation(&self, original_word: &str) -> (spellchecked_word: String)
        ensures
            spellchecked_word@ == corrected_with_punctuation(self@, original_word@),
    {
        let parts = Self::split_by_alphabetic(original_word);
        let ghost pieces = corrected_runs(self@, alphabetic_runs(original_word@));
        let mut spellchecked_word = String::new();
        let mut k: usize = 0;
        assert(pieces.take(0).flatten() =~= Seq::<char>::empty());
        while k < parts.len()
            invariant
                k <= parts@.len(),
                str_views(parts@) == alphabetic_runs(original_word@),
                pieces == corrected_runs(self@, alphabetic_runs(original_word@)),
                spellchecked_word@ == pieces.take(k as int).flatten(),
            decreases parts@.len() - k,
        {
            let part = parts[k];
            proof {
                assert(str_views(parts@)[k as int] == part@);
                assert(pieces[k as int] == corrected_run(self@, part@));
                assert(pieces.take(k + 1) =~= pieces.take(k as int).push(pieces[k as int]));
                pieces.take(k as int).lemma_flatten_push(pieces[k as int]);
            }
            if all_alphabetic(part) {
                match self.spellcheck_word(part) {
                    Some(record) => {
                        spellchecked_word.append(record.spellchecked.as_str());
                    },
                    None => {},
                }
            } else {
                spellchecked_word.append(part);
            }
            k += 1;
        }
        assert(pieces.take(k as int) =~= pieces);
        spellchecked_word
    }
}

/// Hands every word to `SpellcheckParser::process_word` through rayon's
/// `par_iter`, `map` and `collect`. Not verified: the vector that rayon
/// collects is taken to hold one record per word, each the record that
/// `process_word` is proved to return for that word, in the order of the
/// words whichever worker produced them.
#[verifier::external_body]
fn process_in_parallel(parser: &SpellcheckParser, words: &Vec<&str>) -> (records: Vec<Spellchecked>)
    requires
        forall|i: int| 0 <= i < words@.len() ==> (#[trigger] words@[i])@.len() > 0,
    ensures
        record_views(records@) == processed_words(parser@, str_views(words@)),
{
    words.par_iter().map(|word| parser.process_word(word)).collect()
}

} // verus!
