use spellchecker::spellcheck_parser::{all_alphabetic, SpellcheckParser};
use spellchecker::spellchecked::Spellchecked;
use spellchecker::spellchecker::Spellchecker;
use spellchecker::tokenizer::split_whitespace;

fn parser_over(words: &[&str]) -> SpellcheckParser {
    SpellcheckParser::new(Spellchecker::new(words.iter().map(|word| word.to_string()).collect()))
}

fn parser() -> SpellcheckParser {
    parser_over(&[
        "a", "about", "hello", "help", "kitten", "sitting", "spelling", "spell", "the", "word",
        "world", "would", "z",
    ])
}

#[test]
fn test_process_word() {
    let spellcheck_parser = parser();
    let word = "hello";
    let result = spellcheck_parser.process_word(word);
    assert_eq!(result.original, "hello");
    assert_eq!(result.spellchecked, "hello");
}

#[test]
fn test_process_word_with_punctuation() {
    let spellcheck_parser = parser();
    let word = "hello,";
    let result = spellcheck_parser.process_word(word);
    assert_eq!(result.original, "hello,");
    assert_eq!(result.spellchecked, "hello,");
}

#[test]
fn test_process_word_with_punctuation_and_space() {
    let spellcheck_parser = parser();
    let word = "hello, ";
    let result = spellcheck_parser.process_word(word);
    assert_eq!(result.original, "hello, ");
    assert_eq!(result.spellchecked, "hello, ");
}

#[test]
fn test_process_word_with_punctuation_and_space_and_word() {
    let spellcheck_parser = parser();
    let word = "hello, wrld";
    let result = spellcheck_parser.process_word(word);
    assert_eq!(result.original, "hello, wrld");
    assert_eq!(result.spellchecked, "hello, world");
}

#[test]
fn test_process_word_with_punctuation_and_space_and_word_and_punctuation() {
    let spellcheck_parser = parser();
    let word = "hello, wrld!";
    let result = spellcheck_parser.process_word(word);
    assert_eq!(result.original, "hello, wrld!");
    assert_eq!(result.spellchecked, "hello, world!");
}

#[test]
fn test_spellcheck_all_empty() {
    let spellcheck_parser = parser();
    let to_spellcheck = "";
    let result = spellcheck_parser.spellcheck_all(to_spellcheck);
    assert!(result.is_empty());
}

#[test]
fn test_spellcheck_all() {
    let spellcheck_parser = parser();
    let to_spellcheck = "hello, wrld!";
    let result = spellcheck_parser.spellcheck_all(to_spellcheck);
    assert_eq!(result.len(), 2);
    assert_eq!(result[0].original, "hello,");
    assert_eq!(result[0].spellchecked, "hello,");
    assert_eq!(result[1].original, "wrld!");
    assert_eq!(result[1].spellchecked, "world!");
}

#[test]
fn spellcheck_word_empty() {
    let spellcheck_parser = parser();
    let word = "";
    let result = spellcheck_parser.spellcheck_word(word);
    assert_eq!(result, None);
}

#[test]
fn spellcheck_word() {
    let spellcheck_parser = parser();
    let word = "speling";
    let result = spellcheck_parser.spellcheck_word(word);
    assert_eq!(
        result,
        Some(Spellchecked { original: "speling".to_string(), spellchecked: "spelling".to_string() })
    );
}

#[test]
fn spellcheck_word_capitalized() {
    let spellcheck_parser = parser();
    let word = "Speling";
    let result = spellcheck_parser.spellcheck_word(word);
    assert_eq!(
        result,
        Some(Spellchecked { original: "Speling".to_string(), spellchecked: "Spelling".to_string() })
    );
}

#[test]
fn spellcheck_word_no_close_match() {
    let spellcheck_parser = parser();
    let word = "zzz";
    let result = spellcheck_parser.spellcheck_word(word);
    assert_eq!(
        result,
        Some(Spellchecked { original: "zzz".to_string(), spellchecked: "z".to_string() })
    );
}

#[test]
fn spellcheck_with_punctuation() {
    let spellcheck_parser = parser();
    let word = "hello, wrld!";
    let result = spellcheck_parser.spellcheck_with_punctuation(word);
    assert_eq!(result, "hello, world!");
}

#[test]
fn spellcheck_with_punctuation_no_punctuation() {
    let spellcheck_parser = parser();
    let word = "hello world";
    let result = spellcheck_parser.spellcheck_with_punctuation(word);
    assert_eq!(result, "hello world");
}

#[test]
fn split_by_alphabetic_empty() {
    let result = SpellcheckParser::split_by_alphabetic("");
    assert!(result.is_empty());
}

#[test]
fn split_by_alphabetic() {
    let result = SpellcheckParser::split_by_alphabetic("hello, world!");
    assert_eq!(result, vec!["hello", ", ", "world", "!"]);
}

#[test]
fn split_by_alphabetic_no_punctuation() {
    let result = SpellcheckParser::split_by_alphabetic("hello world");
    assert_eq!(result, vec!["hello", " ", "world"]);
}

#[test]
fn split_by_alphabetic_one_word() {
    let result = SpellcheckParser::split_by_alphabetic("Incomprehensibility");
    assert_eq!(result, vec!["Incomprehensibility"]);
}

#[test]
fn split_by_alphabetic_one_word_with_punctuation() {
    let result = SpellcheckParser::split_by_alphabetic("Incomprehensibility!");
    assert_eq!(result, vec!["Incomprehensibility", "!"]);
}

#[test]
fn capitalize_if_needed() {
    let spellcheck_parser = parser();
    let original_word = "Speling";
    let mut spellchecked_word = "spelling".to_string();
    spellcheck_parser.capitalize_if_needed(original_word, &mut spellchecked_word);
    assert_eq!(spellchecked_word, "Spelling");
}

#[test]
fn capitalize_if_needed_not_needed() {
    let spellcheck_parser = parser();
    let original_word = "";
    let mut spellchecked_word = "spelling".to_string();
    spellcheck_parser.capitalize_if_needed(original_word, &mut spellchecked_word);
    assert_eq!(spellchecked_word, "spelling");
}

#[test]
fn capitalize_if_needed_empty() {
    let spellcheck_parser = parser();
    let original_word = "";
    let mut spellchecked_word = "".to_string();
    spellcheck_parser.capitalize_if_needed(original_word, &mut spellchecked_word);
    assert_eq!(spellchecked_word, "");
}

#[test]
fn capitalize_if_needed_lowercase_original() {
    let spellcheck_parser = parser();
    let mut spellchecked_word = "spelling".to_string();
    spellcheck_parser.capitalize_if_needed("speling", &mut spellchecked_word);
    assert_eq!(spellchecked_word, "spelling");
}

#[test]
fn capitalize_if_needed_touches_first_character_only() {
    let spellcheck_parser = parser();
    let mut spellchecked_word = "mcDonald".to_string();
    spellcheck_parser.capitalize_if_needed("Mac", &mut spellchecked_word);
    assert_eq!(spellchecked_word, "McDonald");
}

#[test]
fn capitalize_if_needed_wide_first_character() {
    let spellcheck_parser = parser();
    let mut spellchecked_word = "\u{e9}lan".to_string();
    spellcheck_parser.capitalize_if_needed("Elan", &mut spellchecked_word);
    assert_eq!(spellchecked_word, "\u{c9}lan");
    let mut sharp = "\u{df}a".to_string();
    spellcheck_parser.capitalize_if_needed("Sa", &mut sharp);
    assert_eq!(sharp, "SSa");
}

#[test]
fn capitalize_if_needed_empty_candidate() {
    let spellcheck_parser = parser();
    let mut spellchecked_word = String::new();
    spellcheck_parser.capitalize_if_needed("Word", &mut spellchecked_word);
    assert_eq!(spellchecked_word, "");
}

#[test]
fn split_by_alphabetic_reassembles_the_word() {
    let inputs = ["hello, world!", "a1b2c3", "...", "don't", "x", "!?", "caf\u{e9}-cr\u{e8}me", " "];
    for input in inputs {
        let runs = SpellcheckParser::split_by_alphabetic(input);
        assert_eq!(runs.concat(), input);
        for run in &runs {
            assert!(!run.is_empty());
            let kind = run.chars().next().unwrap().is_alphabetic();
            assert!(run.chars().all(|c| c.is_alphabetic() == kind));
        }
        for pair in runs.windows(2) {
            assert_ne!(
                pair[0].chars().next().unwrap().is_alphabetic(),
                pair[1].chars().next().unwrap().is_alphabetic()
            );
        }
    }
}

#[test]
fn split_by_alphabetic_mixed_runs() {
    assert_eq!(SpellcheckParser::split_by_alphabetic("a1b2"), vec!["a", "1", "b", "2"]);
    assert_eq!(SpellcheckParser::split_by_alphabetic("don't"), vec!["don", "'", "t"]);
    assert_eq!(SpellcheckParser::split_by_alphabetic("!!"), vec!["!!"]);
    assert_eq!(
        SpellcheckParser::split_by_alphabetic("caf\u{e9}-cr\u{e8}me"),
        vec!["caf\u{e9}", "-", "cr\u{e8}me"]
    );
}

#[test]
fn split_whitespace_words() {
    assert_eq!(split_whitespace("hello, wrld!"), vec!["hello,", "wrld!"]);
    assert_eq!(split_whitespace("  one \t two\n\nthree  "), vec!["one", "two", "three"]);
    assert_eq!(split_whitespace("single"), vec!["single"]);
    assert!(split_whitespace("").is_empty());
    assert!(split_whitespace(" \t\n ").is_empty());
    assert_eq!(split_whitespace("a\u{a0}b\u{2003}c"), vec!["a", "b", "c"]);
}

#[test]
fn split_whitespace_agrees_with_std() {
    let inputs = ["", " ", "a", " a", "a ", "a b", "  a  b  ", "x\ty\nz", "\u{3000}wide\u{3000}"];
    for input in inputs {
        let expected: Vec<&str> = input.split_whitespace().collect();
        assert_eq!(split_whitespace(input), expected);
    }
}

#[test]
fn all_alphabetic_words() {
    assert!(all_alphabetic("hello"));
    assert!(all_alphabetic("caf\u{e9}"));
    assert!(all_alphabetic(""));
    assert!(!all_alphabetic("hello,"));
    assert!(!all_alphabetic("a1"));
    assert!(!all_alphabetic(" "));
}

#[test]
fn spellcheck_word_falls_back_to_original() {
    let spellcheck_parser = parser_over(&[]);
    let result = spellcheck_parser.spellcheck_word("Wrld");
    assert_eq!(
        result,
        Some(Spellchecked { original: "Wrld".to_string(), spellchecked: "Wrld".to_string() })
    );
}

#[test]
fn spellcheck_word_lowercases_the_query_only() {
    let spellcheck_parser = parser_over(&["HELLO", "world"]);
    let result = spellcheck_parser.spellcheck_word("WORLD").unwrap();
    assert_eq!(result.original, "WORLD");
    assert_eq!(result.spellchecked, "World");
    let shouted = spellcheck_parser.spellcheck_word("hello").unwrap();
    assert_eq!(shouted.spellchecked, "world");
}

#[test]
fn process_word_keeps_capital_and_punctuation() {
    let spellcheck_parser = parser();
    let result = spellcheck_parser.process_word("(Wrld)");
    assert_eq!(result.original, "(Wrld)");
    assert_eq!(result.spellchecked, "(World)");
}

#[test]
fn process_word_digits_pass_through() {
    let spellcheck_parser = parser();
    let result = spellcheck_parser.process_word("2024");
    assert_eq!(result.original, "2024");
    assert_eq!(result.spellchecked, "2024");
}

#[test]
fn spellcheck_all_preserves_word_order() {
    let spellcheck_parser = parser();
    let text = "teh wrld, helo abot Speling; kiten siting wold z zzz hello";
    let expected = [
        ("teh", "the"),
        ("wrld,", "world,"),
        ("helo", "hello"),
        ("abot", "about"),
        ("Speling;", "Spelling;"),
        ("kiten", "kitten"),
        ("siting", "sitting"),
        ("wold", "word"),
        ("z", "z"),
        ("zzz", "z"),
        ("hello", "hello"),
    ];
    for _ in 0..20 {
        let result = spellcheck_parser.spellcheck_all(text);
        assert_eq!(result.len(), expected.len());
        for (record, (original, spellchecked)) in result.iter().zip(expected.iter()) {
            assert_eq!(record.original, *original);
            assert_eq!(record.spellchecked, *spellchecked);
        }
    }
}

#[test]
fn spellcheck_all_ignores_surrounding_whitespace() {
    let spellcheck_parser = parser();
    let result = spellcheck_parser.spellcheck_all("  \t hello \n\n wrld  ");
    assert_eq!(result.len(), 2);
    assert_eq!(result[0].original, "hello");
    assert_eq!(result[1].original, "wrld");
    assert_eq!(result[1].spellchecked, "world");
    assert!(spellcheck_parser.spellcheck_all(" \n\t ").is_empty());
}

#[test]
fn spellchecked_records_compare_by_both_fields() {
    let record = Spellchecked { original: "wrld".to_string(), spellchecked: "world".to_string() };
    let same = Spellchecked { original: "wrld".to_string(), spellchecked: "world".to_string() };
    let other_original = Spellchecked { original: "wold".to_string(), spellchecked: "world".to_string() };
    let other_form = Spellchecked { original: "wrld".to_string(), spellchecked: "would".to_string() };
    assert_eq!(record, same);
    assert_ne!(record, other_original);
    assert_ne!(record, other_form);
}
