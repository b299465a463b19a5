use spellchecker::dictionary::{load_dictionary, DictionaryError};
use spellchecker::spellcheck_parser::SpellcheckParser;
use spellchecker::spellchecker::Spellchecker;
use std::io::BufRead;

const WORD_LIST: &[u8] = b"hello\nworld\nspelling\nz\n";

#[test]
fn test_spellchecker_new() {
    let spellchecker = Spellchecker::load("dictionary.txt", Some(WORD_LIST));
    assert!(spellchecker.is_ok());
}

#[test]
fn test_spellchecker_new_invalid_file() {
    let invalid_file = "nonexistent_file.txt";
    let spellchecker = Spellchecker::load(invalid_file, None);
    assert!(spellchecker.is_err());
    assert_eq!(
        spellchecker.err().unwrap().message(),
        format!("Dictionary file '{}' not found", invalid_file)
    );
}

#[test]
fn load_gives_one_entry_per_line() {
    let entries = load_dictionary("words", Some(b"hello\nworld\nspelling")).unwrap();
    assert_eq!(entries, vec!["hello", "world", "spelling"]);
    let terminated = load_dictionary("words", Some(b"hello\nworld\n")).unwrap();
    assert_eq!(terminated, vec!["hello", "world"]);
}

#[test]
fn load_keeps_lines_verbatim() {
    let entries = load_dictionary("words", Some(b" b \nA\n\nb\nA\n")).unwrap();
    assert_eq!(entries, vec![" b ", "A", "", "b", "A"]);
}

#[test]
fn load_drops_carriage_return_before_line_feed_only() {
    let entries = load_dictionary("words", Some(b"one\r\ntwo\r\n\r\nth\rree\nlast\r")).unwrap();
    assert_eq!(entries, vec!["one", "two", "", "th\rree", "last\r"]);
    let doubled = load_dictionary("words", Some(b"a\r\r\n")).unwrap();
    assert_eq!(doubled, vec!["a\r"]);
}

#[test]
fn load_of_empty_source_is_empty() {
    let entries = load_dictionary("words", Some(b"")).unwrap();
    assert!(entries.is_empty());
    let blank = load_dictionary("words", Some(b"\n")).unwrap();
    assert_eq!(blank, vec![""]);
}

#[test]
fn load_decodes_utf8() {
    let entries = load_dictionary("words", Some("caf\u{e9}\n\u{4f60}\u{597d}\n".as_bytes())).unwrap();
    assert_eq!(entries, vec!["caf\u{e9}", "\u{4f60}\u{597d}"]);
}

#[test]
fn load_agrees_with_buffered_lines() {
    let sources: [&[u8]; 8] = [
        b"",
        b"\n",
        b"a",
        b"a\n",
        b"a\nb",
        b"a\r\nb\r\n",
        b"\r\n\r\n",
        b"a\rb\n\nc\r",
    ];
    for source in sources {
        let expected: Vec<String> = source.lines().map(|line| line.unwrap()).collect();
        assert_eq!(load_dictionary("words", Some(source)).unwrap(), expected);
    }
}

#[test]
fn load_reports_first_undecodable_line() {
    let result = load_dictionary("words", Some(b"good\nalso good\nbad \xff line\nworse \xfe\n"));
    match result {
        Err(DictionaryError::LineDecode { line }) => assert_eq!(line, 2),
        other => panic!("expected a line decode failure, got {:?}", other),
    }
    let first = load_dictionary("words", Some(b"\xc3\n"));
    match first {
        Err(DictionaryError::LineDecode { line }) => assert_eq!(line, 0),
        other => panic!("expected a line decode failure, got {:?}", other),
    }
}

#[test]
fn load_reports_missing_source() {
    match load_dictionary("missing.txt", None) {
        Err(DictionaryError::SourceUnavailable { source }) => assert_eq!(source, "missing.txt"),
        other => panic!("expected an unavailable source, got {:?}", other),
    }
}

#[test]
fn error_messages() {
    let missing = DictionaryError::SourceUnavailable { source: "words.txt".to_string() };
    assert_eq!(missing.message(), "Dictionary file 'words.txt' not found");
    let undecodable = DictionaryError::LineDecode { line: 7 };
    assert_eq!(undecodable.message(), "Could not read line");
}

#[test]
fn loaded_dictionary_is_searched_in_stored_order() {
    let spellchecker = Spellchecker::load("words", Some(b"bat\ncat\nhat\n")).unwrap();
    assert_eq!(spellchecker.spellcheck("rat"), Some("bat".to_string()));
    let parser = SpellcheckParser::new(Spellchecker::load("words", Some(WORD_LIST)).unwrap());
    let records = parser.spellcheck_all("Helo wrld");
    assert_eq!(records.len(), 2);
    assert_eq!(records[0].spellchecked, "Hello");
    assert_eq!(records[1].spellchecked, "world");
}
