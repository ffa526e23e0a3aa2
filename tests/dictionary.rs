use shortest_word_path::dict::{chars_of, mismatches};
use shortest_word_path::{Dict, Error, FormatError};

#[test]
fn builds_from_lines() {
    let dict = Dict::create("abc\nabd\nxyz").unwrap();
    assert_eq!(dict.len(), 3);
    assert_eq!(dict.word_len(), 3);
    assert_eq!(dict.get(0), "abc");
    assert_eq!(dict.get(2), "xyz");
    assert_eq!(dict.words(), &vec!["abc".to_string(), "abd".to_string(), "xyz".to_string()]);
    let listed: Vec<&String> = dict.iter().collect();
    assert_eq!(listed, ["abc", "abd", "xyz"]);
}

#[test]
fn final_newline_and_carriage_returns() {
    let dict = Dict::create("ab\r\ncd\n").unwrap();
    assert_eq!(dict.words(), &vec!["ab".to_string(), "cd".to_string()]);
    assert_eq!(dict.word_len(), 2);
    let err = Dict::create("ab\ncd\r").err().unwrap();
    assert_eq!(
        err,
        Error::Format(FormatError::LengthMismatch { word: "cd\r".to_string(), expected: 2, found: 3 })
    );
    let blank = Dict::create("\n\n").unwrap();
    assert_eq!(blank.len(), 2);
    assert_eq!(blank.word_len(), 0);
}

#[test]
fn counts_characters_not_bytes() {
    let dict = Dict::create("ёж\nуж\nяк").unwrap();
    assert_eq!(dict.word_len(), 2);
    assert_eq!(dict.len(), 3);
}

#[test]
fn keeps_duplicates_distinct() {
    let dict = Dict::create("aa\naa\nab").unwrap();
    assert_eq!(dict.len(), 3);
    assert_eq!(dict.get(0), dict.get(1));
}

#[test]
fn empty_text_is_refused() {
    assert_eq!(Dict::create("").err(), Some(Error::Format(FormatError::Empty)));
    assert_eq!(Dict::from_words(vec![]).err(), Some(Error::Format(FormatError::Empty)));
}

#[test]
fn first_wrong_length_is_named() {
    let err = Dict::create("abc\nabd\nab\nabcd").err().unwrap();
    assert_eq!(
        err,
        Error::Format(FormatError::LengthMismatch { word: "ab".to_string(), expected: 3, found: 2 })
    );
    let err = Dict::create("ab\ncd\nefg").err().unwrap();
    assert_eq!(
        err,
        Error::Format(FormatError::LengthMismatch { word: "efg".to_string(), expected: 2, found: 3 })
    );
}

#[test]
fn from_words_checks_lengths() {
    let dict = Dict::from_words(vec!["ab".to_string(), "cd".to_string()]).unwrap();
    assert_eq!(dict.word_len(), 2);
    assert_eq!(dict.into_words(), vec!["ab".to_string(), "cd".to_string()]);
    let err = Dict::from_words(vec!["ab".to_string(), "c".to_string()]).err().unwrap();
    assert_eq!(
        err,
        Error::Format(FormatError::LengthMismatch { word: "c".to_string(), expected: 2, found: 1 })
    );
}

#[test]
fn default_dictionary_loads() {
    let dict = Dict::create_default().unwrap();
    assert_eq!(dict.len(), 60);
    assert_eq!(dict.word_len(), 4);
    assert!(dict.iter().all(|w| w.chars().count() == 4));
}

#[test]
fn heuristic_counts_differing_positions() {
    let dict = Dict::create("рожа\nучет\nроза").unwrap();
    assert_eq!(dict.heuristic("рожа", 0), 0);
    assert_eq!(dict.heuristic("рожа", 1), 4);
    assert_eq!(dict.heuristic("рожа", 2), 1);
    assert_eq!(mismatches(&chars_of("abc"), &chars_of("abd")), 1);
    assert_eq!(mismatches(&chars_of("abc"), &chars_of("ab")), 0);
    assert_eq!(chars_of("ёж"), vec!['ё', 'ж']);
}
