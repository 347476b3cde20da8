use autocompleter::dictionary::{ascii_punct, split_words, white_space};
use autocompleter::Autocompleter;

fn words(v: &[&str]) -> Vec<String> {
    v.iter().map(|s| s.to_string()).collect()
}

#[test]
fn splits_on_white_space() {
    assert_eq!(split_words("  the quick\tbrown\n fox  "), words(&["the", "quick", "brown", "fox"]));
    assert_eq!(split_words(""), Vec::<String>::new());
    assert_eq!(split_words(" \t "), Vec::<String>::new());
    assert_eq!(split_words("a\u{3000}b\u{a0}c"), words(&["a", "b", "c"]));
}

#[test]
fn strips_trailing_punctuation_only() {
    assert_eq!(split_words("Hello, world!"), words(&["Hello", "world"]));
    assert_eq!(split_words("\"quoted\" it's e.g. (paren)"), words(&["\"quoted", "it's", "e.g", "(paren"]));
    assert_eq!(split_words("done?!..."), words(&["done"]));
    assert_eq!(split_words("caf\u{e9}\u{bb}"), words(&["caf\u{e9}\u{bb}"]));
}

#[test]
fn punctuation_only_token_gives_empty_word() {
    assert_eq!(split_words("a -- b"), words(&["a", "", "b"]));
}

#[test]
fn agrees_with_std_on_a_sample() {
    let text = "One, two;\tthree... \u{2003}four:five! six";
    let expected: Vec<String> = text
        .split_whitespace()
        .map(|w| w.trim_end_matches(|c: char| c.is_ascii_punctuation()).to_string())
        .collect();
    assert_eq!(split_words(text), expected);
}

#[test]
fn character_classes_match_std() {
    for n in 0u32..0x3100 {
        if let Some(c) = char::from_u32(n) {
            assert_eq!(white_space(c), c.is_whitespace(), "white space at {n}");
            assert_eq!(ascii_punct(c), c.is_ascii_punctuation(), "punctuation at {n}");
        }
    }
}

#[test]
fn dictionary_line_feeds_completions() {
    let mut ac = Autocompleter::new();
    for w in split_words("apple, apricot. apple! avocado apple") {
        ac.add_word(w);
    }
    assert_eq!(ac.frequency(&"apple".to_string()), 3);
    assert_eq!(ac.predict_completions(&"ap".to_string()), words(&["apple", "apricot"]));
}
