use langler_content::tokenizer::{split_tokens, tokenize, word_char};

fn strings(words: &[&str]) -> Vec<String> {
    words.iter().map(|w| w.to_string()).collect()
}

#[test]
fn tokenize_lowercases_and_drops_short_words() {
    assert_eq!(tokenize("The Stock market, it IS up!"), strings(&["the", "stock", "market"]));
}

#[test]
fn tokenize_empty_text_has_no_tokens() {
    assert!(tokenize("").is_empty());
}

#[test]
fn tokenize_text_of_separators_has_no_tokens() {
    assert!(tokenize(" \t\n.,;:!? -- ").is_empty());
}

#[test]
fn tokenize_keeps_order_and_repetition() {
    assert_eq!(
        tokenize("game after game after game"),
        strings(&["game", "after", "game", "after", "game"])
    );
}

#[test]
fn tokenize_keeps_digits_inside_words() {
    assert_eq!(tokenize("covid19 in 2020, v2"), strings(&["covid19", "2020"]));
}

#[test]
fn tokenize_keeps_the_accented_letters() {
    assert_eq!(
        tokenize("El NIÑO cantó una canción; pingüino"),
        strings(&["niño", "cantó", "una", "canción", "pingüino"])
    );
}

#[test]
fn tokenize_splits_at_other_letters() {
    // 'ç' and 'à' are no word characters: they cut the word.
    assert_eq!(tokenize("garçon voilà"), strings(&["gar", "voil"]));
}

#[test]
fn tokenize_measures_words_in_characters() {
    // Two characters are too few, whatever their size in bytes.
    assert!(tokenize("ñá").is_empty());
    assert_eq!(tokenize("ñáé"), strings(&["ñáé"]));
    assert!(tokenize("ab").is_empty());
    assert_eq!(tokenize("abc"), strings(&["abc"]));
}

#[test]
fn tokenize_ends_a_word_at_the_end_of_the_text() {
    assert_eq!(tokenize("one two"), strings(&["one", "two"]));
    assert_eq!(tokenize("one two "), strings(&["one", "two"]));
    assert_eq!(tokenize(" one"), strings(&["one"]));
}

#[test]
fn split_tokens_keeps_case() {
    assert_eq!(split_tokens("Hello--World a bc"), strings(&["Hello", "World"]));
}

#[test]
fn word_char_accepts_ascii_alphanumerics_and_seven_letters() {
    for c in ['a', 'z', 'A', 'Z', '0', '9', 'ñ', 'á', 'é', 'í', 'ó', 'ú', 'ü'] {
        assert!(word_char(c), "{}", c);
    }
    for c in [' ', '-', '_', '\'', '.', 'Ñ', 'Á', 'ö', 'ç', 'ß', '٣', '中'] {
        assert!(!word_char(c), "{}", c);
    }
}
