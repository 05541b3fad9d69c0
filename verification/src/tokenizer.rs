//! Splitting text into lowercase word tokens.
//!
//! A text is lowercased, cut at every character that is not a word character,
//! and the pieces of more than two characters are kept in the order in which
//! they occur.

use vstd::prelude::*;

verus! {

/// The texts held by a sequence of strings.
pub open spec fn texts(v: Seq<String>) -> Seq<Seq<char>> {
    v.map_values(|s: String| s@)
}

/// Appending a string appends its text.
pub proof fn lemma_texts_push(v: Seq<String>, s: String)
    ensures
        texts(v.push(s)) == texts(v).push(s@),
{
    assert(texts(v.push(s)) =~= texts(v).push(s@));
}

/// ASCII letters and digits.
pub open spec fn is_ascii_alphanumeric(c: char) -> bool {
    ('a' <= c && c <= 'z') || ('A' <= c && c <= 'Z') || ('0' <= c && c <= '9')
}

/// The letters outside ASCII that count as part of a word.
pub open spec fn is_accented_letter(c: char) -> bool {
    c == 'ñ' || c == 'á' || c == 'é' || c == 'í' || c == 'ó' || c == 'ú' || c == 'ü'
}

/// A character that belongs to a word; every other character separates words.
pub open spec fn is_word_char(c: char) -> bool {
    is_ascii_alphanumeric(c) || is_accented_letter(c)
}

/// The run of word characters that ends `s`; empty where `s` ends in a separator.
pub open spec fn trailing_word(s: Seq<char>) -> Seq<char>
    decreases s.len(),
{
    if s.len() == 0 || !is_word_char(s.last()) {
        Seq::empty()
    } else {
        trailing_word(s.drop_last()).push(s.last())
    }
}

/// The pieces of `s` that a separator has closed, one for each separator in `s`,
/// in the order of the separators. A piece is empty where two separators are
/// adjacent or where `s` begins with one.
pub open spec fn closed_words(s: Seq<char>) -> Seq<Seq<char>>
    decreases s.len(),
{
    if s.len() == 0 {
        Seq::empty()
    } else if is_word_char(s.last()) {
        closed_words(s.drop_last())
    } else {
        closed_words(s.drop_last()).push(trailing_word(s.drop_last()))
    }
}

/// All pieces of `s` between separators, the last one included.
pub open spec fn fragments(s: Seq<char>) -> Seq<Seq<char>> {
    closed_words(s).push(trailing_word(s))
}

/// A piece is kept as a token when it has more than two characters.
pub open spec fn is_token(w: Seq<char>) -> bool {
    w.len() > 2
}

/// `is_token` as a predicate for `Seq::filter`.
pub open spec fn token_filter() -> spec_fn(Seq<char>) -> bool {
    |w: Seq<char>| is_token(w)
}

/// The tokens of a text that is already lowercase: its pieces of more than
/// two characters, in order.
pub open spec fn token_seq(s: Seq<char>) -> Seq<Seq<char>> {
    fragments(s).filter(token_filter())
}

/// The lowercase form that `str::to_lowercase` gives a text.
pub uninterp spec fn lowercased(text: Seq<char>) -> Seq<char>;

/// The tokens of a text: those of its lowercase form.
pub open spec fn tokens_of(text: Seq<char>) -> Seq<Seq<char>> {
    token_seq(lowercased(text))
}

/// `String::push` appends one character to the string.
pub assume_specification[ String::push ](s: &mut String, c: char)
    ensures
        final(s)@ == old(s)@.push(c),
;

/// `str::to_lowercase`: the Unicode lowercase form of the text, which depends
/// on the characters of the text alone. The contract gives that form a name
/// and says nothing more of it.
#[verifier::external_body]
fn to_lowercase(text: &str) -> (lowered: String)
    ensures
        lowered@ == lowercased(text@),
{
    text.to_lowercase()
}

/// Whether `c` belongs to a word.
pub fn word_char(c: char) -> (b: bool)
    ensures
        b == is_word_char(c),
{
    ('a' <= c && c <= 'z') || ('A' <= c && c <= 'Z') || ('0' <= c && c <= '9') || c == 'ñ'
        || c == 'á' || c == 'é' || c == 'í' || c == 'ó' || c == 'ú' || c == 'ü'
}

/// Cuts a text at its separators and returns the pieces of more than two
/// characters, in order. The text is taken as it is: no character is changed.
pub fn split_tokens(text: &str) -> (tokens: Vec<String>)
    ensures
        texts(tokens@) == token_seq(text@),
{
    let mut tokens: Vec<String> = Vec::new();
    let mut word = String::new();
    // `size` counts the characters of `word` up to three, which is all the
    // length test needs.
    let mut size: u8 = 0;
    assert(texts(tokens@) =~= closed_words(text@.take(0)).filter(token_filter())) by {
        reveal(Seq::filter);
    }
    for c in it: text.chars()
        invariant
            it.seq() == text@,
            texts(tokens@) == closed_words(text@.take(it.index())).filter(token_filter()),
            word@ == trailing_word(text@.take(it.index())),
            size <= 3,
            size == 3 <==> word@.len() > 2,
            size < 3 ==> size == word@.len(),
    {
        let ghost before = text@.take(it.index());
        let ghost after = text@.take(it.index() + 1);
        assert(after.drop_last() == before);
        assert(after.last() == c);
        if word_char(c) {
            word.push(c);
            if size < 3 {
                size = size + 1;
            }
        } else {
            proof {
                closed_words(before).lemma_filter_push(word@, token_filter());
            }
            if size == 3 {
                proof {
                    lemma_texts_push(tokens@, word);
                }
                tokens.push(word);
            }
            word = String::new();
            size = 0;
        }
    }
    assert(text@.take(text@.len() as int) == text@);
    proof {
        closed_words(text@).lemma_filter_push(word@, token_filter());
    }
    if size == 3 {
        proof {
            lemma_texts_push(tokens@, word);
        }
        tokens.push(word);
    }
    tokens
}

/// Splits a text into its tokens: lowercase words of more than two characters,
/// in the order in which they occur. Every text has a token sequence; that of
/// a text without words is empty.
pub fn tokenize(text: &str) -> (tokens: Vec<String>)
    ensures
        texts(tokens@) == tokens_of(text@),
{
    let lowered = to_lowercase(text);
    split_tokens(lowered.as_str())
}

} // verus!
