//! Labelled documents and what is counted in them.
//!
//! A document carries a text and a list of topic labels. It counts once for
//! each occurrence of a label in its list: a document with two labels counts
//! for both topics, and one that names a topic twice counts twice for it.

use vstd::prelude::*;
use crate::tokenizer::{texts, tokens_of};

verus! {

/// A labelled document.
#[derive(Clone, Debug, PartialEq, Eq)]
pub struct Document {
    pub content: String,
    pub topics: Vec<String>,
}

/// What a document says: its text and its labels, in order.
pub struct DocumentView {
    pub content: Seq<char>,
    pub topics: Seq<Seq<char>>,
}

impl View for Document {
    type V = DocumentView;

    open spec fn view(&self) -> DocumentView {
        DocumentView { content: self.content@, topics: texts(self.topics@) }
    }
}

/// What a sequence of documents says.
pub open spec fn document_views(docs: Seq<Document>) -> Seq<DocumentView> {
    docs.map_values(|d: Document| d@)
}

/// A labelled document whose text has been split into tokens.
#[derive(Clone, Debug, PartialEq, Eq)]
pub struct TokenizedDocument {
    pub tokens: Vec<String>,
    pub topics: Vec<String>,
}

/// What a tokenized document says: its tokens and its labels, in order.
pub struct TokenizedView {
    pub tokens: Seq<Seq<char>>,
    pub topics: Seq<Seq<char>>,
}

impl View for TokenizedDocument {
    type V = TokenizedView;

    open spec fn view(&self) -> TokenizedView {
        TokenizedView { tokens: texts(self.tokens@), topics: texts(self.topics@) }
    }
}

/// What a sequence of tokenized documents says.
pub open spec fn tokenized_views(docs: Seq<TokenizedDocument>) -> Seq<TokenizedView> {
    docs.map_values(|d: TokenizedDocument| d@)
}

/// A document with its text split into tokens.
pub open spec fn tokenized(doc: DocumentView) -> TokenizedView {
    TokenizedView { tokens: tokens_of(doc.content), topics: doc.topics }
}

/// The documents with their texts split into tokens.
pub open spec fn tokenized_all(docs: Seq<DocumentView>) -> Seq<TokenizedView> {
    docs.map_values(|d: DocumentView| tokenized(d))
}

/// A training record as it arrives: either part may be missing.
#[derive(Clone, Debug, PartialEq, Eq)]
pub struct Record {
    pub content: Option<String>,
    pub topics: Option<Vec<String>>,
}

/// What a record says.
pub struct RecordView {
    pub content: Option<Seq<char>>,
    pub topics: Option<Seq<Seq<char>>>,
}

impl View for Record {
    type V = RecordView;

    open spec fn view(&self) -> RecordView {
        RecordView {
            content: match self.content {
                Some(c) => Some(c@),
                None => None,
            },
            topics: match self.topics {
                Some(t) => Some(texts(t@)),
                None => None,
            },
        }
    }
}

/// What a sequence of records says.
pub open spec fn record_views(records: Seq<Record>) -> Seq<RecordView> {
    records.map_values(|r: Record| r@)
}

/// A record can be trained on when it has a text that is not empty and at
/// least one topic.
pub open spec fn is_usable(record: RecordView) -> bool {
    &&& record.content matches Some(c) && c.len() > 0
    &&& record.topics matches Some(t) && t.len() > 0
}

/// The document that a usable record holds.
pub open spec fn document_of(record: RecordView) -> DocumentView {
    DocumentView { content: record.content->0, topics: record.topics->0 }
}

/// The documents of the usable records, in order; the other records are
/// passed over.
pub open spec fn usable_documents(records: Seq<RecordView>) -> Seq<DocumentView>
    decreases records.len(),
{
    if records.len() == 0 {
        Seq::empty()
    } else if is_usable(records.last()) {
        usable_documents(records.drop_last()).push(document_of(records.last()))
    } else {
        usable_documents(records.drop_last())
    }
}

/// Being usable, as a predicate for `Seq::filter`.
pub open spec fn usable() -> spec_fn(RecordView) -> bool {
    |r: RecordView| is_usable(r)
}

/// The usable records, in order.
pub open spec fn usable_records(records: Seq<RecordView>) -> Seq<RecordView> {
    records.filter(usable())
}

/// How often `x` occurs in `items`.
pub open spec fn occurrences(items: Seq<Seq<char>>, x: Seq<char>) -> nat
    decreases items.len(),
{
    if items.len() == 0 {
        0
    } else {
        occurrences(items.drop_last(), x) + if items.last() == x {
            1nat
        } else {
            0nat
        }
    }
}

/// Membership in a vocabulary, as a predicate for `Seq::filter`.
pub open spec fn in_vocabulary(vocabulary: Set<Seq<char>>) -> spec_fn(Seq<char>) -> bool {
    |w: Seq<char>| vocabulary.contains(w)
}

/// The tokens that are counted: those that belong to the vocabulary, in order.
pub open spec fn counted(tokens: Seq<Seq<char>>, vocabulary: Set<Seq<char>>) -> Seq<Seq<char>> {
    tokens.filter(in_vocabulary(vocabulary))
}

/// The counted tokens of a document.
pub open spec fn counted_tokens(doc: TokenizedView, vocabulary: Set<Seq<char>>) -> Seq<Seq<char>> {
    counted(doc.tokens, vocabulary)
}

/// The number of label occurrences of `topic` in `docs`: each document adds
/// as many as its label list names the topic.
pub open spec fn document_count(docs: Seq<TokenizedView>, topic: Seq<char>) -> nat
    decreases docs.len(),
{
    if docs.len() == 0 {
        0
    } else {
        document_count(docs.drop_last(), topic) + occurrences(docs.last().topics, topic)
    }
}

/// The number of counted occurrences of `word` under `topic`: each document
/// adds its counted occurrences of the word once for each occurrence of the
/// topic among its labels.
pub open spec fn word_count(
    docs: Seq<TokenizedView>,
    vocabulary: Set<Seq<char>>,
    topic: Seq<char>,
    word: Seq<char>,
) -> nat
    decreases docs.len(),
{
    if docs.len() == 0 {
        0
    } else {
        word_count(docs.drop_last(), vocabulary, topic, word) + occurrences(
            docs.last().topics,
            topic,
        ) * occurrences(counted_tokens(docs.last(), vocabulary), word)
    }
}

/// The number of counted tokens under `topic`: each document adds the number
/// of its counted tokens once for each occurrence of the topic among its
/// labels.
pub open spec fn topic_word_total(
    docs: Seq<TokenizedView>,
    vocabulary: Set<Seq<char>>,
    topic: Seq<char>,
) -> nat
    decreases docs.len(),
{
    if docs.len() == 0 {
        0
    } else {
        topic_word_total(docs.drop_last(), vocabulary, topic) + occurrences(
            docs.last().topics,
            topic,
        ) * counted_tokens(docs.last(), vocabulary).len()
    }
}

/// All labels of the documents, in the order of the documents and, within a
/// document, of its list.
pub open spec fn all_labels(docs: Seq<TokenizedView>) -> Seq<Seq<char>>
    decreases docs.len(),
{
    if docs.len() == 0 {
        Seq::empty()
    } else {
        all_labels(docs.drop_last()) + docs.last().topics
    }
}

/// The distinct items of a sequence, each at the place of its first occurrence.
pub open spec fn first_seen(items: Seq<Seq<char>>) -> Seq<Seq<char>>
    decreases items.len(),
{
    if items.len() == 0 {
        Seq::empty()
    } else {
        let before = first_seen(items.drop_last());
        if before.contains(items.last()) {
            before
        } else {
            before.push(items.last())
        }
    }
}

/// All tokens of the documents, in order.
pub open spec fn all_tokens(docs: Seq<TokenizedView>) -> Seq<Seq<char>>
    decreases docs.len(),
{
    if docs.len() == 0 {
        Seq::empty()
    } else {
        all_tokens(docs.drop_last()) + docs.last().tokens
    }
}

/// The vocabulary of a set of documents: every token of every document.
pub open spec fn vocabulary_of(docs: Seq<TokenizedView>) -> Set<Seq<char>> {
    all_tokens(docs).to_set()
}

/// No document names a topic twice.
pub open spec fn labels_unrepeated(docs: Seq<TokenizedView>) -> bool {
    forall|i: int| 0 <= i < docs.len() ==> (#[trigger] docs[i]).topics.no_duplicates()
}

// ---------------------------------------------------------------------------
// Occurrences
// ---------------------------------------------------------------------------

/// What a further item adds to the occurrences.
pub proof fn lemma_occurrences_push(items: Seq<Seq<char>>, y: Seq<char>, x: Seq<char>)
    ensures
        occurrences(items.push(y), x) == occurrences(items, x) + if y == x {
            1nat
        } else {
            0nat
        },
{
    assert(items.push(y).drop_last() == items);
}

/// The occurrences in two sequences, one after the other, add up.
pub proof fn lemma_occurrences_add(a: Seq<Seq<char>>, b: Seq<Seq<char>>, x: Seq<char>)
    ensures
        occurrences(a + b, x) == occurrences(a, x) + occurrences(b, x),
    decreases b.len(),
{
    if b.len() == 0 {
        assert(a + b == a);
    } else {
        assert((a + b).drop_last() == a + b.drop_last());
        lemma_occurrences_add(a, b.drop_last(), x);
    }
}

/// An item occurs in a sequence exactly when its number of occurrences is positive.
pub proof fn lemma_occurrences_positive(items: Seq<Seq<char>>, x: Seq<char>)
    ensures
        occurrences(items, x) > 0 <==> items.contains(x),
    decreases items.len(),
{
    if items.len() == 0 {
    } else {
        let before = items.drop_last();
        lemma_occurrences_positive(before, x);
        if items.contains(x) {
            let i = choose|i: int| 0 <= i < items.len() && items[i] == x;
            if i < items.len() - 1 {
                assert(before[i] == x);
            }
        }
        if before.contains(x) {
            let i = choose|i: int| 0 <= i < before.len() && before[i] == x;
            assert(items[i] == x);
        }
    }
}

/// Nothing occurs more often than the sequence is long.
pub proof fn lemma_occurrences_at_most_len(items: Seq<Seq<char>>, x: Seq<char>)
    ensures
        occurrences(items, x) <= items.len(),
    decreases items.len(),
{
    if items.len() > 0 {
        lemma_occurrences_at_most_len(items.drop_last(), x);
    }
}

/// In a sequence without repetition nothing occurs more than once.
pub proof fn lemma_occurrences_unrepeated(items: Seq<Seq<char>>, x: Seq<char>)
    requires
        items.no_duplicates(),
    ensures
        occurrences(items, x) <= 1,
    decreases items.len(),
{
    if items.len() > 0 {
        let before = items.drop_last();
        lemma_occurrences_unrepeated(before, x);
        if items.last() == x {
            lemma_occurrences_positive(before, x);
            if before.contains(x) {
                let i = choose|i: int| 0 <= i < before.len() && before[i] == x;
                assert(items[i] == items[items.len() - 1]);
            }
        }
    }
}

// ---------------------------------------------------------------------------
// First occurrences
// ---------------------------------------------------------------------------

/// `first_seen` holds exactly the items of the sequence, each once.
pub proof fn lemma_first_seen(items: Seq<Seq<char>>)
    ensures
        first_seen(items).no_duplicates(),
        forall|x: Seq<char>| first_seen(items).contains(x) <==> items.contains(x),
    decreases items.len(),
{
    if items.len() == 0 {
    } else {
        let before = items.drop_last();
        let last = items.last();
        lemma_first_seen(before);
        assert forall|x: Seq<char>| first_seen(items).contains(x) <==> items.contains(x) by {
            if items.contains(x) {
                let i = choose|i: int| 0 <= i < items.len() && items[i] == x;
                if i < items.len() - 1 {
                    assert(before[i] == x);
                    assert(before.contains(x));
                    let j = choose|j: int|
                        0 <= j < first_seen(before).len() && first_seen(before)[j] == x;
                    assert(first_seen(items)[j] == x);
                } else {
                    if first_seen(before).contains(last) {
                    } else {
                        assert(first_seen(items)[first_seen(before).len() as int] == x);
                    }
                }
            }
            if first_seen(items).contains(x) {
                let j = choose|j: int|
                    0 <= j < first_seen(items).len() && first_seen(items)[j] == x;
                if j < first_seen(before).len() {
                    assert(first_seen(before)[j] == x);
                    assert(before.contains(x));
                    let i = choose|i: int| 0 <= i < before.len() && before[i] == x;
                    assert(items[i] == x);
                } else {
                    assert(x == last);
                    assert(items[items.len() - 1] == x);
                }
            }
        }
    }
}

/// A further item is a new first occurrence unless it was seen before.
pub proof fn lemma_first_seen_push(items: Seq<Seq<char>>, x: Seq<char>)
    ensures
        first_seen(items.push(x)) == if first_seen(items).contains(x) {
            first_seen(items)
        } else {
            first_seen(items).push(x)
        },
{
    assert(items.push(x).drop_last() == items);
}

// ---------------------------------------------------------------------------
// Counting, one document after another
// ---------------------------------------------------------------------------

/// What a further document adds to each count.
pub proof fn lemma_counts_push(
    docs: Seq<TokenizedView>,
    doc: TokenizedView,
    vocabulary: Set<Seq<char>>,
    topic: Seq<char>,
    word: Seq<char>,
)
    ensures
        document_count(docs.push(doc), topic) == document_count(docs, topic) + occurrences(
            doc.topics,
            topic,
        ),
        word_count(docs.push(doc), vocabulary, topic, word) == word_count(
            docs,
            vocabulary,
            topic,
            word,
        ) + occurrences(doc.topics, topic) * occurrences(counted_tokens(doc, vocabulary), word),
        topic_word_total(docs.push(doc), vocabulary, topic) == topic_word_total(
            docs,
            vocabulary,
            topic,
        ) + occurrences(doc.topics, topic) * counted_tokens(doc, vocabulary).len(),
        all_labels(docs.push(doc)) == all_labels(docs) + doc.topics,
        all_tokens(docs.push(doc)) == all_tokens(docs) + doc.tokens,
{
    assert(docs.push(doc).drop_last() == docs);
}

/// No word is counted more often under a topic than all words together.
pub proof fn lemma_word_count_at_most_total(
    docs: Seq<TokenizedView>,
    vocabulary: Set<Seq<char>>,
    topic: Seq<char>,
    word: Seq<char>,
)
    ensures
        word_count(docs, vocabulary, topic, word) <= topic_word_total(docs, vocabulary, topic),
    decreases docs.len(),
{
    if docs.len() > 0 {
        lemma_word_count_at_most_total(docs.drop_last(), vocabulary, topic, word);
        let n = occurrences(docs.last().topics, topic);
        let c = occurrences(counted_tokens(docs.last(), vocabulary), word);
        let t = counted_tokens(docs.last(), vocabulary).len();
        lemma_occurrences_at_most_len(counted_tokens(docs.last(), vocabulary), word);
        assert(n * c <= n * t) by (nonlinear_arith)
            requires
                c <= t,
        ;
    }
}

/// A word that is counted under some topic belongs to the vocabulary.
pub proof fn lemma_counted_word_in_vocabulary(
    docs: Seq<TokenizedView>,
    vocabulary: Set<Seq<char>>,
    topic: Seq<char>,
    word: Seq<char>,
)
    requires
        word_count(docs, vocabulary, topic, word) > 0,
    ensures
        vocabulary.contains(word),
    decreases docs.len(),
{
    if docs.len() > 0 {
        let n = occurrences(docs.last().topics, topic);
        let c = occurrences(counted_tokens(docs.last(), vocabulary), word);
        if c > 0 {
            let tokens = counted_tokens(docs.last(), vocabulary);
            lemma_occurrences_positive(tokens, word);
            let i = choose|i: int| 0 <= i < tokens.len() && tokens[i] == word;
            docs.last().tokens.lemma_filter_pred(in_vocabulary(vocabulary), i);
        } else {
            assert(n * c == 0) by (nonlinear_arith)
                requires
                    c == 0,
            ;
            lemma_counted_word_in_vocabulary(docs.drop_last(), vocabulary, topic, word);
        }
    }
}

/// A topic under which something is counted labels a document.
pub proof fn lemma_counts_need_label(
    docs: Seq<TokenizedView>,
    vocabulary: Set<Seq<char>>,
    topic: Seq<char>,
    word: Seq<char>,
)
    requires
        document_count(docs, topic) == 0,
    ensures
        word_count(docs, vocabulary, topic, word) == 0,
        topic_word_total(docs, vocabulary, topic) == 0,
    decreases docs.len(),
{
    if docs.len() > 0 {
        lemma_counts_need_label(docs.drop_last(), vocabulary, topic, word);
        let n = occurrences(docs.last().topics, topic);
        let c = occurrences(counted_tokens(docs.last(), vocabulary), word);
        let t = counted_tokens(docs.last(), vocabulary).len();
        assert(n * c == 0 && n * t == 0) by (nonlinear_arith)
            requires
                n == 0,
        ;
    }
}

/// The label occurrences of a topic are its occurrences among all labels.
pub proof fn lemma_document_count_is_label_count(docs: Seq<TokenizedView>, topic: Seq<char>)
    ensures
        document_count(docs, topic) == occurrences(all_labels(docs), topic),
    decreases docs.len(),
{
    if docs.len() > 0 {
        lemma_document_count_is_label_count(docs.drop_last(), topic);
        lemma_occurrences_add(all_labels(docs.drop_last()), docs.last().topics, topic);
    }
}

/// The counts of a part of the documents do not exceed those of all of them.
pub proof fn lemma_counts_grow(
    docs: Seq<TokenizedView>,
    n: int,
    vocabulary: Set<Seq<char>>,
    topic: Seq<char>,
)
    requires
        0 <= n <= docs.len(),
    ensures
        document_count(docs.take(n), topic) <= document_count(docs, topic),
        topic_word_total(docs.take(n), vocabulary, topic) <= topic_word_total(
            docs,
            vocabulary,
            topic,
        ),
    decreases docs.len() - n,
{
    if n == docs.len() {
        assert(docs.take(n) == docs);
    } else {
        lemma_counts_grow(docs, n + 1, vocabulary, topic);
        assert(docs.take(n + 1).drop_last() == docs.take(n));
        let d = docs.take(n + 1).last();
        assert(occurrences(d.topics, topic) * counted_tokens(d, vocabulary).len() >= 0)
            by (nonlinear_arith);
    }
}

} // verus!
