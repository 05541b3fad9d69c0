//! Learning a model from labelled documents.

use vstd::prelude::*;
use vstd::hash_map::StringHashMap;
use vstd::hash_set::StringHashSet;
use vstd::seq_lib::seq_to_set_is_finite;
use crate::corpus::{
    all_labels, all_tokens, counted, counted_tokens, document_count, document_views, first_seen,
    in_vocabulary, lemma_counted_word_in_vocabulary, lemma_counts_grow, lemma_counts_need_label,
    lemma_counts_push, lemma_document_count_is_label_count, lemma_first_seen,
    lemma_first_seen_push, lemma_occurrences_add, lemma_occurrences_at_most_len,
    lemma_occurrences_positive, lemma_occurrences_push, lemma_word_count_at_most_total,
    occurrences, record_views, tokenized_all, tokenized_views, topic_word_total,
    usable_documents, vocabulary_of, word_count, Document, DocumentView, Record, RecordView,
    TokenizedDocument, TokenizedView,
};
use crate::error::ClassifierError;
use crate::model::{ModelView, NaiveBayesModel};
use crate::ratio::Ratio;
use crate::table::{
    as_map, distinct_keys, find, indexes, keys, lemma_as_map_absent, lemma_as_map_at,
    lemma_as_map_empty, lemma_as_map_push, lemma_as_map_update, lemma_index_push,
    lemma_index_update, lemma_indexed_distinct, lemma_keys_push, locate, Entry,
};
use crate::tokenizer::{texts, tokenize, tokens_of};

verus! {

/// What training works on: the documents and the vocabulary whose words are
/// counted.
pub struct TrainingData {
    pub documents: Vec<Document>,
    pub vocabulary: StringHashSet,
}

/// The training data as values.
pub struct TrainingView {
    pub documents: Seq<DocumentView>,
    pub vocabulary: Set<Seq<char>>,
}

impl View for TrainingData {
    type V = TrainingView;

    open spec fn view(&self) -> TrainingView {
        TrainingView {
            documents: document_views(self.documents@),
            vocabulary: self.vocabulary@,
        }
    }
}

impl TrainingData {
    /// The vocabulary is a finite set.
    pub open spec fn wf(&self) -> bool {
        self.vocabulary@.finite()
    }

    /// Training data whose vocabulary is that of the documents: every token
    /// of every text.
    pub fn from_documents(documents: Vec<Document>) -> (data: TrainingData)
        ensures
            data.wf(),
            data.documents == documents,
            data@.vocabulary == vocabulary_of(tokenized_all(document_views(documents@))),
    {
        let ghost docs = tokenized_all(document_views(documents@));
        let mut vocabulary = StringHashSet::new();
        let mut i: usize = 0;
        assert(all_tokens(docs.take(0)) =~= Seq::empty());
        assert(vocabulary@ =~= all_tokens(docs.take(0)).to_set());
        while i < documents.len()
            invariant
                i <= documents.len(),
                docs == tokenized_all(document_views(documents@)),
                vocabulary@ == all_tokens(docs.take(i as int)).to_set(),
            decreases documents.len() - i,
        {
            let tokens = tokenize(documents[i].content.as_str());
            let ghost before = all_tokens(docs.take(i as int));
            let ghost added = texts(tokens@);
            proof {
                assert(docs[i as int].tokens == tokens_of(documents[i as int].content@));
                assert(docs.take(i + 1).drop_last() == docs.take(i as int));
                assert(before + added.take(0) == before);
            }
            for token in it: tokens
                invariant
                    texts(it.seq()) == added,
                    vocabulary@ == (before + added.take(it.index())).to_set(),
            {
                proof {
                    assert(added[it.index()] == token@);
                    assert(before + added.take(it.index() + 1) == (before + added.take(
                        it.index(),
                    )).push(token@));
                    (before + added.take(it.index())).lemma_push_to_set_commute(token@);
                }
                vocabulary.insert(token);
            }
            assert(added.take(added.len() as int) == added);
            i = i + 1;
        }
        assert(docs.take(documents.len() as int) == docs);
        proof {
            seq_to_set_is_finite(all_tokens(docs));
        }
        TrainingData { documents, vocabulary }
    }
}

/// The vocabulary of tokenized documents: every token of every document.
pub fn collect_vocabulary(documents: &Vec<TokenizedDocument>) -> (vocabulary: StringHashSet)
    ensures
        vocabulary@.finite(),
        vocabulary@ == vocabulary_of(tokenized_views(documents@)),
{
    let ghost docs = tokenized_views(documents@);
    let mut vocabulary = StringHashSet::new();
    let mut i: usize = 0;
    assert(all_tokens(docs.take(0)) =~= Seq::empty());
    assert(vocabulary@ =~= all_tokens(docs.take(0)).to_set());
    while i < documents.len()
        invariant
            i <= documents.len(),
            docs == tokenized_views(documents@),
            vocabulary@ == all_tokens(docs.take(i as int)).to_set(),
        decreases documents.len() - i,
    {
        let tokens = &documents[i].tokens;
        let ghost before = all_tokens(docs.take(i as int));
        let ghost added = texts(tokens@);
        proof {
            assert(docs[i as int] == documents[i as int]@);
            assert(docs.take(i + 1).drop_last() == docs.take(i as int));
            assert(before + added.take(0) == before);
        }
        let mut j: usize = 0;
        while j < tokens.len()
            invariant
                j <= tokens.len(),
                added == texts(tokens@),
                vocabulary@ == (before + added.take(j as int)).to_set(),
            decreases tokens.len() - j,
        {
            proof {
                assert(added[j as int] == tokens[j as int]@);
                assert(before + added.take(j + 1) == (before + added.take(j as int)).push(
                    tokens[j as int]@,
                ));
                (before + added.take(j as int)).lemma_push_to_set_commute(tokens[j as int]@);
            }
            vocabulary.insert(tokens[j].clone());
            j = j + 1;
        }
        assert(added.take(added.len() as int) == added);
        i = i + 1;
    }
    assert(docs.take(documents.len() as int) == docs);
    proof {
        seq_to_set_is_finite(all_tokens(docs));
    }
    vocabulary
}

/// The numerator of the smoothed likelihood of a word that was counted
/// `count` times under a topic: one is added to the count.
pub open spec fn smoothed_numerator(count: nat) -> nat {
    count + 1
}

/// The denominator of the smoothed likelihoods of a topic with `total`
/// counted tokens: the size of the vocabulary is added to the total.
pub open spec fn smoothed_denominator(total: nat, vocabulary_size: nat) -> nat {
    total + vocabulary_size
}

/// Every count of the documents, and every denominator of smoothing, fits a
/// 64-bit integer.
pub open spec fn fits(docs: Seq<TokenizedView>, vocabulary: Set<Seq<char>>) -> bool {
    forall|topic: Seq<char>|
        {
            &&& #[trigger] document_count(docs, topic) <= u64::MAX
            &&& topic_word_total(docs, vocabulary, topic) + vocabulary.len() <= u64::MAX
        }
}

/// The model is the one that the documents and the vocabulary determine.
///
/// Its topics are the labels of the documents in the order of their first
/// occurrence. The prior of a topic is its number of label occurrences over
/// the number of documents. A topic's table holds the words counted under it,
/// each with its smoothed likelihood.
pub open spec fn is_trained_on(
    model: ModelView,
    docs: Seq<TokenizedView>,
    vocabulary: Set<Seq<char>>,
) -> bool {
    &&& model.topics == first_seen(all_labels(docs))
    &&& model.vocabulary_size == vocabulary.len()
    &&& forall|t: Seq<char>|
        #![trigger model.topic_priors.contains_key(t)]
        #![trigger document_count(docs, t)]
        model.topic_priors.contains_key(t) <==> document_count(docs, t) > 0
    &&& forall|t: Seq<char>|
        #![trigger model.word_given_topic.contains_key(t)]
        #![trigger document_count(docs, t)]
        model.word_given_topic.contains_key(t) <==> document_count(docs, t) > 0
    &&& forall|t: Seq<char>|
        #![trigger model.topic_word_counts.contains_key(t)]
        #![trigger document_count(docs, t)]
        model.topic_word_counts.contains_key(t) <==> document_count(docs, t) > 0
    &&& forall|t: Seq<char>| #[trigger]
        model.topic_priors.contains_key(t) ==> {
            &&& model.topic_priors[t].num == document_count(docs, t)
            &&& model.topic_priors[t].den == docs.len()
        }
    &&& forall|t: Seq<char>| #[trigger]
        model.topic_word_counts.contains_key(t) ==> model.topic_word_counts[t]
            == topic_word_total(docs, vocabulary, t)
    &&& forall|t: Seq<char>, w: Seq<char>|
        #![trigger model.word_given_topic[t].contains_key(w)]
        #![trigger word_count(docs, vocabulary, t, w)]
        model.word_given_topic.contains_key(t) ==> {
            &&& model.word_given_topic[t].contains_key(w) <==> word_count(docs, vocabulary, t, w)
                > 0
            &&& model.word_given_topic[t].contains_key(w) ==> {
                &&& model.word_given_topic[t][w].num == smoothed_numerator(
                    word_count(docs, vocabulary, t, w),
                )
                &&& model.word_given_topic[t][w].den == smoothed_denominator(
                    topic_word_total(docs, vocabulary, t),
                    vocabulary.len(),
                )
            }
        }
}

/// The count that a list of word counts holds for a word: zero for a word
/// without an entry.
pub open spec fn count_in(words: Seq<Entry<u64>>, word: Seq<char>) -> nat {
    if as_map(words).contains_key(word) {
        as_map(words)[word] as nat
    } else {
        0
    }
}

/// Every entry of the list counts at least one occurrence.
pub open spec fn positive(words: Seq<Entry<u64>>) -> bool {
    forall|k: int| 0 <= k < words.len() ==> (#[trigger] words[k]).value >= 1
}

/// The counted tokens of a prefix are a prefix of the counted tokens.
proof fn lemma_counted_prefix(tokens: Seq<Seq<char>>, k: int, vocabulary: Set<Seq<char>>)
    requires
        0 <= k <= tokens.len(),
    ensures
        counted(tokens.take(k), vocabulary).len() <= counted(tokens, vocabulary).len(),
{
    assert(tokens == tokens.take(k) + tokens.skip(k));
    Seq::filter_distributes_over_add(tokens.take(k), tokens.skip(k), in_vocabulary(vocabulary));
}

/// What one more token adds to the counted tokens of a prefix.
proof fn lemma_counted_step(tokens: Seq<Seq<char>>, k: int, vocabulary: Set<Seq<char>>)
    requires
        0 <= k < tokens.len(),
    ensures
        counted(tokens.take(k + 1), vocabulary) == if vocabulary.contains(tokens[k]) {
            counted(tokens.take(k), vocabulary).push(tokens[k])
        } else {
            counted(tokens.take(k), vocabulary)
        },
{
    assert(tokens.take(k + 1) == tokens.take(k).push(tokens[k]));
    tokens.take(k).lemma_filter_push(tokens[k], in_vocabulary(vocabulary));
}

/// Counts the tokens that belong to the vocabulary: each adds one to the
/// count of its word and one to `total`. Gives up, with `false`, as soon as
/// `total` would pass the largest 64-bit integer.
fn add_tokens(
    words: &mut Vec<Entry<u64>>,
    index: &mut StringHashMap<usize>,
    total: &mut u64,
    tokens: &Vec<String>,
    vocabulary: &StringHashSet,
) -> (ok: bool)
    requires
        indexes(old(index)@, old(words)@),
        positive(old(words)@),
        forall|w: Seq<char>| count_in(old(words)@, w) <= *old(total),
    ensures
        ok <==> *old(total) + counted(texts(tokens@), vocabulary@).len() <= u64::MAX,
        ok ==> {
            &&& indexes(final(index)@, final(words)@)
            &&& positive(final(words)@)
            &&& *final(total) == *old(total) + counted(texts(tokens@), vocabulary@).len()
            &&& forall|w: Seq<char>|
                count_in(final(words)@, w) == count_in(old(words)@, w) + occurrences(
                    counted(texts(tokens@), vocabulary@),
                    w,
                )
        },
{
    let ghost all = texts(tokens@);
    let ghost vocab = vocabulary@;
    let ghost words0 = words@;
    let ghost total0 = *total;
    let mut k: usize = 0;
    assert(counted(all.take(0), vocab) =~= Seq::empty()) by {
        reveal(Seq::filter);
    }
    while k < tokens.len()
        invariant
            k <= tokens.len(),
            all == texts(tokens@),
            vocab == vocabulary@,
            words0 == old(words)@,
            total0 == *old(total),
            indexes(index@, words@),
            positive(words@),
            *total == total0 + counted(all.take(k as int), vocab).len(),
            forall|w: Seq<char>|
                count_in(words@, w) == count_in(words0, w) + occurrences(
                    counted(all.take(k as int), vocab),
                    w,
                ),
            forall|w: Seq<char>| count_in(words0, w) <= total0,
        decreases tokens.len() - k,
    {
        let token = &tokens[k];
        let ghost seen = counted(all.take(k as int), vocab);
        let ghost before = words@;
        proof {
            assert(all[k as int] == token@);
            lemma_counted_step(all, k as int, vocab);
            lemma_indexed_distinct(index@, before);
        }
        if vocabulary.contains(token.as_str()) {
            if *total == u64::MAX {
                proof {
                    lemma_counted_prefix(all, k + 1, vocab);
                }
                return false;
            }
            match locate(index, words, token) {
                Some(i) => {
                    proof {
                        lemma_as_map_at(before, i as int);
                        lemma_occurrences_at_most_len(seen, token@);
                        assert(count_in(before, token@) == before[i as int].value);
                    }
                    let entry = &mut words[i];
                    entry.value = entry.value + 1;
                    proof {
                        assert(words@ == before.update(i as int, words@[i as int]));
                        lemma_as_map_update(before, i as int, words@[i as int]);
                        lemma_index_update(index@, before, i as int, words@[i as int]);
                    }
                },
                None => {
                    let entry = Entry { key: token.clone(), value: 1u64 };
                    proof {
                        lemma_as_map_absent(before, token@);
                        lemma_as_map_push(before, entry);
                        assert(!index@.contains_key(token@)) by {
                            if index@.contains_key(token@) {
                                assert(keys(before)[index@[token@] as int] == token@);
                            }
                        }
                    }
                    proof {
                        assert(before.len() == words.len());
                        lemma_index_push(index@, before, entry);
                    }
                    index.insert(token.clone(), words.len());
                    words.push(entry);
                },
            }
            *total = *total + 1;
            proof {
                assert(as_map(words@) == as_map(before).insert(
                    token@,
                    (count_in(before, token@) + 1) as u64,
                ));
                assert forall|w: Seq<char>|
                    count_in(words@, w) == count_in(words0, w) + occurrences(
                        seen.push(token@),
                        w,
                    ) by {
                    lemma_occurrences_push(seen, token@, w);
                    assert(count_in(before, w) == count_in(words0, w) + occurrences(seen, w));
                }
            }
        }
        k = k + 1;
    }
    assert(all.take(tokens.len() as int) == all);
    true
}

/// What has been counted for one topic.
struct TopicCounts {
    /// Label occurrences of the topic.
    documents: u64,
    /// Counted occurrences of each word under the topic.
    words: Vec<Entry<u64>>,
    /// The position of each word in `words`.
    index: StringHashMap<usize>,
    /// Counted tokens under the topic.
    total: u64,
}

/// The counts of one topic are those of the documents.
spec fn tally_matches(
    tally: Entry<TopicCounts>,
    docs: Seq<TokenizedView>,
    vocabulary: Set<Seq<char>>,
) -> bool {
    &&& tally.value.documents == document_count(docs, tally.key@)
    &&& tally.value.total == topic_word_total(docs, vocabulary, tally.key@)
    &&& indexes(tally.value.index@, tally.value.words@)
    &&& positive(tally.value.words@)
    &&& forall|w: Seq<char>|
        count_in(tally.value.words@, w) == #[trigger] word_count(docs, vocabulary, tally.key@, w)
}

/// The tallies hold the topics of the documents, in the order of their first
/// occurrence, each with its counts.
spec fn tallies_match(
    tallies: Seq<Entry<TopicCounts>>,
    docs: Seq<TokenizedView>,
    vocabulary: Set<Seq<char>>,
) -> bool {
    &&& keys(tallies) == first_seen(all_labels(docs))
    &&& forall|k: int|
        0 <= k < tallies.len() ==> tally_matches(#[trigger] tallies[k], docs, vocabulary)
}

/// The documents `seen`, followed by one more, with the tokens `words`, of
/// which only `labels` count.
spec fn partial(seen: Seq<TokenizedView>, words: Seq<Seq<char>>, labels: Seq<Seq<char>>) -> Seq<
    TokenizedView,
> {
    seen.push(TokenizedView { tokens: words, topics: labels })
}

/// What one more label of the last document adds to each count.
proof fn lemma_label_step(
    seen: Seq<TokenizedView>,
    words: Seq<Seq<char>>,
    labels: Seq<Seq<char>>,
    label: Seq<char>,
    vocabulary: Set<Seq<char>>,
    topic: Seq<char>,
    word: Seq<char>,
)
    ensures
        ({
            let before = partial(seen, words, labels);
            let after = partial(seen, words, labels.push(label));
            let tokens = counted(words, vocabulary);
            &&& all_labels(after) == all_labels(before).push(label)
            &&& topic != label ==> {
                &&& document_count(after, topic) == document_count(before, topic)
                &&& word_count(after, vocabulary, topic, word) == word_count(
                    before,
                    vocabulary,
                    topic,
                    word,
                )
                &&& topic_word_total(after, vocabulary, topic) == topic_word_total(
                    before,
                    vocabulary,
                    topic,
                )
            }
            &&& topic == label ==> {
                &&& document_count(after, topic) == document_count(before, topic) + 1
                &&& word_count(after, vocabulary, topic, word) == word_count(
                    before,
                    vocabulary,
                    topic,
                    word,
                ) + occurrences(tokens, word)
                &&& topic_word_total(after, vocabulary, topic) == topic_word_total(
                    before,
                    vocabulary,
                    topic,
                ) + tokens.len()
            }
        }),
{
    let d0 = TokenizedView { tokens: words, topics: labels };
    let d1 = TokenizedView { tokens: words, topics: labels.push(label) };
    lemma_counts_push(seen, d0, vocabulary, topic, word);
    lemma_counts_push(seen, d1, vocabulary, topic, word);
    lemma_occurrences_push(labels, label, topic);
    assert(all_labels(seen) + labels.push(label) == (all_labels(seen) + labels).push(label));
    let n = occurrences(labels, topic);
    let c = occurrences(counted_tokens(d0, vocabulary), word);
    let t = counted_tokens(d0, vocabulary).len();
    assert((n + 1) * c == n * c + c && (n + 1) * t == n * t + t) by (nonlinear_arith);
}

/// Counts one label of a document: one more document for the topic, and the
/// document's counted tokens under it. Gives up, with `false`, when a count
/// would pass the largest 64-bit integer.
fn credit(
    tallies: &mut Vec<Entry<TopicCounts>>,
    topic: &String,
    tokens: &Vec<String>,
    vocabulary: &StringHashSet,
    Ghost(seen): Ghost<Seq<TokenizedView>>,
    Ghost(words): Ghost<Seq<Seq<char>>>,
    Ghost(labels): Ghost<Seq<Seq<char>>>,
) -> (ok: bool)
    requires
        tallies_match(old(tallies)@, partial(seen, words, labels), vocabulary@),
        texts(tokens@) == words,
    ensures
        ok <==> {
            &&& document_count(partial(seen, words, labels.push(topic@)), topic@) <= u64::MAX
            &&& topic_word_total(
                partial(seen, words, labels.push(topic@)),
                vocabulary@,
                topic@,
            ) <= u64::MAX
        },
        ok ==> tallies_match(
            final(tallies)@,
            partial(seen, words, labels.push(topic@)),
            vocabulary@,
        ),
{
    let ghost before = partial(seen, words, labels);
    let ghost after = partial(seen, words, labels.push(topic@));
    let ghost vocab = vocabulary@;
    let ghost t = topic@;
    let ghost start = tallies@;
    proof {
        lemma_label_step(seen, words, labels, t, vocab, t, t);
        lemma_first_seen(all_labels(before));
        lemma_first_seen_push(all_labels(before), t);
    }
    let idx = match find(tallies, topic) {
        Some(i) => {
            proof {
                assert(keys(start)[i as int] == t);
            }
            i
        },
        None => {
            let fresh = Entry {
                key: topic.clone(),
                value: TopicCounts {
                    documents: 0,
                    words: Vec::new(),
                    index: StringHashMap::new(),
                    total: 0,
                },
            };
            proof {
                lemma_keys_push(start, fresh);
                lemma_occurrences_positive(all_labels(before), t);
                lemma_document_count_is_label_count(before, t);
                lemma_as_map_empty::<u64>();
                assert forall|w: Seq<char>|
                    count_in(fresh.value.words@, w) == #[trigger] word_count(
                        before,
                        vocab,
                        t,
                        w,
                    ) by {
                    lemma_counts_need_label(before, vocab, t, w);
                }
                lemma_counts_need_label(before, vocab, t, t);
                assert(tally_matches(fresh, before, vocab));
            }
            tallies.push(fresh);
            tallies.len() - 1
        },
    };
    let ghost ready = tallies@;
    assert(keys(ready) == first_seen(all_labels(after)));
    assert(forall|k: int| 0 <= k < ready.len() ==> tally_matches(#[trigger] ready[k], before, vocab));
    assert(ready[idx as int].key@ == t);
    let tally = &mut tallies[idx];
    if tally.value.documents == u64::MAX {
        return false;
    }
    tally.value.documents = tally.value.documents + 1;
    proof {
        assert forall|w: Seq<char>| count_in(tally.value.words@, w) <= tally.value.total by {
            lemma_word_count_at_most_total(before, vocab, t, w);
            assert(count_in(tally.value.words@, w) == word_count(before, vocab, t, w));
        }
    }
    let counted_all = add_tokens(
        &mut tally.value.words,
        &mut tally.value.index,
        &mut tally.value.total,
        tokens,
        vocabulary,
    );
    if !counted_all {
        return false;
    }
    proof {
        let done = tallies@;
        assert(keys(done) =~= keys(ready));
        assert forall|k: int| 0 <= k < done.len() implies tally_matches(
            #[trigger] done[k],
            after,
            vocab,
        ) by {
            let u = done[k].key@;
            assert(keys(ready)[k] == ready[k].key@);
            assert(keys(ready)[idx as int] == ready[idx as int].key@);
            assert(tally_matches(ready[k], before, vocab));
            lemma_label_step(seen, words, labels, t, vocab, u, u);
            assert forall|w: Seq<char>|
                count_in(done[k].value.words@, w) == #[trigger] word_count(after, vocab, u, w) by {
                lemma_label_step(seen, words, labels, t, vocab, u, w);
                assert(count_in(ready[k].value.words@, w) == word_count(before, vocab, u, w));
            }
        }
    }
    true
}

/// The table gives each counted word its smoothed likelihood.
spec fn smoothed_table(
    table: Seq<Entry<Ratio>>,
    words: Seq<Entry<u64>>,
    total: u64,
    vocabulary_size: u64,
) -> bool {
    &&& keys(table) == keys(words)
    &&& forall|j: int|
        0 <= j < words.len() ==> {
            &&& (#[trigger] table[j]).value.num == words[j].value + 1
            &&& table[j].value.den == total + vocabulary_size
        }
}

/// Turns the word counts of a topic into smoothed likelihoods.
fn smooth(words: &Vec<Entry<u64>>, total: u64, vocabulary_size: u64) -> (table: Vec<Entry<Ratio>>)
    requires
        total + vocabulary_size <= u64::MAX,
        forall|j: int| 0 <= j < words.len() ==> (#[trigger] words[j]).value < total + vocabulary_size,
    ensures
        smoothed_table(table@, words@, total, vocabulary_size),
{
    let mut table: Vec<Entry<Ratio>> = Vec::new();
    let mut j: usize = 0;
    assert(keys(table@) =~= keys(words@.take(0)));
    while j < words.len()
        invariant
            j <= words.len(),
            total + vocabulary_size <= u64::MAX,
            forall|l: int|
                0 <= l < words.len() ==> (#[trigger] words[l]).value < total + vocabulary_size,
            table.len() == j,
            keys(table@) == keys(words@.take(j as int)),
            forall|l: int|
                0 <= l < j ==> {
                    &&& (#[trigger] table[l]).value.num == words[l].value + 1
                    &&& table[l].value.den == total + vocabulary_size
                },
        decreases words.len() - j,
    {
        let entry = Entry {
            key: words[j].key.clone(),
            value: Ratio { num: words[j].value + 1, den: total + vocabulary_size },
        };
        proof {
            lemma_keys_push(table@, entry);
            lemma_keys_push(words@.take(j as int), words[j as int]);
            assert(words@.take(j + 1) == words@.take(j as int).push(words[j as int]));
        }
        table.push(entry);
        j = j + 1;
    }
    assert(words@.take(words.len() as int) == words@);
    table
}

/// The lists of the model repeat the tallies, entry for entry.
spec fn mirrors(
    model: NaiveBayesModel,
    tallies: Seq<Entry<TopicCounts>>,
    documents: u64,
    vocabulary_size: u64,
) -> bool {
    &&& model.vocabulary_size == vocabulary_size
    &&& model.topic_priors.len() == tallies.len()
    &&& model.word_given_topic.len() == tallies.len()
    &&& model.topic_word_counts.len() == tallies.len()
    &&& keys(model.topic_priors@) == keys(tallies)
    &&& keys(model.word_given_topic@) == keys(tallies)
    &&& keys(model.topic_word_counts@) == keys(tallies)
    &&& forall|k: int|
        0 <= k < tallies.len() ==> {
            &&& model.topic_priors[k].value == Ratio {
                num: (#[trigger] tallies[k]).value.documents,
                den: documents,
            }
            &&& model.topic_word_counts[k].value == tallies[k].value.total
            &&& smoothed_table(
                model.word_given_topic[k].value@,
                tallies[k].value.words@,
                tallies[k].value.total,
                vocabulary_size,
            )
        }
}

/// Builds the model from the finished tallies. There is none when the
/// denominator of smoothing does not fit a 64-bit integer for some topic.
fn build_model(tallies: &Vec<Entry<TopicCounts>>, documents: u64, vocabulary_size: u64) -> (built:
    Option<NaiveBayesModel>)
    requires
        distinct_keys(tallies@),
        tallies.len() > 0 ==> documents >= 1,
        forall|k: int|
            0 <= k < tallies.len() ==> {
                &&& (#[trigger] tallies[k]).value.documents >= 1
                &&& distinct_keys(tallies[k].value.words@)
                &&& forall|j: int|
                    0 <= j < tallies[k].value.words.len() ==> (#[trigger] tallies[k].value.words[j]).value
                        < tallies[k].value.total + vocabulary_size
            },
    ensures
        built is None <==> exists|k: int|
            0 <= k < tallies.len() && (#[trigger] tallies[k]).value.total + vocabulary_size
                > u64::MAX,
        built matches Some(model) ==> model.wf() && mirrors(
            model,
            tallies@,
            documents,
            vocabulary_size,
        ),
{
    let mut topic_priors: Vec<Entry<Ratio>> = Vec::new();
    let mut word_given_topic: Vec<Entry<Vec<Entry<Ratio>>>> = Vec::new();
    let mut topic_word_counts: Vec<Entry<u64>> = Vec::new();
    let mut k: usize = 0;
    assert(keys(topic_priors@) =~= keys(tallies@.take(0)));
    assert(keys(word_given_topic@) =~= keys(tallies@.take(0)));
    assert(keys(topic_word_counts@) =~= keys(tallies@.take(0)));
    while k < tallies.len()
        invariant
            k <= tallies.len(),
            tallies.len() > 0 ==> documents >= 1,
            forall|l: int|
                0 <= l < tallies.len() ==> {
                    &&& (#[trigger] tallies[l]).value.documents >= 1
                    &&& distinct_keys(tallies[l].value.words@)
                    &&& forall|j: int|
                        0 <= j < tallies[l].value.words.len() ==> (
                        #[trigger] tallies[l].value.words[j]).value < tallies[l].value.total
                            + vocabulary_size
                },
            topic_priors.len() == k,
            word_given_topic.len() == k,
            topic_word_counts.len() == k,
            keys(topic_priors@) == keys(tallies@.take(k as int)),
            keys(word_given_topic@) == keys(tallies@.take(k as int)),
            keys(topic_word_counts@) == keys(tallies@.take(k as int)),
            forall|l: int|
                0 <= l < k ==> {
                    &&& (#[trigger] tallies[l]).value.total + vocabulary_size <= u64::MAX
                    &&& topic_priors[l].value == Ratio {
                        num: tallies[l].value.documents,
                        den: documents,
                    }
                    &&& topic_word_counts[l].value == tallies[l].value.total
                    &&& smoothed_table(
                        word_given_topic[l].value@,
                        tallies[l].value.words@,
                        tallies[l].value.total,
                        vocabulary_size,
                    )
                },
        decreases tallies.len() - k,
    {
        let tally = &tallies[k];
        if tally.value.total > u64::MAX - vocabulary_size {
            return None;
        }
        let table = smooth(&tally.value.words, tally.value.total, vocabulary_size);
        let prior = Entry {
            key: tally.key.clone(),
            value: Ratio { num: tally.value.documents, den: documents },
        };
        let likelihoods = Entry { key: tally.key.clone(), value: table };
        let count = Entry { key: tally.key.clone(), value: tally.value.total };
        proof {
            lemma_keys_push(topic_priors@, prior);
            lemma_keys_push(word_given_topic@, likelihoods);
            lemma_keys_push(topic_word_counts@, count);
            lemma_keys_push(tallies@.take(k as int), tallies[k as int]);
            assert(tallies@.take(k + 1) == tallies@.take(k as int).push(tallies[k as int]));
        }
        topic_priors.push(prior);
        word_given_topic.push(likelihoods);
        topic_word_counts.push(count);
        k = k + 1;
    }
    assert(tallies@.take(tallies.len() as int) == tallies@);
    let model = NaiveBayesModel {
        topic_priors,
        word_given_topic,
        vocabulary_size,
        topic_word_counts,
    };
    proof {
        assert forall|i: int| 0 <= i < model.word_given_topic.len() implies distinct_keys(
            (#[trigger] model.word_given_topic[i]).value@,
        ) by {
            assert(smoothed_table(
                model.word_given_topic[i].value@,
                tallies[i].value.words@,
                tallies[i].value.total,
                vocabulary_size,
            ));
        }
        assert forall|i: int| 0 <= i < model.topic_priors.len() implies {
            &&& keys(model.word_given_topic@).contains((#[trigger] model.topic_priors[i]).key@)
            &&& keys(model.topic_word_counts@).contains(model.topic_priors[i].key@)
        } by {
            assert(keys(model.topic_priors@)[i] == model.topic_priors[i].key@);
            assert(keys(model.word_given_topic@)[i] == keys(tallies@)[i]);
            assert(keys(model.topic_word_counts@)[i] == keys(tallies@)[i]);
        }
        assert forall|i: int, j: int|
            0 <= i < model.word_given_topic.len() && 0 <= j
                < model.word_given_topic[i].value.len() implies (
        #[trigger] model.word_given_topic[i].value[j]).value.is_probability() by {
            let table = model.word_given_topic[i].value@;
            let words = tallies[i].value.words@;
            assert(smoothed_table(table, words, tallies[i].value.total, vocabulary_size));
            assert(keys(table).len() == keys(words).len());
            assert(table[j].value.num == words[j].value + 1);
        }
        assert forall|i: int| 0 <= i < model.topic_priors.len() implies (
        #[trigger] model.topic_priors[i]).value.is_positive() by {
            assert(tallies[i].value.documents >= 1);
        }
        assert forall|i: int| 0 <= i < model.topic_word_counts.len() implies (
        #[trigger] model.topic_word_counts[i]).value + model.vocabulary_size <= u64::MAX by {
            assert(tallies[i].value.total + vocabulary_size <= u64::MAX);
        }
    }
    Some(model)
}

/// A further document of which no label counts yet adds nothing.
proof fn lemma_partial_start(
    tallies: Seq<Entry<TopicCounts>>,
    seen: Seq<TokenizedView>,
    words: Seq<Seq<char>>,
    vocabulary: Set<Seq<char>>,
)
    requires
        tallies_match(tallies, seen, vocabulary),
    ensures
        tallies_match(tallies, partial(seen, words, Seq::empty()), vocabulary),
{
    let d = TokenizedView { tokens: words, topics: Seq::empty() };
    let after = partial(seen, words, Seq::empty());
    lemma_counts_push(seen, d, vocabulary, seq![], seq![]);
    assert(all_labels(seen) + Seq::<Seq<char>>::empty() == all_labels(seen));
    assert forall|k: int| 0 <= k < tallies.len() implies tally_matches(
        #[trigger] tallies[k],
        after,
        vocabulary,
    ) by {
        let u = tallies[k].key@;
        let n = occurrences(d.topics, u);
        let t = counted_tokens(d, vocabulary).len();
        assert(tally_matches(tallies[k], seen, vocabulary));
        lemma_counts_push(seen, d, vocabulary, u, u);
        assert(n * t == 0) by (nonlinear_arith)
            requires
                n == 0,
        ;
        assert forall|w: Seq<char>|
            count_in(tallies[k].value.words@, w) == #[trigger] word_count(
                after,
                vocabulary,
                u,
                w,
            ) by {
            let c = occurrences(counted_tokens(d, vocabulary), w);
            lemma_counts_push(seen, d, vocabulary, u, w);
            assert(n * c == 0) by (nonlinear_arith)
                requires
                    n == 0,
            ;
            assert(count_in(tallies[k].value.words@, w) == word_count(seen, vocabulary, u, w));
        }
    }
}

/// The counts of the documents up to some label of one of them do not exceed
/// the counts of all documents.
proof fn lemma_partial_bounded(
    docs: Seq<TokenizedView>,
    i: int,
    j: int,
    vocabulary: Set<Seq<char>>,
    topic: Seq<char>,
)
    requires
        0 <= i < docs.len(),
        0 <= j <= docs[i].topics.len(),
    ensures
        document_count(partial(docs.take(i), docs[i].tokens, docs[i].topics.take(j)), topic)
            <= document_count(docs, topic),
        topic_word_total(
            partial(docs.take(i), docs[i].tokens, docs[i].topics.take(j)),
            vocabulary,
            topic,
        ) <= topic_word_total(docs, vocabulary, topic),
{
    let labels = docs[i].topics;
    let d = TokenizedView { tokens: docs[i].tokens, topics: labels.take(j) };
    lemma_counts_push(docs.take(i), d, vocabulary, topic, topic);
    lemma_counts_push(docs.take(i), docs[i], vocabulary, topic, topic);
    assert(docs.take(i + 1) == docs.take(i).push(docs[i]));
    lemma_counts_grow(docs, i + 1, vocabulary, topic);
    assert(labels == labels.take(j) + labels.skip(j));
    lemma_occurrences_add(labels.take(j), labels.skip(j), topic);
    let a = occurrences(labels.take(j), topic);
    let b = occurrences(labels, topic);
    let t = counted_tokens(docs[i], vocabulary).len();
    assert(counted_tokens(d, vocabulary) == counted_tokens(docs[i], vocabulary));
    assert(a * t <= b * t) by (nonlinear_arith)
        requires
            a <= b,
    ;
}

/// A model that repeats tallies which hold the counts of the documents is
/// the model trained on the documents.
proof fn lemma_mirror_is_trained(
    model: NaiveBayesModel,
    tallies: Seq<Entry<TopicCounts>>,
    docs: Seq<TokenizedView>,
    vocabulary: Set<Seq<char>>,
)
    requires
        tallies_match(tallies, docs, vocabulary),
        docs.len() <= u64::MAX,
        vocabulary.len() <= u64::MAX,
        mirrors(model, tallies, docs.len() as u64, vocabulary.len() as u64),
    ensures
        is_trained_on(model@, docs, vocabulary),
{
    let m = model@;
    let names = keys(tallies);
    let labels = all_labels(docs);
    lemma_first_seen(labels);
    assert forall|t: Seq<char>| names.contains(t) <==> document_count(docs, t) > 0 by {
        lemma_occurrences_positive(labels, t);
        lemma_document_count_is_label_count(docs, t);
    }
    assert forall|t: Seq<char>| #[trigger]
        m.topic_priors.contains_key(t) implies {
        &&& m.topic_priors[t].num == document_count(docs, t)
        &&& m.topic_priors[t].den == docs.len()
    } by {
        let k = names.index_of(t);
        assert(names[k] == tallies[k].key@);
        assert(keys(model.topic_priors@)[k] == model.topic_priors[k].key@);
        lemma_as_map_at(model.topic_priors@, k);
        assert(tally_matches(tallies[k], docs, vocabulary));
    }
    assert forall|t: Seq<char>| #[trigger]
        m.topic_word_counts.contains_key(t) implies m.topic_word_counts[t] == topic_word_total(
        docs,
        vocabulary,
        t,
    ) by {
        let k = names.index_of(t);
        assert(names[k] == tallies[k].key@);
        assert(keys(model.topic_word_counts@)[k] == model.topic_word_counts[k].key@);
        lemma_as_map_at(model.topic_word_counts@, k);
        assert(tally_matches(tallies[k], docs, vocabulary));
    }
    assert forall|t: Seq<char>, w: Seq<char>|
        #![trigger m.word_given_topic[t].contains_key(w)]
        #![trigger word_count(docs, vocabulary, t, w)]
        m.word_given_topic.contains_key(t) implies {
        &&& m.word_given_topic[t].contains_key(w) <==> word_count(docs, vocabulary, t, w) > 0
        &&& m.word_given_topic[t].contains_key(w) ==> {
            &&& m.word_given_topic[t][w].num == smoothed_numerator(
                word_count(docs, vocabulary, t, w),
            )
            &&& m.word_given_topic[t][w].den == smoothed_denominator(
                topic_word_total(docs, vocabulary, t),
                vocabulary.len(),
            )
        }
    } by {
        let k = names.index_of(t);
        assert(names[k] == tallies[k].key@);
        assert(keys(model.word_given_topic@)[k] == model.word_given_topic[k].key@);
        lemma_as_map_at(model.word_given_topic@, k);
        assert(tally_matches(tallies[k], docs, vocabulary));
        let table = model.word_given_topic[k].value@;
        let words = tallies[k].value.words@;
        assert(m.word_given_topic[t] == as_map(table));
        assert(smoothed_table(table, words, tallies[k].value.total, vocabulary.len() as u64));
        assert(table.len() == keys(table).len() && words.len() == keys(words).len());
        assert(count_in(words, w) == word_count(docs, vocabulary, t, w));
        if keys(words).contains(w) {
            let j = keys(words).index_of(w);
            assert(keys(words)[j] == words[j].key@);
            assert(keys(table)[j] == table[j].key@);
            lemma_as_map_at(words, j);
            lemma_as_map_at(table, j);
        }
    }
}

/// Learns a model from documents that are already split into tokens,
/// counting only the tokens that belong to the vocabulary.
///
/// Every document counts, also one without labels or without tokens: the
/// prior of a topic is its number of label occurrences over the number of
/// all documents. There is no model when a count, or a denominator of
/// smoothing, does not fit a 64-bit integer.
pub fn train_on_tokens(documents: &Vec<TokenizedDocument>, vocabulary: &StringHashSet) -> (result:
    Result<NaiveBayesModel, ClassifierError>)
    requires
        vocabulary@.finite(),
    ensures
        match result {
            Ok(model) => {
                &&& fits(tokenized_views(documents@), vocabulary@)
                &&& model.wf()
                &&& is_trained_on(model@, tokenized_views(documents@), vocabulary@)
            },
            Err(e) => e == ClassifierError::CapacityExceeded && !fits(
                tokenized_views(documents@),
                vocabulary@,
            ),
        },
{
    let ghost docs = tokenized_views(documents@);
    let ghost vocab = vocabulary@;
    let mut tallies: Vec<Entry<TopicCounts>> = Vec::new();
    let mut i: usize = 0;
    assert(keys(tallies@) =~= first_seen(all_labels(docs.take(0))));
    while i < documents.len()
        invariant
            i <= documents.len(),
            docs == tokenized_views(documents@),
            vocab == vocabulary@,
            vocab.finite(),
            tallies_match(tallies@, docs.take(i as int), vocab),
        decreases documents.len() - i,
    {
        let doc = &documents[i];
        let tokens = &doc.tokens;
        let ghost labels = texts(doc.topics@);
        let ghost seen = docs.take(i as int);
        proof {
            assert(docs[i as int] == doc@);
            lemma_partial_start(tallies@, seen, doc@.tokens, vocab);
            assert(labels.take(0) == Seq::<Seq<char>>::empty());
        }
        let mut j: usize = 0;
        while j < doc.topics.len()
            invariant
                j <= doc.topics.len(),
                i < documents.len(),
                docs == tokenized_views(documents@),
                vocab == vocabulary@,
            vocab.finite(),
                seen == docs.take(i as int),
                docs[i as int] == doc@,
                labels == texts(doc.topics@),
                texts(tokens@) == doc@.tokens,
                tallies_match(tallies@, partial(seen, doc@.tokens, labels.take(j as int)), vocab),
            decreases doc.topics.len() - j,
        {
            let topic = &doc.topics[j];
            proof {
                assert(labels[j as int] == topic@);
                assert(labels.take(j + 1) == labels.take(j as int).push(topic@));
            }
            let ok = credit(
                &mut tallies,
                topic,
                tokens,
                vocabulary,
                Ghost(seen),
                Ghost(doc@.tokens),
                Ghost(labels.take(j as int)),
            );
            if !ok {
                proof {
                    lemma_partial_bounded(docs, i as int, j + 1, vocab, topic@);
                    assert(!(document_count(docs, topic@) <= u64::MAX && topic_word_total(
                        docs,
                        vocab,
                        topic@,
                    ) + vocab.len() <= u64::MAX));
                }
                return Err(ClassifierError::CapacityExceeded);
            }
            j = j + 1;
        }
        proof {
            assert(labels.take(doc.topics.len() as int) == labels);
            assert(docs.take(i + 1) == seen.push(docs[i as int]));
        }
        i = i + 1;
    }
    assert(docs.take(documents.len() as int) == docs);
    let documents = documents.len() as u64;
    let vocabulary_size = vocabulary.len() as u64;
    proof {
        lemma_first_seen(all_labels(docs));
        assert forall|k: int| 0 <= k < tallies.len() implies {
            &&& (#[trigger] tallies[k]).value.documents >= 1
            &&& distinct_keys(tallies[k].value.words@)
            &&& forall|j: int|
                0 <= j < tallies[k].value.words.len() ==> (#[trigger] tallies[k].value.words[j]).value
                    < tallies[k].value.total + vocabulary_size
        } by {
            let t = tallies[k].key@;
            assert(tally_matches(tallies[k], docs, vocab));
            assert(keys(tallies@)[k] == t);
            lemma_occurrences_positive(all_labels(docs), t);
            lemma_document_count_is_label_count(docs, t);
            assert forall|j: int| 0 <= j < tallies[k].value.words.len() implies (
            #[trigger] tallies[k].value.words[j]).value < tallies[k].value.total
                + vocabulary_size by {
                let words = tallies[k].value.words@;
                let w = words[j].key@;
                lemma_as_map_at(words, j);
                assert(count_in(words, w) == word_count(docs, vocab, t, w));
                lemma_word_count_at_most_total(docs, vocab, t, w);
                lemma_counted_word_in_vocabulary(docs, vocab, t, w);
                assert(vocab.len() >= 1) by {
                    if vocab.len() == 0 {
                        assert(vocab =~= Set::empty());
                    }
                }
            }
        }
        if tallies.len() > 0 {
            let t = tallies[0].key@;
            assert(keys(tallies@)[0] == t);
            assert(all_labels(docs).contains(t));
            if docs.len() == 0 {
                assert(all_labels(docs) =~= Seq::empty());
            }
        }
    }
    match build_model(&tallies, documents, vocabulary_size) {
        Some(model) => {
            proof {
                lemma_mirror_is_trained(model, tallies@, docs, vocab);
                assert forall|topic: Seq<char>|
                    {
                        &&& #[trigger] document_count(docs, topic) <= u64::MAX
                        &&& topic_word_total(docs, vocab, topic) + vocab.len() <= u64::MAX
                    } by {
                    lemma_occurrences_positive(all_labels(docs), topic);
                    lemma_document_count_is_label_count(docs, topic);
                    if keys(tallies@).contains(topic) {
                        let k = keys(tallies@).index_of(topic);
                        assert(keys(tallies@)[k] == tallies[k].key@);
                        assert(tally_matches(tallies[k], docs, vocab));
                    } else {
                        lemma_counts_need_label(docs, vocab, topic, topic);
                    }
                }
            }
            Ok(model)
        },
        None => {
            proof {
                let k = choose|k: int|
                    0 <= k < tallies.len() && (#[trigger] tallies[k]).value.total
                        + vocabulary_size > u64::MAX;
                let t = tallies[k].key@;
                assert(tally_matches(tallies[k], docs, vocab));
                assert(!(document_count(docs, t) <= u64::MAX && topic_word_total(docs, vocab, t)
                    + vocab.len() <= u64::MAX));
            }
            Err(ClassifierError::CapacityExceeded)
        },
    }
}

/// A copy of the strings.
fn copy_texts(list: &Vec<String>) -> (copy: Vec<String>)
    ensures
        texts(copy@) == texts(list@),
{
    let mut copy: Vec<String> = Vec::new();
    let mut i: usize = 0;
    while i < list.len()
        invariant
            i <= list.len(),
            copy.len() == i,
            forall|l: int| 0 <= l < i ==> (#[trigger] copy[l])@ == list[l]@,
        decreases list.len() - i,
    {
        copy.push(list[i].clone());
        i = i + 1;
    }
    assert(texts(copy@) =~= texts(list@));
    copy
}

/// Learns a model from the documents, counting only the words of the
/// vocabulary: splits each text into tokens and trains on the tokens.
pub fn train_naive_bayes(data: &TrainingData) -> (result: Result<NaiveBayesModel, ClassifierError>)
    requires
        data.wf(),
    ensures
        match result {
            Ok(model) => {
                &&& fits(tokenized_all(data@.documents), data@.vocabulary)
                &&& model.wf()
                &&& is_trained_on(model@, tokenized_all(data@.documents), data@.vocabulary)
            },
            Err(e) => e == ClassifierError::CapacityExceeded && !fits(
                tokenized_all(data@.documents),
                data@.vocabulary,
            ),
        },
{
    let ghost docs = tokenized_all(data@.documents);
    let mut tokenized: Vec<TokenizedDocument> = Vec::new();
    let mut i: usize = 0;
    while i < data.documents.len()
        invariant
            i <= data.documents.len(),
            docs == tokenized_all(data@.documents),
            tokenized.len() == i,
            forall|l: int| 0 <= l < i ==> (#[trigger] tokenized[l])@ == docs[l],
        decreases data.documents.len() - i,
    {
        let doc = &data.documents[i];
        assert(docs[i as int] == crate::corpus::tokenized(doc@));
        let tokens = tokenize(doc.content.as_str());
        let topics = copy_texts(&doc.topics);
        tokenized.push(TokenizedDocument { tokens, topics });
        i = i + 1;
    }
    assert(tokenized_views(tokenized@) =~= docs);
    train_on_tokens(&tokenized, &data.vocabulary)
}

/// The documents that the usable records hold, in order.
fn collect_documents(records: Vec<Record>) -> (documents: Vec<Document>)
    ensures
        document_views(documents@) == usable_documents(record_views(records@)),
{
    let ghost all = record_views(records@);
    let ghost given = records@;
    let mut documents: Vec<Document> = Vec::new();
    assert(document_views(documents@) =~= usable_documents(all.take(0)));
    for record in it: records
        invariant
            it.seq() == given,
            all == record_views(given),
            document_views(documents@) == usable_documents(all.take(it.index())),
    {
        proof {
            assert(all[it.index()] == record@);
            assert(all.take(it.index() + 1).drop_last() == all.take(it.index()));
        }
        match (record.content, record.topics) {
            (Some(content), Some(topics)) => {
                if !content.as_str().is_empty() && topics.len() > 0 {
                    let document = Document { content, topics };
                    proof {
                        assert(document_views(documents@.push(document)) =~= document_views(
                            documents@,
                        ).push(document@));
                    }
                    documents.push(document);
                }
            },
            _ => {},
        }
    }
    assert(all.take(all.len() as int) == all);
    documents
}

/// The result of training as a value.
pub open spec fn training_view(result: Result<NaiveBayesModel, ClassifierError>) -> Result<
    ModelView,
    ClassifierError,
> {
    match result {
        Ok(model) => Ok(model@),
        Err(e) => Err(e),
    }
}

/// `result` is what training on the records comes to.
///
/// Training works on the documents of the usable records, with every token
/// of their texts as the vocabulary. It fails with `InvalidInput` exactly
/// when there is no such document, and with `CapacityExceeded` exactly when
/// there is one and a count does not fit a 64-bit integer. In every other
/// case it gives the model of those documents.
pub open spec fn is_training_of(
    records: Seq<RecordView>,
    result: Result<ModelView, ClassifierError>,
) -> bool {
    let docs = tokenized_all(usable_documents(records));
    let vocabulary = vocabulary_of(docs);
    match result {
        Ok(model) => {
            &&& docs.len() > 0
            &&& fits(docs, vocabulary)
            &&& is_trained_on(model, docs, vocabulary)
        },
        Err(e) => match e {
            ClassifierError::InvalidInput => docs.len() == 0,
            ClassifierError::CapacityExceeded => docs.len() > 0 && !fits(docs, vocabulary),
            ClassifierError::ModelDecodeError => false,
        },
    }
}

/// Learns a model from training records.
///
/// A record without a text, with an empty text, without topics or with an
/// empty topic list is passed over. Training fails with `InvalidInput` when
/// no record is left, and with `CapacityExceeded` when a count of the
/// remaining documents does not fit a 64-bit integer. Otherwise the result is
/// the model of the remaining documents, with every token of their texts as
/// the vocabulary.
pub fn train(records: Vec<Record>) -> (result: Result<NaiveBayesModel, ClassifierError>)
    ensures
        is_training_of(record_views(records@), training_view(result)),
        result matches Ok(model) ==> model.wf(),
{
    let documents = collect_documents(records);
    if documents.len() == 0 {
        return Err(ClassifierError::InvalidInput);
    }
    let data = TrainingData::from_documents(documents);
    train_naive_bayes(&data)
}

} // verus!
