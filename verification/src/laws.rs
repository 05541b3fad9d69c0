//! What holds of every training set, every model and every ranking.

use vstd::prelude::*;
use crate::classifier::{evidence, evidence_views, likelihood, EvidenceView, TopicEvidence};
use crate::corpus::{
    all_labels, counted_tokens, document_count, first_seen, in_vocabulary, labels_unrepeated,
    lemma_counted_word_in_vocabulary, lemma_document_count_is_label_count, lemma_first_seen,
    lemma_first_seen_push, lemma_occurrences_add, lemma_occurrences_positive,
    lemma_occurrences_push, lemma_occurrences_unrepeated, lemma_word_count_at_most_total,
    is_usable, occurrences, topic_word_total, usable_documents, usable_records,
    tokenized_all, vocabulary_of, word_count, RecordView, TokenizedView,
};
use crate::model::{ModelView, NaiveBayesModel};
use crate::ranking::{has_score, is_ranking_of, with_score, ScoredView};
use crate::ratio::Ratio;
use crate::table::{as_map, keys, Entry};
use crate::tokenizer::{
    closed_words, fragments, is_token, is_word_char, token_filter, token_seq, tokens_of,
    trailing_word,
};
use crate::error::ClassifierError;
use crate::trainer::{fits, is_trained_on, is_training_of};

verus! {

// ---------------------------------------------------------------------------
// Tokens
// ---------------------------------------------------------------------------

/// The text is made of word characters only.
pub open spec fn is_word(w: Seq<char>) -> bool {
    forall|i: int| 0 <= i < w.len() ==> is_word_char(#[trigger] w[i])
}

/// The word that ends a text is a word.
proof fn lemma_trailing_word_is_word(s: Seq<char>)
    ensures
        is_word(trailing_word(s)),
    decreases s.len(),
{
    if s.len() > 0 && is_word_char(s.last()) {
        lemma_trailing_word_is_word(s.drop_last());
    }
}

/// The pieces that a separator has closed are words.
proof fn lemma_closed_words_are_words(s: Seq<char>, i: int)
    requires
        0 <= i < closed_words(s).len(),
    ensures
        is_word(closed_words(s)[i]),
    decreases s.len(),
{
    if s.len() > 0 {
        if is_word_char(s.last()) {
            lemma_closed_words_are_words(s.drop_last(), i);
        } else if i < closed_words(s.drop_last()).len() {
            lemma_closed_words_are_words(s.drop_last(), i);
        } else {
            lemma_trailing_word_is_word(s.drop_last());
        }
    }
}

/// Every token of a text has more than two characters, and all of them are
/// word characters.
pub proof fn law_tokens_are_long_words(text: Seq<char>, i: int)
    requires
        0 <= i < token_seq(text).len(),
    ensures
        token_seq(text)[i].len() > 2,
        is_word(token_seq(text)[i]),
{
    let pieces = fragments(text);
    let token = token_seq(text)[i];
    pieces.lemma_filter_pred(token_filter(), i);
    assert(is_token(token));
    assert forall|j: int| 0 <= j < pieces.len() implies is_word(#[trigger] pieces[j]) by {
        if j < closed_words(text).len() {
            lemma_closed_words_are_words(text, j);
        } else {
            lemma_trailing_word_is_word(text);
        }
    }
    lemma_filter_keeps_members(pieces, token_filter(), i);
}

/// What the filter leaves comes from the sequence.
proof fn lemma_filter_keeps_members(s: Seq<Seq<char>>, pred: spec_fn(Seq<char>) -> bool, i: int)
    requires
        0 <= i < s.filter(pred).len(),
    ensures
        s.contains(s.filter(pred)[i]),
    decreases s.len(),
{
    reveal(Seq::filter);
    if s.len() > 0 {
        let before = s.drop_last();
        if i < before.filter(pred).len() {
            lemma_filter_keeps_members(before, pred, i);
            let j = choose|j: int| 0 <= j < before.len() && before[j] == before.filter(pred)[i];
            assert(s[j] == before[j]);
        } else {
            assert(s[s.len() - 1] == s.last());
        }
    }
}

// ---------------------------------------------------------------------------
// Training
// ---------------------------------------------------------------------------

/// No document is left of the records exactly when none of them is usable:
/// when each lacks a text, has an empty text, lacks topics or has an empty
/// topic list. Then, and only then, training fails with `InvalidInput`.
pub proof fn law_no_document_without_usable_record(records: Seq<RecordView>)
    ensures
        usable_documents(records).len() == 0 <==> forall|i: int|
            0 <= i < records.len() ==> !is_usable(#[trigger] records[i]),
    decreases records.len(),
{
    if records.len() > 0 {
        let before = records.drop_last();
        law_no_document_without_usable_record(before);
        if usable_documents(records).len() == 0 {
            assert forall|i: int| 0 <= i < records.len() implies !is_usable(
                #[trigger] records[i],
            ) by {
                if i < before.len() {
                    assert(before[i] == records[i]);
                }
            }
        } else if !is_usable(records.last()) {
            let i = choose|i: int| 0 <= i < before.len() && is_usable(#[trigger] before[i]);
            assert(records[i] == before[i]);
        }
    }
}

/// The usable records hold the documents that all records hold.
pub proof fn law_usable_records_hold_every_document(records: Seq<RecordView>)
    ensures
        usable_documents(usable_records(records)) == usable_documents(records),
    decreases records.len(),
{
    reveal(Seq::filter);
    if records.len() > 0 {
        let before = records.drop_last();
        law_usable_records_hold_every_document(before);
        if is_usable(records.last()) {
            assert(usable_records(records).drop_last() == usable_records(before));
        }
    }
}

/// Training passes over the records that are not usable: on all records and
/// on the usable ones alone it comes to the same, the same model or the same
/// failure. It succeeds exactly where a record is usable and the counts fit.
pub proof fn law_training_passes_over_unusable_records(
    records: Seq<RecordView>,
    on_all: Result<ModelView, ClassifierError>,
    on_usable: Result<ModelView, ClassifierError>,
)
    requires
        is_training_of(records, on_all),
        is_training_of(usable_records(records), on_usable),
    ensures
        on_all == on_usable,
        on_all is Ok <==> usable_documents(records).len() > 0 && fits(
            tokenized_all(usable_documents(records)),
            vocabulary_of(tokenized_all(usable_documents(records))),
        ),
{
    law_usable_records_hold_every_document(records);
    let docs = tokenized_all(usable_documents(records));
    if on_all is Ok && on_usable is Ok {
        law_training_is_determined(on_all->Ok_0, on_usable->Ok_0, docs, vocabulary_of(docs));
    }
}

/// The sum of the numerators that `priors` gives the topics.
pub open spec fn numerator_sum(topics: Seq<Seq<char>>, priors: Map<Seq<char>, Ratio>) -> nat
    decreases topics.len(),
{
    if topics.len() == 0 {
        0
    } else {
        numerator_sum(topics.drop_last(), priors) + priors[topics.last()].num as nat
    }
}

/// The number of pairs of a document and a topic that it carries: each
/// document adds the number of its distinct labels.
pub open spec fn association_count(docs: Seq<TokenizedView>) -> nat
    decreases docs.len(),
{
    if docs.len() == 0 {
        0
    } else {
        association_count(docs.drop_last()) + docs.last().topics.to_set().len()
    }
}

/// The occurrences in `items` of each member of `members`, summed.
spec fn occurrence_sum(members: Seq<Seq<char>>, items: Seq<Seq<char>>) -> nat
    decreases members.len(),
{
    if members.len() == 0 {
        0
    } else {
        occurrence_sum(members.drop_last(), items) + occurrences(items, members.last())
    }
}

/// A further item adds to the sum as often as it is a member.
proof fn lemma_occurrence_sum_push(members: Seq<Seq<char>>, items: Seq<Seq<char>>, x: Seq<char>)
    ensures
        occurrence_sum(members, items.push(x)) == occurrence_sum(members, items) + occurrences(
            members,
            x,
        ),
    decreases members.len(),
{
    if members.len() > 0 {
        lemma_occurrence_sum_push(members.drop_last(), items, x);
        lemma_occurrences_push(items, x, members.last());
    }
}

/// Every item is counted once by the sum over the distinct items.
proof fn lemma_occurrence_sum_first_seen(items: Seq<Seq<char>>)
    ensures
        occurrence_sum(first_seen(items), items) == items.len(),
    decreases items.len(),
{
    if items.len() > 0 {
        let before = items.drop_last();
        let x = items.last();
        let members = first_seen(before);
        assert(items == before.push(x));
        lemma_occurrence_sum_first_seen(before);
        lemma_first_seen(before);
        lemma_first_seen_push(before, x);
        lemma_occurrence_sum_push(members, before, x);
        lemma_occurrences_positive(members, x);
        lemma_occurrences_unrepeated(members, x);
        if !members.contains(x) {
            assert(members.push(x).drop_last() == members);
            lemma_occurrences_positive(before, x);
            lemma_occurrences_push(before, x, x);
        }
    }
}

/// Where no document names a topic twice, there are as many labels as
/// pairs of a document and a topic.
proof fn lemma_all_labels_len(docs: Seq<TokenizedView>)
    requires
        labels_unrepeated(docs),
    ensures
        all_labels(docs).len() == association_count(docs),
    decreases docs.len(),
{
    if docs.len() > 0 {
        assert(labels_unrepeated(docs.drop_last())) by {
            assert forall|i: int| 0 <= i < docs.drop_last().len() implies (
            #[trigger] docs.drop_last()[i]).topics.no_duplicates() by {
                assert(docs.drop_last()[i] == docs[i]);
            }
        }
        lemma_all_labels_len(docs.drop_last());
        assert(docs.last() == docs[docs.len() - 1]);
        docs.last().topics.unique_seq_to_set();
    }
}

/// Where no document names a topic twice, no topic has more label
/// occurrences than there are documents.
proof fn lemma_document_count_at_most_len(docs: Seq<TokenizedView>, topic: Seq<char>)
    requires
        labels_unrepeated(docs),
    ensures
        document_count(docs, topic) <= docs.len(),
    decreases docs.len(),
{
    if docs.len() > 0 {
        assert(labels_unrepeated(docs.drop_last())) by {
            assert forall|i: int| 0 <= i < docs.drop_last().len() implies (
            #[trigger] docs.drop_last()[i]).topics.no_duplicates() by {
                assert(docs.drop_last()[i] == docs[i]);
            }
        }
        lemma_document_count_at_most_len(docs.drop_last(), topic);
        assert(docs.last() == docs[docs.len() - 1]);
        lemma_occurrences_unrepeated(docs.last().topics, topic);
    }
}

/// The priors of a trained model share the number of documents as their
/// denominator, and their numerators add up to the number of labels that the
/// documents carry, each label counted as often as it is written.
pub proof fn law_prior_numerators_count_labels(
    model: ModelView,
    docs: Seq<TokenizedView>,
    vocabulary: Set<Seq<char>>,
)
    requires
        is_trained_on(model, docs, vocabulary),
    ensures
        numerator_sum(model.topics, model.topic_priors) == all_labels(docs).len(),
        forall|t: Seq<char>| #[trigger]
            model.topic_priors.contains_key(t) ==> {
                &&& model.topic_priors[t].den == docs.len()
                &&& model.topic_priors[t].num > 0
            },
{
    let labels = all_labels(docs);
    let topics = first_seen(labels);
    lemma_first_seen(labels);
    lemma_occurrence_sum_first_seen(labels);
    assert forall|t: Seq<char>| topics.contains(t) implies model.topic_priors.contains_key(t)
        && model.topic_priors[t].num == occurrences(labels, t) by {
        lemma_occurrences_positive(labels, t);
        lemma_document_count_is_label_count(docs, t);
    }
    lemma_numerators_are_occurrences(topics, topics.len() as int, model.topic_priors, labels);
    assert(topics.take(topics.len() as int) == topics);
}

/// Where each numerator is the number of occurrences of its topic, the sums
/// agree.
proof fn lemma_numerators_are_occurrences(
    topics: Seq<Seq<char>>,
    n: int,
    priors: Map<Seq<char>, Ratio>,
    labels: Seq<Seq<char>>,
)
    requires
        0 <= n <= topics.len(),
        forall|t: Seq<char>| topics.contains(t) ==> priors[t].num == occurrences(labels, t),
    ensures
        numerator_sum(topics.take(n), priors) == occurrence_sum(topics.take(n), labels),
    decreases n,
{
    if n > 0 {
        lemma_numerators_are_occurrences(topics, n - 1, priors, labels);
        assert(topics.take(n).drop_last() == topics.take(n - 1));
        assert(topics.take(n).last() == topics[n - 1]);
        assert(topics.contains(topics[n - 1]));
    }
}

/// Where no document names a topic twice, every prior of a trained model
/// lies in (0, 1], and the numerators of the priors add up to the number of
/// pairs of a document and a topic that it carries.
pub proof fn law_priors_are_probabilities(
    model: ModelView,
    docs: Seq<TokenizedView>,
    vocabulary: Set<Seq<char>>,
)
    requires
        is_trained_on(model, docs, vocabulary),
        labels_unrepeated(docs),
    ensures
        numerator_sum(model.topics, model.topic_priors) == association_count(docs),
        forall|t: Seq<char>| #[trigger]
            model.topic_priors.contains_key(t) ==> {
                &&& model.topic_priors[t].den == docs.len()
                &&& model.topic_priors[t].is_probability()
            },
{
    law_prior_numerators_count_labels(model, docs, vocabulary);
    lemma_all_labels_len(docs);
    assert forall|t: Seq<char>| #[trigger] model.topic_priors.contains_key(t) implies {
        &&& model.topic_priors[t].den == docs.len()
        &&& model.topic_priors[t].is_probability()
    } by {
        lemma_document_count_at_most_len(docs, t);
    }
}

/// Where tokens are counted under a topic, the vocabulary is not empty.
proof fn lemma_counted_tokens_need_vocabulary(
    docs: Seq<TokenizedView>,
    vocabulary: Set<Seq<char>>,
    topic: Seq<char>,
)
    requires
        vocabulary.finite(),
        topic_word_total(docs, vocabulary, topic) > 0,
    ensures
        vocabulary.len() >= 1,
    decreases docs.len(),
{
    if docs.len() > 0 {
        let n = occurrences(docs.last().topics, topic);
        let tokens = counted_tokens(docs.last(), vocabulary);
        if tokens.len() > 0 {
            docs.last().tokens.lemma_filter_pred(in_vocabulary(vocabulary), 0);
            assert(vocabulary.contains(tokens[0]));
            if vocabulary.len() == 0 {
                assert(vocabulary =~= Set::empty());
            }
        } else {
            assert(n * tokens.len() == 0) by (nonlinear_arith)
                requires
                    tokens.len() == 0,
            ;
            lemma_counted_tokens_need_vocabulary(docs.drop_last(), vocabulary, topic);
        }
    }
}

/// The likelihood that a trained model gives a word under one of its topics
/// is positive, and it is below one unless the word makes up all that was
/// counted under the topic and the vocabulary has at most one word. With a
/// vocabulary that is not empty it never exceeds one.
pub proof fn law_likelihood_is_proper(
    model: ModelView,
    docs: Seq<TokenizedView>,
    vocabulary: Set<Seq<char>>,
    topic: Seq<char>,
    word: Seq<char>,
)
    requires
        is_trained_on(model, docs, vocabulary),
        fits(docs, vocabulary),
        vocabulary.finite(),
        model.topic_priors.contains_key(topic),
    ensures
        likelihood(model, topic, word).num > 0,
        likelihood(model, topic, word).is_proper() <==> (vocabulary.len() >= 2 || word_count(
            docs,
            vocabulary,
            topic,
            word,
        ) < topic_word_total(docs, vocabulary, topic)),
        vocabulary.len() >= 1 ==> likelihood(model, topic, word).is_probability(),
{
    let count = word_count(docs, vocabulary, topic, word);
    let total = topic_word_total(docs, vocabulary, topic);
    lemma_word_count_at_most_total(docs, vocabulary, topic, word);
    assert(document_count(docs, topic) <= u64::MAX);
    assert(model.word_given_topic.contains_key(topic));
    assert(model.topic_word_counts.contains_key(topic));
    if total > 0 {
        lemma_counted_tokens_need_vocabulary(docs, vocabulary, topic);
    }
    if model.word_given_topic[topic].contains_key(word) {
        lemma_counted_word_in_vocabulary(docs, vocabulary, topic, word);
    }
}

/// The model that is trained on given documents with a given vocabulary is
/// determined by them.
pub proof fn law_training_is_determined(
    first: ModelView,
    second: ModelView,
    docs: Seq<TokenizedView>,
    vocabulary: Set<Seq<char>>,
)
    requires
        is_trained_on(first, docs, vocabulary),
        is_trained_on(second, docs, vocabulary),
    ensures
        first == second,
{
    assert(first.topic_priors =~= second.topic_priors);
    assert(first.topic_word_counts =~= second.topic_word_counts);
    assert forall|t: Seq<char>| #[trigger]
        first.word_given_topic.contains_key(t) implies first.word_given_topic[t]
        == second.word_given_topic[t] by {
        assert forall|w: Seq<char>| #[trigger]
            first.word_given_topic[t].contains_key(w) implies first.word_given_topic[t][w]
            == second.word_given_topic[t][w] by {
            assert(second.word_given_topic[t].contains_key(w));
        }
        assert forall|w: Seq<char>|
            first.word_given_topic[t].contains_key(w) <==> second.word_given_topic[t].contains_key(
                w,
            ) by {
            assert(first.word_given_topic[t].contains_key(w) <==> word_count(
                docs,
                vocabulary,
                t,
                w,
            ) > 0);
            assert(second.word_given_topic[t].contains_key(w) <==> word_count(
                docs,
                vocabulary,
                t,
                w,
            ) > 0);
        }
        assert(first.word_given_topic[t] =~= second.word_given_topic[t]);
    }
    assert(first.word_given_topic =~= second.word_given_topic);
}

// ---------------------------------------------------------------------------
// Classification
// ---------------------------------------------------------------------------

/// The topics of a sequence of evidence, in order.
pub open spec fn evidence_topics(found: Seq<EvidenceView>) -> Seq<Seq<char>> {
    found.map_values(|e: EvidenceView| e.topic)
}

/// The evidence that a well-formed model holds for a text has one entry for
/// each topic of the model, in the model's order, and none for anything else.
pub proof fn law_one_entry_per_topic(model: NaiveBayesModel, tokens: Seq<Seq<char>>)
    requires
        model.wf(),
    ensures
        evidence_topics(evidence(model@, tokens)) == model@.topics,
        forall|t: Seq<char>|
            occurrences(#[trigger] evidence_topics(evidence(model@, tokens)), t) == if model@.topic_priors.contains_key(
                t,
            ) {
                1nat
            } else {
                0nat
            },
{
    let topics = model@.topics;
    assert(evidence_topics(evidence(model@, tokens)) =~= topics);
    assert forall|t: Seq<char>|
        occurrences(topics, t) == if model@.topic_priors.contains_key(t) {
            1nat
        } else {
            0nat
        } by {
        lemma_occurrences_positive(topics, t);
        lemma_occurrences_unrepeated(topics, t);
    }
}

/// Two classifications of one text with one model agree.
pub proof fn law_classification_is_determined(
    model: NaiveBayesModel,
    document: Seq<char>,
    first: Seq<TopicEvidence>,
    second: Seq<TopicEvidence>,
)
    requires
        evidence_views(first) == evidence(model@, tokens_of(document)),
        evidence_views(second) == evidence(model@, tokens_of(document)),
    ensures
        evidence_views(first) == evidence_views(second),
{
}

/// Two lists hold the same keys with the same values, entry by entry.
pub open spec fn same_entries<V>(a: Seq<Entry<V>>, b: Seq<Entry<V>>) -> bool {
    &&& keys(a) == keys(b)
    &&& forall|i: int| 0 <= i < a.len() ==> (#[trigger] a[i]).value == b[i].value
}

/// Two models hold the same texts and numbers, entry by entry.
pub open spec fn same_content(a: NaiveBayesModel, b: NaiveBayesModel) -> bool {
    &&& a.vocabulary_size == b.vocabulary_size
    &&& same_entries(a.topic_priors@, b.topic_priors@)
    &&& same_entries(a.topic_word_counts@, b.topic_word_counts@)
    &&& keys(a.word_given_topic@) == keys(b.word_given_topic@)
    &&& forall|i: int|
        0 <= i < a.word_given_topic.len() ==> same_entries(
            (#[trigger] a.word_given_topic[i]).value@,
            b.word_given_topic[i].value@,
        )
}

/// Lists with the same keys and values stand for the same map.
proof fn lemma_same_entries_same_map<V>(a: Seq<Entry<V>>, b: Seq<Entry<V>>)
    requires
        same_entries(a, b),
    ensures
        as_map(a) == as_map(b),
{
    assert(a.len() == keys(a).len() && b.len() == keys(b).len());
    assert(as_map(a) =~= as_map(b));
}

/// A model that was rebuilt entry by entry from another, as after a passage
/// through a portable form, holds the same evidence for every text.
pub proof fn law_rebuilt_model_classifies_alike(
    a: NaiveBayesModel,
    b: NaiveBayesModel,
    tokens: Seq<Seq<char>>,
)
    requires
        same_content(a, b),
    ensures
        a@ == b@,
        evidence(a@, tokens) == evidence(b@, tokens),
{
    lemma_same_entries_same_map(a.topic_priors@, b.topic_priors@);
    lemma_same_entries_same_map(a.topic_word_counts@, b.topic_word_counts@);
    let wa = a.word_given_topic@;
    let wb = b.word_given_topic@;
    assert(wa.len() == keys(wa).len() && wb.len() == keys(wb).len());
    assert forall|t: Seq<char>| #[trigger]
        a@.word_given_topic.contains_key(t) implies a@.word_given_topic[t]
        == b@.word_given_topic[t] by {
        let i = keys(wa).index_of(t);
        lemma_same_entries_same_map(wa[i].value@, wb[i].value@);
    }
    assert(a@.word_given_topic =~= b@.word_given_topic);
}

// ---------------------------------------------------------------------------
// Ranking
// ---------------------------------------------------------------------------

/// The topics of a sequence of scored topics, in order.
pub open spec fn scored_topics(items: Seq<ScoredView>) -> Seq<Seq<char>> {
    items.map_values(|e: ScoredView| e.topic)
}

/// Sequences with the same items name each topic equally often.
proof fn lemma_same_items_same_topics(x: Seq<ScoredView>, y: Seq<ScoredView>, topic: Seq<char>)
    requires
        x.to_multiset() == y.to_multiset(),
    ensures
        x.len() == y.len(),
        occurrences(scored_topics(x), topic) == occurrences(scored_topics(y), topic),
    decreases x.len(),
{
    broadcast use vstd::seq_lib::group_to_multiset_ensures;

    assert(x.len() == x.to_multiset().len() && y.len() == y.to_multiset().len());
    if x.len() == 0 {
        assert(scored_topics(x) =~= scored_topics(y));
    } else {
        let e = x.last();
        let before = x.drop_last();
        assert(x == before.push(e));
        assert(x.to_multiset().count(e) > 0);
        assert(y.contains(e));
        let j = choose|j: int| 0 <= j < y.len() && y[j] == e;
        let rest = y.remove(j);
        assert(before.to_multiset() =~= x.to_multiset().remove(e));
        assert(rest.to_multiset() =~= y.to_multiset().remove(e));
        lemma_same_items_same_topics(before, rest, topic);
        assert(scored_topics(x) =~= scored_topics(before).push(e.topic));
        lemma_occurrences_push(scored_topics(before), e.topic, topic);
        let head = scored_topics(y.take(j));
        let tail = scored_topics(y.skip(j + 1));
        assert(scored_topics(y) =~= head.push(e.topic) + tail);
        assert(scored_topics(rest) =~= head + tail);
        lemma_occurrences_add(head.push(e.topic), tail, topic);
        lemma_occurrences_add(head, tail, topic);
        lemma_occurrences_push(head, e.topic, topic);
    }
}

/// Ranking neither drops nor repeats a topic: each topic occurs in the
/// ranking as often as among the scored topics.
pub proof fn law_ranking_keeps_topics(
    ranked: Seq<ScoredView>,
    scored: Seq<ScoredView>,
    topic: Seq<char>,
)
    requires
        is_ranking_of(ranked, scored),
    ensures
        ranked.len() == scored.len(),
        occurrences(scored_topics(ranked), topic) == occurrences(scored_topics(scored), topic),
{
    lemma_same_items_same_topics(ranked, scored, topic);
}

/// What is left of a ranking without its last item.
proof fn lemma_ranking_without_last(ranked: Seq<ScoredView>, scored: Seq<ScoredView>)
    requires
        is_ranking_of(ranked, scored),
        ranked.len() > 0,
    ensures
        crate::ranking::descending(ranked.drop_last()),
        ranked.drop_last().to_multiset() == scored.to_multiset().remove(ranked.last()),
        with_score(ranked, ranked.last().score).len() > 0,
        with_score(ranked, ranked.last().score).last() == ranked.last(),
        forall|s: u64| #[trigger]
            with_score(ranked.drop_last(), s) == if s == ranked.last().score {
                with_score(scored, s).drop_last()
            } else {
                with_score(scored, s)
            },
{
    broadcast use vstd::seq_lib::group_to_multiset_ensures;

    let e = ranked.last();
    let before = ranked.drop_last();
    assert(ranked == before.push(e));
    assert(before.to_multiset() =~= ranked.to_multiset().remove(e));
    before.lemma_filter_push(e, has_score(e.score));
    assert forall|s: u64| #[trigger]
        with_score(before, s) == if s == e.score {
            with_score(scored, s).drop_last()
        } else {
            with_score(scored, s)
        } by {
        before.lemma_filter_push(e, has_score(s));
        assert(with_score(ranked, s) == with_score(scored, s));
        if s == e.score {
            assert(with_score(before, s).push(e).drop_last() == with_score(before, s));
        }
    }
}

/// There is one ranking of given scored topics: two sequences that both rank
/// them are equal.
pub proof fn law_ranking_is_unique(
    first: Seq<ScoredView>,
    second: Seq<ScoredView>,
    scored: Seq<ScoredView>,
)
    requires
        is_ranking_of(first, scored),
        is_ranking_of(second, scored),
    ensures
        first == second,
    decreases first.len(),
{
    broadcast use vstd::seq_lib::group_to_multiset_ensures;

    assert(first.len() == first.to_multiset().len() && second.len() == second.to_multiset().len());
    if first.len() == 0 {
        assert(first =~= second);
    } else {
        let a = first.last();
        let b = second.last();
        assert(second.to_multiset().count(a) > 0);
        assert(first.to_multiset().count(b) > 0);
        assert(second.contains(a) && first.contains(b));
        let i = choose|i: int| 0 <= i < second.len() && second[i] == a;
        let j = choose|j: int| 0 <= j < first.len() && first[j] == b;
        assert(a.score == b.score);
        lemma_ranking_without_last(first, scored);
        lemma_ranking_without_last(second, scored);
        assert(with_score(first, a.score) == with_score(second, a.score));
        assert(a == b);
        let rest = first.drop_last();
        assert(is_ranking_of(rest, rest));
        assert(is_ranking_of(second.drop_last(), rest));
        law_ranking_is_unique(rest, second.drop_last(), rest);
        assert(first == rest.push(a));
        assert(second == second.drop_last().push(b));
    }
}

} // verus!
