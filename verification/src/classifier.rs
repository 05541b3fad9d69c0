//! Collecting, for a text, what a model holds for and against each topic.
//!
//! The probability that a Naive Bayes model gives a topic for a text is, up
//! to a factor common to all topics, the prior of the topic times one
//! likelihood for each token of the text. The functions here return those
//! factors exactly, as fractions. Their logarithms can be summed and the sums
//! normalised by whoever has a use for an approximate number.

use vstd::prelude::*;
use vstd::hash_map::StringHashMap;
use crate::error::ClassifierError;
use crate::model::{ModelView, NaiveBayesModel};
use crate::ratio::Ratio;
use crate::table::{
    as_map, distinct_keys, find, keys, lemma_as_map_at, lemma_as_map_empty, lemma_as_map_push,
    Entry,
};
use crate::tokenizer::{texts, tokenize, tokens_of};

verus! {

/// The factors of one topic's probability for a text.
#[derive(Clone, Debug, PartialEq, Eq)]
pub struct TopicEvidence {
    pub topic: String,
    /// The prior of the topic.
    pub prior: Ratio,
    /// The likelihood of each token of the text under the topic, in the
    /// order of the tokens.
    pub likelihoods: Vec<Ratio>,
}

/// The evidence for one topic as values.
pub struct EvidenceView {
    pub topic: Seq<char>,
    pub prior: Ratio,
    pub likelihoods: Seq<Ratio>,
}

impl View for TopicEvidence {
    type V = EvidenceView;

    open spec fn view(&self) -> EvidenceView {
        EvidenceView { topic: self.topic@, prior: self.prior, likelihoods: self.likelihoods@ }
    }
}

/// What a sequence of evidence says.
pub open spec fn evidence_views(evidence: Seq<TopicEvidence>) -> Seq<EvidenceView> {
    evidence.map_values(|e: TopicEvidence| e@)
}

/// The likelihood that smoothing leaves for a word that was never counted
/// under the topic: one over the topic's word count plus the size of the
/// vocabulary.
pub open spec fn floor_likelihood(model: ModelView, topic: Seq<char>) -> Ratio {
    Ratio { num: 1, den: (model.topic_word_counts[topic] + model.vocabulary_size) as u64 }
}

/// The likelihood of a word under a topic: the one in the topic's table, or
/// the floor for a word that the table lacks.
pub open spec fn likelihood(model: ModelView, topic: Seq<char>, word: Seq<char>) -> Ratio {
    if model.word_given_topic[topic].contains_key(word) {
        model.word_given_topic[topic][word]
    } else {
        floor_likelihood(model, topic)
    }
}

/// The likelihoods of the tokens under a topic, in the order of the tokens.
pub open spec fn likelihoods(model: ModelView, topic: Seq<char>, tokens: Seq<Seq<char>>) -> Seq<
    Ratio,
> {
    tokens.map_values(|w: Seq<char>| likelihood(model, topic, w))
}

/// The evidence for one topic: its prior and the likelihood of each token.
pub open spec fn evidence_for(model: ModelView, topic: Seq<char>, tokens: Seq<Seq<char>>) -> EvidenceView {
    EvidenceView {
        topic,
        prior: model.topic_priors[topic],
        likelihoods: likelihoods(model, topic, tokens),
    }
}

/// The evidence for every topic of the model, in the order of the model's
/// topics.
pub open spec fn evidence(model: ModelView, tokens: Seq<Seq<char>>) -> Seq<EvidenceView> {
    model.topics.map_values(|t: Seq<char>| evidence_for(model, t, tokens))
}

/// A hash index of a word table.
fn index_of(table: &Vec<Entry<Ratio>>) -> (index: StringHashMap<Ratio>)
    requires
        distinct_keys(table@),
    ensures
        index@ == as_map(table@),
{
    let mut index: StringHashMap<Ratio> = StringHashMap::new();
    let mut j: usize = 0;
    proof {
        lemma_as_map_empty::<Ratio>();
        assert(table@.take(0) =~= Seq::empty());
    }
    while j < table.len()
        invariant
            j <= table.len(),
            distinct_keys(table@),
            distinct_keys(table@.take(j as int)),
            index@ == as_map(table@.take(j as int)),
        decreases table.len() - j,
    {
        proof {
            let before = table@.take(j as int);
            assert(table@.take(j + 1) == before.push(table[j as int]));
            assert(!keys(before).contains(table[j as int].key@)) by {
                if keys(before).contains(table[j as int].key@) {
                    let l = choose|l: int|
                        0 <= l < keys(before).len() && keys(before)[l] == table[j as int].key@;
                    assert(keys(table@)[l] == before[l].key@);
                    assert(keys(table@)[j as int] == table[j as int].key@);
                }
            }
            lemma_as_map_push(before, table[j as int]);
        }
        index.insert(table[j].key.clone(), table[j].value);
        j = j + 1;
    }
    assert(table@.take(table.len() as int) == table@);
    index
}

/// Collects the evidence that a model holds for a sequence of tokens, one
/// entry for each topic of the model.
pub fn gather_evidence(model: &NaiveBayesModel, tokens: &Vec<String>) -> (found: Vec<TopicEvidence>)
    requires
        model.wf(),
    ensures
        evidence_views(found@) == evidence(model@, texts(tokens@)),
{
    let ghost m = model@;
    let ghost words = texts(tokens@);
    let mut found: Vec<TopicEvidence> = Vec::new();
    let mut k: usize = 0;
    while k < model.topic_priors.len()
        invariant
            k <= model.topic_priors.len(),
            model.wf(),
            m == model@,
            words == texts(tokens@),
            found.len() == k,
            forall|l: int| 0 <= l < k ==> (#[trigger] found[l])@ == evidence_for(m, m.topics[l], words),
        decreases model.topic_priors.len() - k,
    {
        let entry = &model.topic_priors[k];
        let ghost topic = entry.key@;
        assert(m.topics[k as int] == topic);
        let at_words = find(&model.word_given_topic, &entry.key);
        let at_count = find(&model.topic_word_counts, &entry.key);
        assert(at_words is Some && at_count is Some);
        let table = &model.word_given_topic[at_words.unwrap()].value;
        let count = model.topic_word_counts[at_count.unwrap()].value;
        proof {
            lemma_as_map_at(model.topic_priors@, k as int);
            lemma_as_map_at(model.word_given_topic@, at_words.unwrap() as int);
            lemma_as_map_at(model.topic_word_counts@, at_count.unwrap() as int);
            assert(m.word_given_topic[topic] == as_map(table@));
            assert(m.topic_word_counts[topic] == count);
        }
        let floor = Ratio { num: 1, den: count + model.vocabulary_size };
        let index = index_of(table);
        let mut values: Vec<Ratio> = Vec::new();
        let mut j: usize = 0;
        while j < tokens.len()
            invariant
                j <= tokens.len(),
                words == texts(tokens@),
                index@ == m.word_given_topic[topic],
                floor == floor_likelihood(m, topic),
                values.len() == j,
                forall|l: int| 0 <= l < j ==> #[trigger] values[l] == likelihood(m, topic, words[l]),
            decreases tokens.len() - j,
        {
            assert(words[j as int] == tokens[j as int]@);
            let value = match index.get(tokens[j].as_str()) {
                Some(p) => *p,
                None => floor,
            };
            values.push(value);
            j = j + 1;
        }
        assert(values@ =~= likelihoods(m, topic, words));
        found.push(TopicEvidence { topic: entry.key.clone(), prior: entry.value, likelihoods: values });
        k = k + 1;
    }
    assert(evidence_views(found@) =~= evidence(m, words));
    found
}

/// Collects the evidence that a well-formed model holds for a text: for each
/// topic of the model, in the model's order, the prior of the topic and the
/// likelihood of each token of the text.
pub fn classify_naive_bayes(model: &NaiveBayesModel, document: &str) -> (found: Vec<TopicEvidence>)
    requires
        model.wf(),
    ensures
        evidence_views(found@) == evidence(model@, tokens_of(document@)),
{
    let tokens = tokenize(document);
    gather_evidence(model, &tokens)
}

/// Collects the evidence that a model holds for a text, after testing the
/// model: one that is not well formed is refused with `ModelDecodeError`.
pub fn classify(document: &str, model: &NaiveBayesModel) -> (result: Result<
    Vec<TopicEvidence>,
    ClassifierError,
>)
    ensures
        match result {
            Ok(found) => model.wf() && evidence_views(found@) == evidence(
                model@,
                tokens_of(document@),
            ),
            Err(e) => e == ClassifierError::ModelDecodeError && !model.wf(),
        },
{
    if !model.is_well_formed() {
        return Err(ClassifierError::ModelDecodeError);
    }
    Ok(classify_naive_bayes(model, document))
}

} // verus!
