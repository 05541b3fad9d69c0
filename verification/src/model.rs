//! The trained model: priors, word likelihoods and the counts that smoothing
//! needs, as a plain value.

use vstd::prelude::*;
use vstd::hash_set::StringHashSet;
use crate::ratio::Ratio;
use crate::table::{as_map, distinct_keys, find, keys, lemma_keys_push, Entry};

verus! {

/// A multinomial Naive Bayes model.
///
/// Each list stands for a map from topic (and, one level down, from word) to
/// a value; `topic_priors` also fixes the order in which topics are reported.
#[derive(Clone, Debug, PartialEq, Eq)]
pub struct NaiveBayesModel {
    /// For each topic, the share of training documents that carry it.
    pub topic_priors: Vec<Entry<Ratio>>,
    /// For each topic, the smoothed likelihood of each word seen under it.
    pub word_given_topic: Vec<Entry<Vec<Entry<Ratio>>>>,
    /// The number of distinct words of the training vocabulary.
    pub vocabulary_size: u64,
    /// For each topic, the number of word occurrences counted under it.
    pub topic_word_counts: Vec<Entry<u64>>,
}

/// The model as maps.
pub struct ModelView {
    /// The topics, in the order in which the model reports them.
    pub topics: Seq<Seq<char>>,
    pub topic_priors: Map<Seq<char>, Ratio>,
    pub word_given_topic: Map<Seq<char>, Map<Seq<char>, Ratio>>,
    pub vocabulary_size: nat,
    pub topic_word_counts: Map<Seq<char>, u64>,
}

impl View for NaiveBayesModel {
    type V = ModelView;

    open spec fn view(&self) -> ModelView {
        ModelView {
            topics: keys(self.topic_priors@),
            topic_priors: as_map(self.topic_priors@),
            word_given_topic: as_map(self.word_given_topic@).map_values(
                |words: Vec<Entry<Ratio>>| as_map(words@),
            ),
            vocabulary_size: self.vocabulary_size as nat,
            topic_word_counts: as_map(self.topic_word_counts@),
        }
    }
}

impl NaiveBayesModel {
    /// The lists are maps: no topic occurs twice in a list, no word twice
    /// in a topic's table.
    pub open spec fn keyed(&self) -> bool {
        &&& distinct_keys(self.topic_priors@)
        &&& distinct_keys(self.word_given_topic@)
        &&& distinct_keys(self.topic_word_counts@)
        &&& forall|i: int|
            0 <= i < self.word_given_topic.len() ==> distinct_keys(
                (#[trigger] self.word_given_topic[i]).value@,
            )
    }

    /// Every topic that has a prior has a word table and a word count.
    pub open spec fn complete(&self) -> bool {
        forall|i: int|
            0 <= i < self.topic_priors.len() ==> {
                &&& keys(self.word_given_topic@).contains(
                    (#[trigger] self.topic_priors[i]).key@,
                )
                &&& keys(self.topic_word_counts@).contains(self.topic_priors[i].key@)
            }
    }

    /// Every prior is positive, every likelihood lies in (0, 1], and the
    /// denominator of smoothing fits a machine integer for every topic.
    pub open spec fn bounded(&self) -> bool {
        &&& forall|i: int|
            0 <= i < self.topic_priors.len() ==> (#[trigger] self.topic_priors[i])
                .value.is_positive()
        &&& forall|i: int, j: int|
            0 <= i < self.word_given_topic.len() && 0 <= j < self.word_given_topic[i].value.len()
                ==> (#[trigger] self.word_given_topic[i].value[j]).value.is_probability()
        &&& forall|i: int|
            0 <= i < self.topic_word_counts.len() ==> (#[trigger] self.topic_word_counts[i]).value
                + self.vocabulary_size <= u64::MAX
    }

    /// The model is well formed.
    pub open spec fn wf(&self) -> bool {
        self.keyed() && self.complete() && self.bounded()
    }

    /// Tests whether the model is well formed.
    pub fn is_well_formed(&self) -> (ok: bool)
        ensures
            ok == self.wf(),
    {
        if !has_distinct_keys(&self.topic_priors) || !has_distinct_keys(&self.word_given_topic)
            || !has_distinct_keys(&self.topic_word_counts) {
            return false;
        }
        let mut i: usize = 0;
        while i < self.word_given_topic.len()
            invariant
                i <= self.word_given_topic.len(),
                forall|k: int|
                    0 <= k < i ==> distinct_keys((#[trigger] self.word_given_topic[k]).value@),
                forall|k: int, j: int|
                    0 <= k < i && 0 <= j < self.word_given_topic[k].value.len() ==> (
                    #[trigger] self.word_given_topic[k].value[j]).value.is_probability(),
            decreases self.word_given_topic.len() - i,
        {
            let words = &self.word_given_topic[i].value;
            if !has_distinct_keys(words) || !holds_probabilities(words) {
                return false;
            }
            i = i + 1;
        }
        let mut i: usize = 0;
        while i < self.topic_priors.len()
            invariant
                i <= self.topic_priors.len(),
                forall|k: int|
                    0 <= k < i ==> {
                        &&& keys(self.word_given_topic@).contains(
                            (#[trigger] self.topic_priors[k]).key@,
                        )
                        &&& keys(self.topic_word_counts@).contains(self.topic_priors[k].key@)
                        &&& self.topic_priors[k].value.is_positive()
                    },
            decreases self.topic_priors.len() - i,
        {
            let entry = &self.topic_priors[i];
            if entry.value.num == 0 || entry.value.den == 0 {
                return false;
            }
            let words = find(&self.word_given_topic, &entry.key);
            let count = find(&self.topic_word_counts, &entry.key);
            if words.is_none() || count.is_none() {
                return false;
            }
            proof {
                let w = words.unwrap() as int;
                let c = count.unwrap() as int;
                assert(keys(self.word_given_topic@)[w] == entry.key@);
                assert(keys(self.topic_word_counts@)[c] == entry.key@);
            }
            i = i + 1;
        }
        let mut i: usize = 0;
        while i < self.topic_word_counts.len()
            invariant
                i <= self.topic_word_counts.len(),
                forall|k: int|
                    0 <= k < i ==> (#[trigger] self.topic_word_counts[k]).value
                        + self.vocabulary_size <= u64::MAX,
            decreases self.topic_word_counts.len() - i,
        {
            if self.topic_word_counts[i].value > u64::MAX - self.vocabulary_size {
                return false;
            }
            i = i + 1;
        }
        true
    }
}

/// Tests whether every value of a word table lies in (0, 1].
pub fn holds_probabilities(words: &Vec<Entry<Ratio>>) -> (ok: bool)
    ensures
        ok == forall|j: int| 0 <= j < words.len() ==> (#[trigger] words[j]).value.is_probability(),
{
    let mut j: usize = 0;
    while j < words.len()
        invariant
            j <= words.len(),
            forall|l: int| 0 <= l < j ==> (#[trigger] words[l]).value.is_probability(),
        decreases words.len() - j,
    {
        let p = words[j].value;
        if p.num == 0 || p.num > p.den {
            return false;
        }
        j = j + 1;
    }
    true
}

/// Tests whether no key occurs twice in a list.
pub fn has_distinct_keys<V>(entries: &Vec<Entry<V>>) -> (ok: bool)
    ensures
        ok == distinct_keys(entries@),
{
    let mut seen = StringHashSet::new();
    let mut i: usize = 0;
    assert(keys(entries@.take(0)) =~= Seq::empty());
    while i < entries.len()
        invariant
            i <= entries.len(),
            distinct_keys(entries@.take(i as int)),
            seen@ == keys(entries@.take(i as int)).to_set(),
        decreases entries.len() - i,
    {
        let ghost before = entries@.take(i as int);
        let ghost key = entries[i as int].key@;
        proof {
            assert(entries@.take(i + 1) == before.push(entries[i as int]));
            lemma_keys_push(before, entries[i as int]);
            keys(before).lemma_push_to_set_commute(key);
        }
        let fresh = seen.insert(entries[i].key.clone());
        if !fresh {
            proof {
                let j = choose|j: int| 0 <= j < keys(before).len() && keys(before)[j] == key;
                assert(keys(entries@)[j] == keys(before)[j]);
                assert(keys(entries@)[i as int] == key);
            }
            return false;
        }
        i = i + 1;
    }
    assert(entries@.take(entries.len() as int) == entries@);
    true
}

} // verus!
