use langler_content::classifier::{classify, classify_naive_bayes, gather_evidence, TopicEvidence};
use langler_content::corpus::Record;
use langler_content::error::ClassifierError;
use langler_content::model::NaiveBayesModel;
use langler_content::ranking::{rank, ScoredTopic};
use langler_content::ratio::Ratio;
use langler_content::table::Entry;
use langler_content::trainer::train;

fn record(content: &str, topics: &[&str]) -> Record {
    Record {
        content: Some(content.to_string()),
        topics: Some(topics.iter().map(|t| t.to_string()).collect()),
    }
}

fn finance_and_sports() -> NaiveBayesModel {
    train(vec![
        record("stocks rally amid economic growth", &["finance"]),
        record("team wins championship game", &["sports"]),
    ])
    .unwrap()
}

fn ratio(r: Ratio) -> f64 {
    r.num as f64 / r.den as f64
}

/// Confidences from evidence: logarithms summed, the largest sum subtracted,
/// the exponentials divided by their sum where that is positive.
fn confidences(found: &[TopicEvidence]) -> Vec<f64> {
    let logs: Vec<f64> = found
        .iter()
        .map(|e| ratio(e.prior).ln() + e.likelihoods.iter().map(|p| ratio(*p).ln()).sum::<f64>())
        .collect();
    let top = logs.iter().copied().fold(f64::NEG_INFINITY, f64::max);
    let weights: Vec<f64> = logs.iter().map(|l| (l - top).exp()).collect();
    let sum: f64 = weights.iter().sum();
    if sum > 0.0 {
        weights.iter().map(|w| w / sum).collect()
    } else {
        weights
    }
}

fn ranked(found: Vec<TopicEvidence>) -> Vec<(String, f64)> {
    let scores = confidences(&found);
    let scored = found
        .into_iter()
        .zip(scores)
        .map(|(e, c)| ScoredTopic { topic: e.topic, score: c.to_bits() })
        .collect();
    rank(scored).into_iter().map(|s| (s.topic, f64::from_bits(s.score))).collect()
}

#[test]
fn classify_gives_one_entry_per_topic_in_model_order() {
    let model = finance_and_sports();
    let found = classify_naive_bayes(&model, "stocks and a championship");
    assert_eq!(found.len(), 2);
    assert_eq!(found[0].topic, "finance");
    assert_eq!(found[1].topic, "sports");
    assert_eq!(found[0].prior, Ratio { num: 1, den: 2 });
    assert_eq!(found[1].prior, Ratio { num: 1, den: 2 });
    // tokens: stocks, and, championship
    assert_eq!(
        found[0].likelihoods,
        vec![Ratio { num: 2, den: 14 }, Ratio { num: 1, den: 14 }, Ratio { num: 1, den: 14 }]
    );
    assert_eq!(
        found[1].likelihoods,
        vec![Ratio { num: 1, den: 13 }, Ratio { num: 1, den: 13 }, Ratio { num: 2, den: 13 }]
    );
}

#[test]
fn classify_lowercases_the_text() {
    let model = finance_and_sports();
    let found = classify_naive_bayes(&model, "STOCKS");
    assert_eq!(found[0].likelihoods, vec![Ratio { num: 2, den: 14 }]);
    assert_eq!(found[1].likelihoods, vec![Ratio { num: 1, den: 13 }]);
}

#[test]
fn classify_text_without_tokens_leaves_the_priors() {
    let model = finance_and_sports();
    let found = classify_naive_bayes(&model, "");
    assert_eq!(found.len(), 2);
    assert!(found.iter().all(|e| e.likelihoods.is_empty()));
    let scores = confidences(&found);
    assert_eq!(scores, vec![0.5, 0.5]);
}

#[test]
fn gather_evidence_takes_tokens_as_they_are() {
    let model = finance_and_sports();
    let tokens = vec!["team".to_string(), "Team".to_string()];
    let found = gather_evidence(&model, &tokens);
    assert_eq!(found[1].likelihoods, vec![Ratio { num: 2, den: 13 }, Ratio { num: 1, den: 13 }]);
}

#[test]
fn classify_twice_gives_the_same_evidence() {
    let model = finance_and_sports();
    let first = classify(&"the stock market rallied today", &model).unwrap();
    let second = classify(&"the stock market rallied today", &model).unwrap();
    assert_eq!(format!("{:?}", first), format!("{:?}", second));
    assert_eq!(format!("{:?}", ranked(first)), format!("{:?}", ranked(second)));
}

#[test]
fn classify_stock_market_query_follows_the_smoothing_floor() {
    // No token of the query was seen in training ("stock" is not "stocks"),
    // so each of its five tokens gets the floor of the topic: 1/14 under
    // finance, which has five counted words, and 1/13 under sports, which
    // has four. The smaller topic therefore comes first.
    let model = finance_and_sports();
    let found = classify(&"the stock market rallied today", &model).unwrap();
    assert_eq!(found[0].likelihoods, vec![Ratio { num: 1, den: 14 }; 5]);
    assert_eq!(found[1].likelihoods, vec![Ratio { num: 1, den: 13 }; 5]);
    let order = ranked(found);
    assert_eq!(order[0].0, "sports");
    assert_eq!(order[1].0, "finance");
    let expected = 537824.0 / (537824.0 + 371293.0);
    assert!((order[0].1 - expected).abs() < 1e-12);
    assert!((order[0].1 + order[1].1 - 1.0).abs() < 1e-12);
}

#[test]
fn classify_ranks_a_topic_first_when_its_words_are_used() {
    let model = finance_and_sports();
    let order = ranked(classify(&"stocks rally", &model).unwrap());
    assert_eq!(order[0].0, "finance");
    // finance: 1/2 * (2/14)^2, sports: 1/2 * (1/13)^2
    let finance = 4.0 / 196.0;
    let sports = 1.0 / 169.0;
    assert!((order[0].1 - finance / (finance + sports)).abs() < 1e-12);
    let order = ranked(classify(&"championship game", &model).unwrap());
    assert_eq!(order[0].0, "sports");
}

#[test]
fn classify_unknown_words_gives_a_full_distribution() {
    let model = train(vec![
        record("alpha beta gamma", &["greek"]),
        record("alpha beta gamma", &["letters"]),
        record("alpha beta gamma delta", &["letters"]),
    ])
    .unwrap();
    let found = classify(&"zzzz yyyy", &model).unwrap();
    assert_eq!(found.len(), 2);
    // greek: 3 counted words, letters: 7; the vocabulary has 4 words.
    assert_eq!(found[0].prior, Ratio { num: 1, den: 3 });
    assert_eq!(found[0].likelihoods, vec![Ratio { num: 1, den: 7 }; 2]);
    assert_eq!(found[1].prior, Ratio { num: 2, den: 3 });
    assert_eq!(found[1].likelihoods, vec![Ratio { num: 1, den: 11 }; 2]);
    let order = ranked(found);
    let greek = 1.0 / 3.0 / 49.0;
    let letters = 2.0 / 3.0 / 121.0;
    assert_eq!(order[0].0, "greek");
    assert!((order[0].1 - greek / (greek + letters)).abs() < 1e-12);
    assert!((order[1].1 - letters / (greek + letters)).abs() < 1e-12);
    assert!((order.iter().map(|o| o.1).sum::<f64>() - 1.0).abs() < 1e-12);
}

fn entry<V>(key: &str, value: V) -> Entry<V> {
    Entry { key: key.to_string(), value }
}

fn small_model() -> NaiveBayesModel {
    NaiveBayesModel {
        topic_priors: vec![entry("a", Ratio { num: 1, den: 2 }), entry("b", Ratio { num: 1, den: 2 })],
        word_given_topic: vec![
            entry("b", vec![entry("word", Ratio { num: 2, den: 3 })]),
            entry("a", vec![]),
        ],
        vocabulary_size: 1,
        topic_word_counts: vec![entry("a", 0), entry("b", 2)],
    }
}

#[test]
fn classify_finds_tables_by_topic_name() {
    let model = small_model();
    assert!(model.is_well_formed());
    let found = classify(&"word", &model).unwrap();
    assert_eq!(found[0].topic, "a");
    assert_eq!(found[0].likelihoods, vec![Ratio { num: 1, den: 1 }]);
    assert_eq!(found[1].topic, "b");
    assert_eq!(found[1].likelihoods, vec![Ratio { num: 2, den: 3 }]);
}

#[test]
fn classify_refuses_a_model_with_a_repeated_topic() {
    let mut model = small_model();
    model.topic_priors.push(entry("a", Ratio { num: 1, den: 2 }));
    assert!(!model.is_well_formed());
    assert_eq!(classify(&"word", &model).unwrap_err(), ClassifierError::ModelDecodeError);
}

#[test]
fn classify_refuses_a_model_with_a_repeated_word() {
    let mut model = small_model();
    model.word_given_topic[0].value.push(entry("word", Ratio { num: 1, den: 3 }));
    assert_eq!(classify(&"word", &model).unwrap_err(), ClassifierError::ModelDecodeError);
}

#[test]
fn classify_refuses_a_model_without_a_table_for_a_topic() {
    let mut model = small_model();
    model.word_given_topic.pop();
    assert_eq!(classify(&"word", &model).unwrap_err(), ClassifierError::ModelDecodeError);
    let mut model = small_model();
    model.topic_word_counts.remove(0);
    assert_eq!(classify(&"word", &model).unwrap_err(), ClassifierError::ModelDecodeError);
}

#[test]
fn classify_refuses_a_model_with_a_value_out_of_range() {
    let mut model = small_model();
    model.topic_priors[0].value = Ratio { num: 0, den: 2 };
    assert_eq!(classify(&"word", &model).unwrap_err(), ClassifierError::ModelDecodeError);
    let mut model = small_model();
    model.topic_priors[1].value = Ratio { num: 1, den: 0 };
    assert_eq!(classify(&"word", &model).unwrap_err(), ClassifierError::ModelDecodeError);
    let mut model = small_model();
    model.word_given_topic[0].value[0].value = Ratio { num: 4, den: 3 };
    assert_eq!(classify(&"word", &model).unwrap_err(), ClassifierError::ModelDecodeError);
    let mut model = small_model();
    model.word_given_topic[0].value[0].value = Ratio { num: 0, den: 3 };
    assert_eq!(classify(&"word", &model).unwrap_err(), ClassifierError::ModelDecodeError);
    let mut model = small_model();
    model.vocabulary_size = u64::MAX;
    assert_eq!(classify(&"word", &model).unwrap_err(), ClassifierError::ModelDecodeError);
}

#[test]
fn classify_accepts_an_empty_model() {
    let model = NaiveBayesModel {
        topic_priors: vec![],
        word_given_topic: vec![],
        vocabulary_size: 0,
        topic_word_counts: vec![],
    };
    assert!(classify(&"anything at all", &model).unwrap().is_empty());
}

fn scored(items: &[(&str, u64)]) -> Vec<ScoredTopic> {
    items.iter().map(|(t, s)| ScoredTopic { topic: t.to_string(), score: *s }).collect()
}

fn pairs(items: Vec<ScoredTopic>) -> Vec<(String, u64)> {
    items.into_iter().map(|s| (s.topic, s.score)).collect()
}

#[test]
fn rank_orders_by_descending_score() {
    let order = pairs(rank(scored(&[("low", 1), ("high", 9), ("mid", 5)])));
    assert_eq!(
        order,
        vec![("high".to_string(), 9), ("mid".to_string(), 5), ("low".to_string(), 1)]
    );
}

#[test]
fn rank_keeps_the_given_order_among_equal_scores() {
    let order = pairs(rank(scored(&[("b", 3), ("a", 7), ("c", 3), ("d", 7), ("e", 3)])));
    let names: Vec<&str> = order.iter().map(|p| p.0.as_str()).collect();
    assert_eq!(names, vec!["a", "d", "b", "c", "e"]);
}

#[test]
fn rank_of_nothing_is_nothing() {
    assert!(rank(vec![]).is_empty());
}

#[test]
fn rank_keeps_every_topic_once() {
    let order = pairs(rank(scored(&[("x", 0), ("y", u64::MAX), ("x", 0)])));
    assert_eq!(
        order,
        vec![("y".to_string(), u64::MAX), ("x".to_string(), 0), ("x".to_string(), 0)]
    );
}

fn ratio_json(r: Ratio) -> serde_json::Value {
    serde_json::Value::Array(vec![r.num.into(), r.den.into()])
}

fn ratio_from(value: &serde_json::Value) -> Ratio {
    Ratio { num: value[0].as_u64().unwrap(), den: value[1].as_u64().unwrap() }
}

fn to_json(model: &NaiveBayesModel) -> String {
    let pair = |key: &str, value: serde_json::Value| serde_json::Value::Array(vec![key.into(), value]);
    let mut root = serde_json::Map::new();
    root.insert(
        "topic_priors".to_string(),
        model.topic_priors.iter().map(|e| pair(&e.key, ratio_json(e.value))).collect(),
    );
    root.insert(
        "word_given_topic".to_string(),
        model
            .word_given_topic
            .iter()
            .map(|e| pair(&e.key, e.value.iter().map(|w| pair(&w.key, ratio_json(w.value))).collect()))
            .collect(),
    );
    root.insert("vocabulary_size".to_string(), model.vocabulary_size.into());
    root.insert(
        "topic_word_counts".to_string(),
        model.topic_word_counts.iter().map(|e| pair(&e.key, e.value.into())).collect(),
    );
    serde_json::to_string(&serde_json::Value::Object(root)).unwrap()
}

fn from_json(text: &str) -> NaiveBayesModel {
    let root: serde_json::Value = serde_json::from_str(text).unwrap();
    let list = |value: &serde_json::Value| value.as_array().unwrap().clone();
    let key = |value: &serde_json::Value| value[0].as_str().unwrap().to_string();
    NaiveBayesModel {
        topic_priors: list(&root["topic_priors"])
            .iter()
            .map(|p| Entry { key: key(p), value: ratio_from(&p[1]) })
            .collect(),
        word_given_topic: list(&root["word_given_topic"])
            .iter()
            .map(|p| Entry {
                key: key(p),
                value: list(&p[1]).iter().map(|w| Entry { key: key(w), value: ratio_from(&w[1]) }).collect(),
            })
            .collect(),
        vocabulary_size: root["vocabulary_size"].as_u64().unwrap(),
        topic_word_counts: list(&root["topic_word_counts"])
            .iter()
            .map(|p| Entry { key: key(p), value: p[1].as_u64().unwrap() })
            .collect(),
    }
}

#[test]
fn classify_agrees_after_a_passage_through_json() {
    let model = train(vec![
        record("stocks rally amid economic growth", &["finance"]),
        record("team wins championship game", &["sports"]),
        record("el niño ganó el campeonato", &["sports", "niños"]),
    ])
    .unwrap();
    let written = to_json(&model);
    let rebuilt = from_json(&written);
    assert_eq!(format!("{:?}", rebuilt), format!("{:?}", model));
    assert_eq!(to_json(&rebuilt), written);
    for document in ["", "stocks rally", "the team of the niño", "nothing known here", "GAME game"] {
        let first = classify(&document, &model).unwrap();
        let second = classify(&document, &rebuilt).unwrap();
        assert_eq!(format!("{:?}", first), format!("{:?}", second), "{:?}", document);
        assert_eq!(format!("{:?}", ranked(first)), format!("{:?}", ranked(second)));
    }
}

#[test]
fn classify_confidences_add_up_to_one() {
    let model = train(vec![
        record("stocks rally amid economic growth", &["finance"]),
        record("team wins championship game", &["sports"]),
        record("rain and wind over the coast", &["weather", "sports"]),
    ])
    .unwrap();
    for document in ["", "stocks", "team game rain", "words that nobody has seen before"] {
        let found = classify(&document, &model).unwrap();
        assert_eq!(found.len(), 3);
        let order = ranked(found);
        let mut names: Vec<&str> = order.iter().map(|o| o.0.as_str()).collect();
        names.sort();
        assert_eq!(names, vec!["finance", "sports", "weather"]);
        assert!((order.iter().map(|o| o.1).sum::<f64>() - 1.0).abs() < 1e-12);
        assert!(order.iter().all(|o| 0.0 <= o.1 && o.1 <= 1.0));
        assert!(order.windows(2).all(|w| w[0].1 >= w[1].1));
    }
}
