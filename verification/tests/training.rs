use langler_content::corpus::{Document, Record, TokenizedDocument};
use langler_content::error::ClassifierError;
use langler_content::model::NaiveBayesModel;
use langler_content::ratio::Ratio;
use langler_content::table::Entry;
use langler_content::trainer::{
    collect_vocabulary, train, train_naive_bayes, train_on_tokens, TrainingData,
};

fn record(content: &str, topics: &[&str]) -> Record {
    Record {
        content: Some(content.to_string()),
        topics: Some(topics.iter().map(|t| t.to_string()).collect()),
    }
}

fn value_of<'a, V>(entries: &'a [Entry<V>], key: &str) -> Option<&'a V> {
    entries.iter().find(|e| e.key == key).map(|e| &e.value)
}

fn topic_names(model: &NaiveBayesModel) -> Vec<&str> {
    model.topic_priors.iter().map(|e| e.key.as_str()).collect()
}

fn finance_and_sports() -> NaiveBayesModel {
    train(vec![
        record("stocks rally amid economic growth", &["finance"]),
        record("team wins championship game", &["sports"]),
    ])
    .unwrap()
}

#[test]
fn train_counts_documents_and_words() {
    let model = finance_and_sports();
    assert!(model.is_well_formed());
    assert_eq!(model.vocabulary_size, 9);
    assert_eq!(topic_names(&model), vec!["finance", "sports"]);
    assert_eq!(value_of(&model.topic_priors, "finance"), Some(&Ratio { num: 1, den: 2 }));
    assert_eq!(value_of(&model.topic_priors, "sports"), Some(&Ratio { num: 1, den: 2 }));
    assert_eq!(value_of(&model.topic_word_counts, "finance"), Some(&5));
    assert_eq!(value_of(&model.topic_word_counts, "sports"), Some(&4));
    let finance = value_of(&model.word_given_topic, "finance").unwrap();
    assert_eq!(finance.len(), 5);
    assert_eq!(value_of(finance, "stocks"), Some(&Ratio { num: 2, den: 14 }));
    assert_eq!(value_of(finance, "team"), None);
    let sports = value_of(&model.word_given_topic, "sports").unwrap();
    assert_eq!(sports.len(), 4);
    assert_eq!(value_of(sports, "championship"), Some(&Ratio { num: 2, den: 13 }));
}

#[test]
fn train_smooths_repeated_words() {
    let model = train(vec![record("goal goal goal keeper", &["sports"])]).unwrap();
    assert_eq!(model.vocabulary_size, 2);
    assert_eq!(value_of(&model.topic_word_counts, "sports"), Some(&4));
    let sports = value_of(&model.word_given_topic, "sports").unwrap();
    assert_eq!(value_of(sports, "goal"), Some(&Ratio { num: 4, den: 6 }));
    assert_eq!(value_of(sports, "keeper"), Some(&Ratio { num: 2, den: 6 }));
}

#[test]
fn train_counts_a_document_for_each_of_its_topics() {
    let model = train(vec![
        record("markets and players", &["finance", "sports"]),
        record("players only", &["sports"]),
        record("markets only", &["finance"]),
    ])
    .unwrap();
    assert_eq!(topic_names(&model), vec!["finance", "sports"]);
    // Four pairs of a document and a topic, over three documents.
    let numerators: u64 = model.topic_priors.iter().map(|e| e.value.num).sum();
    assert_eq!(numerators, 4);
    for entry in &model.topic_priors {
        assert_eq!(entry.value, Ratio { num: 2, den: 3 });
    }
    // "and" counts under both topics of the first document.
    assert_eq!(model.vocabulary_size, 4);
    assert_eq!(value_of(&model.topic_word_counts, "finance"), Some(&5));
    assert_eq!(value_of(&model.topic_word_counts, "sports"), Some(&5));
    let finance = value_of(&model.word_given_topic, "finance").unwrap();
    assert_eq!(value_of(finance, "markets"), Some(&Ratio { num: 3, den: 9 }));
    assert_eq!(value_of(finance, "and"), Some(&Ratio { num: 2, den: 9 }));
    assert_eq!(value_of(finance, "players"), Some(&Ratio { num: 2, den: 9 }));
    assert_eq!(value_of(finance, "only"), Some(&Ratio { num: 2, den: 9 }));
}

#[test]
fn train_counts_a_repeated_label_twice() {
    let model = train(vec![record("rates rise", &["finance", "finance"])]).unwrap();
    assert_eq!(topic_names(&model), vec!["finance"]);
    assert_eq!(value_of(&model.topic_priors, "finance"), Some(&Ratio { num: 2, den: 1 }));
    assert_eq!(value_of(&model.topic_word_counts, "finance"), Some(&4));
    let finance = value_of(&model.word_given_topic, "finance").unwrap();
    assert_eq!(value_of(finance, "rates"), Some(&Ratio { num: 3, den: 6 }));
}

#[test]
fn train_with_a_one_word_vocabulary_gives_likelihood_one() {
    let model = train(vec![record("hello", &["greeting"])]).unwrap();
    assert_eq!(model.vocabulary_size, 1);
    let greeting = value_of(&model.word_given_topic, "greeting").unwrap();
    assert_eq!(value_of(greeting, "hello"), Some(&Ratio { num: 2, den: 2 }));
    assert!(model.is_well_formed());
}

#[test]
fn train_on_a_text_without_tokens_keeps_the_topic() {
    let model = train(vec![record("a b", &["short"])]).unwrap();
    assert_eq!(model.vocabulary_size, 0);
    assert_eq!(topic_names(&model), vec!["short"]);
    assert_eq!(value_of(&model.topic_priors, "short"), Some(&Ratio { num: 1, den: 1 }));
    assert_eq!(value_of(&model.topic_word_counts, "short"), Some(&0));
    assert!(value_of(&model.word_given_topic, "short").unwrap().is_empty());
}

#[test]
fn train_without_usable_record_is_invalid_input() {
    let records = vec![
        Record { content: None, topics: Some(vec!["a".to_string()]) },
        Record { content: Some("some text here".to_string()), topics: None },
        Record { content: Some(String::new()), topics: Some(vec!["a".to_string()]) },
        Record { content: Some("some text here".to_string()), topics: Some(vec![]) },
        Record { content: None, topics: None },
    ];
    assert_eq!(train(records).unwrap_err(), ClassifierError::InvalidInput);
    assert_eq!(train(vec![]).unwrap_err(), ClassifierError::InvalidInput);
}

#[test]
fn train_passes_over_unusable_records() {
    let mixed = train(vec![
        Record { content: None, topics: Some(vec!["lost".to_string()]) },
        record("team wins championship game", &["sports"]),
        Record { content: Some("words without a topic".to_string()), topics: Some(vec![]) },
    ])
    .unwrap();
    let alone = train(vec![record("team wins championship game", &["sports"])]).unwrap();
    assert_eq!(topic_names(&mixed), vec!["sports"]);
    assert_eq!(mixed.vocabulary_size, 4);
    assert_eq!(mixed.vocabulary_size, alone.vocabulary_size);
    assert_eq!(value_of(&mixed.topic_priors, "sports"), Some(&Ratio { num: 1, den: 1 }));
    assert_eq!(value_of(&mixed.topic_word_counts, "sports"), Some(&4));
    let table = value_of(&mixed.word_given_topic, "sports").unwrap();
    let other = value_of(&alone.word_given_topic, "sports").unwrap();
    assert_eq!(table.len(), other.len());
    for (a, b) in table.iter().zip(other.iter()) {
        assert_eq!(a.key, b.key);
        assert_eq!(a.value, b.value);
    }
}

#[test]
fn train_naive_bayes_counts_every_document_in_the_priors() {
    let documents = vec![
        Document { content: "budget vote today".to_string(), topics: vec!["politics".to_string()] },
        Document { content: "nothing to file under".to_string(), topics: vec![] },
    ];
    let data = TrainingData::from_documents(documents);
    assert_eq!(data.documents.len(), 2);
    let model = train_naive_bayes(&data).unwrap();
    assert_eq!(topic_names(&model), vec!["politics"]);
    assert_eq!(value_of(&model.topic_priors, "politics"), Some(&Ratio { num: 1, den: 2 }));
    // The words of the unlabelled document belong to the vocabulary.
    assert_eq!(model.vocabulary_size, 6);
    let politics = value_of(&model.word_given_topic, "politics").unwrap();
    assert_eq!(value_of(politics, "budget"), Some(&Ratio { num: 2, den: 9 }));
    assert_eq!(value_of(politics, "nothing"), None);
}

#[test]
fn train_naive_bayes_on_nothing_gives_an_empty_model() {
    let model = train_naive_bayes(&TrainingData::from_documents(vec![])).unwrap();
    assert!(model.topic_priors.is_empty());
    assert!(model.word_given_topic.is_empty());
    assert!(model.topic_word_counts.is_empty());
    assert_eq!(model.vocabulary_size, 0);
    assert!(model.is_well_formed());
}

#[test]
fn train_twice_gives_the_same_model() {
    let first = finance_and_sports();
    let second = finance_and_sports();
    assert_eq!(format!("{:?}", first), format!("{:?}", second));
}

#[test]
fn classifier_error_says_what_went_wrong() {
    assert_eq!(ClassifierError::InvalidInput.message(), "No valid training documents");
    assert_eq!(
        ClassifierError::CapacityExceeded.message(),
        "Training data exceeds the capacity of the model"
    );
    assert_eq!(ClassifierError::ModelDecodeError.message(), "Model is not well formed");
}

#[test]
fn train_gives_likelihoods_strictly_between_zero_and_one() {
    let model = train(vec![
        record("markets and players and markets", &["finance", "sports"]),
        record("players only players", &["sports"]),
        record("a b", &["empty"]),
    ])
    .unwrap();
    assert!(model.vocabulary_size >= 2);
    let mut seen = 0;
    for table in &model.word_given_topic {
        let total = *value_of(&model.topic_word_counts, &table.key).unwrap();
        for word in &table.value {
            assert!(word.value.num > 0);
            assert!(word.value.num < word.value.den);
            assert_eq!(word.value.den, total + model.vocabulary_size);
            seen += 1;
        }
        // The floor of the topic, for a word that was not counted under it.
        assert!(1 < total + model.vocabulary_size);
    }
    assert_eq!(seen, 7);
}

#[test]
fn train_gives_priors_in_the_unit_interval_where_labels_are_not_repeated() {
    let model = train(vec![
        record("markets and players", &["finance", "sports"]),
        record("players only", &["sports"]),
        record("weather report", &["weather"]),
    ])
    .unwrap();
    for prior in &model.topic_priors {
        assert!(prior.value.num > 0);
        assert!(prior.value.num <= prior.value.den);
        assert_eq!(prior.value.den, 3);
    }
    let numerators: u64 = model.topic_priors.iter().map(|e| e.value.num).sum();
    assert_eq!(numerators, 4);
}

#[test]
fn train_on_the_usable_records_alone_gives_the_same_model() {
    let usable = || {
        vec![
            record("stocks rally amid economic growth", &["finance"]),
            record("team wins championship game", &["sports", "news"]),
        ]
    };
    let mut mixed = usable();
    mixed.insert(0, Record { content: Some(String::new()), topics: Some(vec!["lost".to_string()]) });
    mixed.insert(2, Record { content: Some("words without a topic".to_string()), topics: None });
    mixed.push(Record { content: None, topics: None });
    let on_all = train(mixed).unwrap();
    let on_usable = train(usable()).unwrap();
    assert_eq!(on_all, on_usable);
    assert_eq!(on_all.vocabulary_size, 9);
    assert_eq!(topic_names(&on_all), vec!["finance", "sports", "news"]);
    for prior in &on_all.topic_priors {
        assert_eq!(prior.value, Ratio { num: 1, den: 2 });
    }
}

fn tokenized(tokens: &[&str], topics: &[&str]) -> TokenizedDocument {
    TokenizedDocument {
        tokens: tokens.iter().map(|t| t.to_string()).collect(),
        topics: topics.iter().map(|t| t.to_string()).collect(),
    }
}

#[test]
fn train_on_tokens_counts_the_tokens_as_they_are() {
    let documents = vec![
        tokenized(&["Goal", "goal", "goal", "x"], &["sports"]),
        tokenized(&["vote"], &["politics", "sports"]),
        tokenized(&[], &["politics"]),
    ];
    let vocabulary = collect_vocabulary(&documents);
    let model = train_on_tokens(&documents, &vocabulary).unwrap();
    assert!(model.is_well_formed());
    assert_eq!(model.vocabulary_size, 4);
    assert_eq!(topic_names(&model), vec!["sports", "politics"]);
    assert_eq!(value_of(&model.topic_priors, "sports"), Some(&Ratio { num: 2, den: 3 }));
    assert_eq!(value_of(&model.topic_priors, "politics"), Some(&Ratio { num: 2, den: 3 }));
    assert_eq!(value_of(&model.topic_word_counts, "sports"), Some(&5));
    assert_eq!(value_of(&model.topic_word_counts, "politics"), Some(&1));
    let sports = value_of(&model.word_given_topic, "sports").unwrap();
    let words: Vec<&str> = sports.iter().map(|e| e.key.as_str()).collect();
    assert_eq!(words, vec!["Goal", "goal", "x", "vote"]);
    assert_eq!(value_of(sports, "Goal"), Some(&Ratio { num: 2, den: 9 }));
    assert_eq!(value_of(sports, "goal"), Some(&Ratio { num: 3, den: 9 }));
    assert_eq!(value_of(sports, "x"), Some(&Ratio { num: 2, den: 9 }));
    assert_eq!(value_of(sports, "vote"), Some(&Ratio { num: 2, den: 9 }));
    let politics = value_of(&model.word_given_topic, "politics").unwrap();
    assert_eq!(politics.len(), 1);
    assert_eq!(value_of(politics, "vote"), Some(&Ratio { num: 2, den: 5 }));
}

#[test]
fn train_on_tokens_passes_over_tokens_outside_the_vocabulary() {
    let known = vec![tokenized(&["rain", "wind"], &[])];
    let vocabulary = collect_vocabulary(&known);
    let documents = vec![tokenized(&["rain", "snow", "rain", "hail"], &["weather"])];
    let model = train_on_tokens(&documents, &vocabulary).unwrap();
    assert_eq!(model.vocabulary_size, 2);
    assert_eq!(value_of(&model.topic_priors, "weather"), Some(&Ratio { num: 1, den: 1 }));
    assert_eq!(value_of(&model.topic_word_counts, "weather"), Some(&2));
    let weather = value_of(&model.word_given_topic, "weather").unwrap();
    assert_eq!(weather.len(), 1);
    assert_eq!(value_of(weather, "rain"), Some(&Ratio { num: 3, den: 4 }));
}

#[test]
fn train_on_tokens_agrees_with_training_on_the_texts() {
    let from_tokens = {
        let documents = vec![
            tokenized(&["stocks", "rally", "amid", "economic", "growth"], &["finance"]),
            tokenized(&["team", "wins", "championship", "game"], &["sports"]),
        ];
        let vocabulary = collect_vocabulary(&documents);
        train_on_tokens(&documents, &vocabulary).unwrap()
    };
    assert_eq!(from_tokens, finance_and_sports());
}
