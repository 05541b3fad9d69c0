//! Topic classification of text with a multinomial Naive Bayes model, in
//! exact arithmetic, and the extraction of the readable text of a web page.
//!
//! A model is learned from labelled documents by counting (`trainer`); every
//! probability it holds is a fraction of two counts (`model`, `ratio`).
//! Classifying a text collects, for each topic of the model, the prior and
//! one likelihood for each token of the text (`classifier`). Turning those
//! fractions into a normalised confidence takes logarithms and is left to
//! the caller; `ranking` orders the scored topics. `laws` states what holds
//! of every training set, every model and every ranking.
//!
//! `extraction` reads the paragraphs of a page up to the first end marker,
//! with the help of `text`.

pub mod classifier;
pub mod corpus;
pub mod error;
pub mod extraction;
pub mod laws;
pub mod model;
pub mod ranking;
pub mod ratio;
pub mod table;
pub mod text;
pub mod tokenizer;
pub mod trainer;
