//! A small natural-language toolkit: tokenizers, an edit distance, and an
//! averaged-perceptron part-of-speech tagger whose weights are kept in
//! fixed point (thousandths) so that training and decoding are exact.

pub mod distance;
pub mod error;
pub mod features;
pub mod perceptron;
pub mod tagger;
pub mod tokenize;
