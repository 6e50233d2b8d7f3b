//! Vocabulary and grammar cards from text: grouping of extracted words, a word relation with
//! conflict-aware insert-or-update, bounded-concurrency batches, retry policy of remote calls,
//! framing of JSON answers, and card formatting.
pub mod api;
pub mod batch;
pub mod cards;
pub mod config;
pub mod error;
pub mod grouping;
pub mod models;
pub mod payload;
pub mod retry;
pub mod store;
pub mod tags;
pub mod text;
pub mod tts;
