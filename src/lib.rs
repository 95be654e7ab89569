//! Verified core of a kana-to-kanji input method: the candidate lattice of a
//! reading, its minimum-cost path, the language-model and dictionary lookups
//! that price it, the preparation of model data, and per-user learning counts.
pub mod bigram;
pub mod commands;
pub mod config;
pub mod converter;
pub mod graph;
pub mod kana;
pub mod resolver;
pub mod unigram;
pub mod user_data;
pub mod wfreq;
