//! A small full-text indexing and retrieval engine: a tokenizer over raw
//! text, a Porter2 suffix-stripping stemmer, and a term-frequency /
//! document-frequency index with ranked queries over stemmed tokens.

// Character classification and string building.
pub mod chars;

// The lexer that turns raw text into tokens.
pub mod lexer;

// The stemming algorithms.
pub mod snowball;

// The index of documents and the ranking over it.
pub mod model;
