//! Suffix-stripping stemmers over snowball-style rule tables.

// The Porter2 algorithm itself.
pub mod porter2;

// Stemming of lexical tokens.
pub mod stem;

use vstd::prelude::*;

verus! {

/// The closed set of stemming algorithms the library offers.
pub enum StemmingAlgorithm {
    Porter2,
}

} // verus!
