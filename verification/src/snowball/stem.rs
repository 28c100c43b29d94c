//! Stemming of lexical tokens: word and number tokens are reduced to
//! their stem, symbol tokens are not stemmable.

use vstd::prelude::*;
use crate::chars::{chars_of, string_of};
use crate::lexer::{Tok, Token};
use crate::snowball::porter2::{porter2, porter2_spec};
use crate::snowball::StemmingAlgorithm;

verus! {

/// The stem of a token: the Porter2 stem of the text of a word or
/// number token; nothing for the other tokens.
pub open spec fn stem_spec(t: Tok) -> Option<Seq<char>> {
    match t {
        Tok::Word(s) => Some(porter2_spec(s)),
        Tok::Number(s) => Some(porter2_spec(s)),
        _ => None,
    }
}

/// Stem one token with the chosen algorithm.
pub fn stem(tok: &Token, alg: StemmingAlgorithm) -> (r: Option<String>)
    ensures
        (r is Some) == (stem_spec(tok@) is Some),
        r matches Some(s) ==> stem_spec(tok@) == Some(s@),
{
    let content = match tok {
        Token::Word(word) => Some(word),
        Token::Number(num) => Some(num),
        _ => None,
    };
    match content {
        Some(text) => {
            let cs = chars_of(text.as_str());
            let stemmed = match alg {
                StemmingAlgorithm::Porter2 => porter2(&cs),
            };
            Some(string_of(&stemmed))
        },
        None => None,
    }
}

} // verus!
