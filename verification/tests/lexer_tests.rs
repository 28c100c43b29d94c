use rust_search::lexer::{Lexer, Token};

/// Should skip leading spaces until it finds a letter or character
#[test]
fn skip_leading_spaces() {
    let leading_spaces = "   \t\t   \n\r  test";
    let target = "test";

    let mut lexer = Lexer::new(&leading_spaces);
    let toks: Vec<Token> = lexer.tokenize();

    assert_eq!(toks.len(), 1);
    assert_eq!(toks[0], Token::Word(String::from(target)));
}

/// Should skip everything
#[test]
fn skip_all() {
    let spaces = "   \r     \n    \t\t ";

    let mut lexer = Lexer::new(spaces);
    let toks: Vec<Token> = lexer.tokenize();

    assert_eq!(toks.len(), 0);
}

/// Should extract numbers
#[test]
fn scan_nums() {
    let nums = "123 456 789";

    let mut lexer = Lexer::new(nums);

    assert_eq!(lexer.next_token(), Token::Number(String::from("123")));
    assert_eq!(lexer.next_token(), Token::Number(String::from("456")));
    assert_eq!(lexer.next_token(), Token::Number(String::from("789")));
    assert_eq!(lexer.next_token(), Token::EOF);
}

/// Should extract words
#[test]
fn scan_word() {
    let words = "test they're WhaT";

    let mut lexer = Lexer::new(words);

    assert_eq!(lexer.next_token(), Token::Word(String::from("test")));
    assert_eq!(lexer.next_token(), Token::Word(String::from("they're")));
    assert_eq!(lexer.next_token(), Token::Word(String::from("WhaT")));
    assert_eq!(lexer.next_token(), Token::EOF);
}

/// Should scan 'symbols' from text
#[test]
fn scan_symbol() {
    let symbols = "?;' \\^%  $#@ *()-=+";

    let mut lexer = Lexer::new(symbols);

    assert_eq!(lexer.next_token(), Token::Symbol(String::from("?;'")));
    assert_eq!(lexer.next_token(), Token::Symbol(String::from("\\^%")));
    assert_eq!(lexer.next_token(), Token::Symbol(String::from("$#@")));
    assert_eq!(lexer.next_token(), Token::Symbol(String::from("*()-=+")));
    assert_eq!(lexer.next_token(), Token::EOF);
}

/// Should get words, symbols, and numbers!
#[test]
fn scan_everything() {
    let text = "1 billion 45$ please";

    let mut lexer = Lexer::new(text);

    assert_eq!(lexer.next_token(), Token::Number(String::from("1")));
    assert_eq!(lexer.next_token(), Token::Word(String::from("billion")));
    assert_eq!(lexer.next_token(), Token::Number(String::from("45")));
    assert_eq!(lexer.next_token(), Token::Symbol(String::from("$")));
    assert_eq!(lexer.next_token(), Token::Word(String::from("please")));
    assert_eq!(lexer.next_token(), Token::EOF);
}

/// "123 abc" is exactly a number followed by a word.
#[test]
fn number_then_word() {
    let mut lexer = Lexer::new("123 abc");
    let toks = lexer.tokenize();
    assert_eq!(toks.len(), 2);
    assert_eq!(toks[0], Token::Number(String::from("123")));
    assert_eq!(toks[1], Token::Word(String::from("abc")));
}

/// The apostrophe is retained inside a word run.
#[test]
fn word_with_apostrophe() {
    let mut lexer = Lexer::new("don't");
    let toks = lexer.tokenize();
    assert_eq!(toks.len(), 1);
    assert_eq!(toks[0], Token::Word(String::from("don't")));
}

/// An unrecognized character ends the token stream early.
#[test]
fn unrecognized_character_truncates() {
    let mut lexer = Lexer::new("abc \u{0} def");
    let toks = lexer.tokenize();
    assert_eq!(toks.len(), 1);
    assert_eq!(toks[0], Token::Word(String::from("abc")));
}

/// Re-tokenizing the token texts joined with single blanks gives the
/// same tokens back.
#[test]
fn retokenize_joined_texts() {
    let mut lexer = Lexer::new("1 billion,45$  don't --x  stop");
    let toks = lexer.tokenize();
    let mut joined = String::new();
    for (i, t) in toks.iter().enumerate() {
        if i > 0 {
            joined.push(' ');
        }
        match t {
            Token::Number(s) | Token::Word(s) | Token::Symbol(s) => joined.push_str(s),
            _ => panic!("unexpected token"),
        }
    }
    let mut lexer2 = Lexer::new(&joined);
    let toks2 = lexer2.tokenize();
    assert_eq!(toks, toks2);
}
