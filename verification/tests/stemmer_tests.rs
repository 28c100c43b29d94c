use rust_search::lexer::Token;
use rust_search::snowball::stem::stem;
use rust_search::snowball::StemmingAlgorithm;

fn stem_word(w: &str) -> String {
    stem(&Token::Word(String::from(w)), StemmingAlgorithm::Porter2).unwrap()
}

/// Plain plural and participle reductions.
#[test]
fn stem_running_to_run() {
    assert_eq!(stem_word("running"), "run");
}

/// A short word below the region thresholds stays unchanged.
#[test]
fn stem_sky_unchanged() {
    assert_eq!(stem_word("sky"), "sky");
}

/// The empty string stems to the empty string.
#[test]
fn stem_empty_string() {
    assert_eq!(stem_word(""), "");
}

/// A multi-step derivational reduction.
#[test]
fn stem_generalization() {
    assert_eq!(stem_word("generalization"), "general");
}

/// The repair steps after `ing` removal: re-adding `e` to a short
/// word, and undoubling a final pair.
#[test]
fn stem_ing_repairs() {
    assert_eq!(stem_word("hoping"), "hope");
    assert_eq!(stem_word("hopping"), "hop");
}

/// The `ies`/`ied` rules depend on the word length.
#[test]
fn stem_ies_rules() {
    assert_eq!(stem_word("ties"), "tie");
    assert_eq!(stem_word("cries"), "cri");
}

/// Words of the exceptional-form tables.
#[test]
fn stem_exceptional_forms() {
    assert_eq!(stem_word("skies"), "sky");
    assert_eq!(stem_word("dying"), "die");
    assert_eq!(stem_word("news"), "news");
    assert_eq!(stem_word("proceed"), "proceed");
    assert_eq!(stem_word("inning"), "inning");
}

/// No case folding is performed; suffix rules match lower case only.
#[test]
fn stem_preserves_case() {
    assert_eq!(stem_word("WhaT"), "WhaT");
}

/// More reference reductions across the steps.
#[test]
fn stem_assorted_words() {
    assert_eq!(stem_word("consign"), "consign");
    assert_eq!(stem_word("consigned"), "consign");
    assert_eq!(stem_word("consigning"), "consign");
    assert_eq!(stem_word("knitting"), "knit");
    assert_eq!(stem_word("vilely"), "vile");
    assert_eq!(stem_word("conditional"), "condit");
    assert_eq!(stem_word("happiness"), "happi");
    assert_eq!(stem_word("agreement"), "agreement");
}

/// The plural and past-tense rules on the classic reference words.
#[test]
fn stem_classic_vectors() {
    assert_eq!(stem_word("caresses"), "caress");
    assert_eq!(stem_word("ponies"), "poni");
    assert_eq!(stem_word("cats"), "cat");
    assert_eq!(stem_word("feed"), "feed");
    assert_eq!(stem_word("agreed"), "agre");
    assert_eq!(stem_word("plastered"), "plaster");
    assert_eq!(stem_word("bled"), "bled");
    assert_eq!(stem_word("motoring"), "motor");
    assert_eq!(stem_word("sing"), "sing");
}

/// A number token passes through the pipeline and emerges unchanged.
#[test]
fn stem_number_token() {
    let r = stem(&Token::Number(String::from("123")), StemmingAlgorithm::Porter2);
    assert_eq!(r, Some(String::from("123")));
}

/// Symbol tokens are not stemmable; end markers neither.
#[test]
fn stem_non_stemmable_tokens() {
    assert_eq!(stem(&Token::Symbol(String::from("$#@")), StemmingAlgorithm::Porter2), None);
    assert_eq!(stem(&Token::EOF, StemmingAlgorithm::Porter2), None);
    assert_eq!(stem(&Token::Error, StemmingAlgorithm::Porter2), None);
}

/// An apostrophe suffix is stripped; an inner apostrophe is kept.
#[test]
fn stem_apostrophes() {
    assert_eq!(stem_word("dog's"), "dog");
    assert_eq!(stem_word("don't"), "don't");
}
