use rust_search::model::{Document, Model};

/// Adding two documents and querying a term only one contains
/// returns exactly that document, with the exact statistics.
#[test]
fn query_single_match() {
    let mut m = Model::new();
    m.add("A", "the cat sat on the mat", 7);
    m.add("B", "the dog sat on the log", 8);

    assert_eq!(m.document_count(), 2);
    assert_eq!(m.document_frequency("cat"), 1);
    assert_eq!(m.document_frequency("the"), 2);

    let res = m.query("cat");
    assert_eq!(res.len(), 1);
    assert_eq!(res[0].path, "A");
    assert_eq!(res[0].freq_sum, 1);
    assert_eq!(res[0].token_count, 6);
}

/// After removing a document its terms return to frequency zero and
/// queries for them come back empty.
#[test]
fn remove_clears_frequencies() {
    let mut m = Model::new();
    m.add("A", "the cat sat on the mat", 7);
    m.add("B", "the dog sat on the log", 8);
    m.remove("A");

    assert_eq!(m.document_count(), 1);
    assert_eq!(m.document_frequency("cat"), 0);
    assert_eq!(m.document_frequency("the"), 1);
    let res = m.query("cat");
    assert_eq!(res.len(), 0);
}

/// Removing an unknown path changes nothing.
#[test]
fn remove_unknown_path_is_noop() {
    let mut m = Model::new();
    m.add("A", "one two three", 1);
    m.remove("B");
    assert_eq!(m.document_count(), 1);
    assert!(m.contains_document("A"));
}

/// Re-adding a path replaces its entry wholesale: one entry stays,
/// and the document frequencies reflect only the latest content.
#[test]
fn re_add_replaces_document() {
    let mut m = Model::new();
    m.add("A", "the cat sat on the mat", 7);
    m.add("A", "the dog sat on the log", 9);

    assert_eq!(m.document_count(), 1);
    assert!(m.contains_document("A"));
    assert_eq!(m.document_frequency("cat"), 0);
    assert_eq!(m.document_frequency("dog"), 1);
    assert_eq!(m.term_frequency("A", "dog"), 1);
    assert_eq!(m.term_frequency("A", "cat"), 0);
    assert_eq!(m.token_count("A"), Some(6));
}

/// The document-frequency map stays consistent over a longer mixed
/// sequence of adds and removes.
#[test]
fn frequencies_over_add_remove_sequence() {
    let mut m = Model::new();
    m.add("a", "red green blue", 1);
    m.add("b", "red red yellow", 2);
    m.add("c", "green red", 3);
    assert_eq!(m.document_frequency("red"), 3);
    assert_eq!(m.document_frequency("green"), 2);
    m.remove("b");
    assert_eq!(m.document_frequency("red"), 2);
    assert_eq!(m.document_frequency("yellow"), 0);
    m.add("b", "yellow yellow", 4);
    assert_eq!(m.document_frequency("red"), 2);
    assert_eq!(m.document_frequency("yellow"), 1);
    m.remove("a");
    m.remove("c");
    assert_eq!(m.document_frequency("red"), 0);
    assert_eq!(m.document_frequency("green"), 0);
    assert_eq!(m.document_frequency("yellow"), 1);
}

/// Matches come back in descending order of term-frequency score.
#[test]
fn query_orders_by_score() {
    let mut m = Model::new();
    m.add("x", "aa bb bb bb", 1);
    m.add("y", "aa aa aa bb", 2);
    m.add("z", "aa", 3);
    m.add("w", "cc dd", 4);

    let res = m.query("aa");
    assert_eq!(res.len(), 3);
    assert_eq!(res[0].path, "z");
    assert_eq!(res[1].path, "y");
    assert_eq!(res[2].path, "x");
}

/// Query text is tokenized and stemmed like document content, and a
/// repeated query term counts twice.
#[test]
fn query_is_stemmed() {
    let mut m = Model::new();
    m.add("A", "running dogs", 1);
    let res = m.query("runs! running");
    assert_eq!(res.len(), 1);
    assert_eq!(res[0].path, "A");
    // both query tokens stem to "run", which occurs once
    assert_eq!(res[0].freq_sum, 2);
}

/// An empty or unmatched query yields an empty result.
#[test]
fn query_without_matches() {
    let mut m = Model::new();
    m.add("A", "some text here", 1);
    assert_eq!(m.query("").len(), 0);
    assert_eq!(m.query("absent").len(), 0);
    assert_eq!(Model::new().query("anything").len(), 0);
}

/// A document of symbols alone has no terms and never matches.
#[test]
fn all_symbol_document() {
    let mut m = Model::new();
    m.add("S", "$$$ ... !!!", 1);
    assert_eq!(m.document_count(), 1);
    assert_eq!(m.token_count("S"), Some(0));
    assert_eq!(m.query("anything").len(), 0);
}

/// A document rebuilt from valid snapshot fields carries them; any
/// malformed combination is rejected.
#[test]
fn document_from_parts() {
    let tf = vec![(String::from("cat"), 2usize), (String::from("mat"), 1usize)];
    let d = Document::from_parts(tf, 3, 42).unwrap();
    assert_eq!(d.token_count(), 3);
    assert_eq!(d.last_modified(), 42);
    assert_eq!(d.term_frequency("cat"), 2);
    assert_eq!(d.term_frequency("dog"), 0);

    // repeated term
    let tf = vec![(String::from("cat"), 1usize), (String::from("cat"), 2usize)];
    assert!(Document::from_parts(tf, 3, 0).is_none());
    // zero term count
    let tf = vec![(String::from("cat"), 0usize)];
    assert!(Document::from_parts(tf, 0, 0).is_none());
    // token count that is not the sum
    let tf = vec![(String::from("cat"), 2usize)];
    assert!(Document::from_parts(tf, 3, 0).is_none());
}

/// Rebuilding an index from its document entries restores the same
/// frequencies; a repeated path is rejected.
#[test]
fn model_from_documents() {
    let mut m = Model::new();
    m.add("A", "the cat sat on the mat", 7);
    m.add("B", "the dog sat on the log", 8);

    let mut entries: Vec<(String, Document)> = Vec::new();
    for (path, doc) in m.documents_entries() {
        let d = Document::from_parts(doc.entries().clone(), doc.token_count(), doc.last_modified())
            .unwrap();
        entries.push((path.clone(), d));
    }
    let m2 = Model::from_documents(entries).unwrap();
    assert_eq!(m2.document_count(), 2);
    assert_eq!(m2.document_frequency("the"), 2);
    assert_eq!(m2.document_frequency("cat"), 1);
    assert_eq!(m2.term_frequency("A", "the"), 2);
    assert_eq!(m2.token_count("B"), Some(6));

    let dup = vec![
        (String::from("p"), Document::from_parts(Vec::new(), 0, 0).unwrap()),
        (String::from("p"), Document::from_parts(Vec::new(), 0, 0).unwrap()),
    ];
    assert!(Model::from_documents(dup).is_none());
}
