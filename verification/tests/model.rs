use wecraw::model::{Document, Model};

fn model_with(pages: &[(&str, &str)]) -> Model {
    let mut model = Model::new();
    for (url, content) in pages {
        model.insert_document(url.to_string(), content.to_string());
    }
    model
}

#[test]
fn new_document_is_empty() {
    let d = Document::new();
    assert_eq!(d.count(), 0);
    assert_eq!(d.term_frequency("x"), 0);
    assert!(d.terms().is_empty());
}

#[test]
fn new_model_is_empty() {
    let m = Model::new();
    assert_eq!(m.len(), 0);
    assert!(m.urls().is_empty());
    assert!(m.vocabulary().is_empty());
    assert_eq!(m.insertions(), 0);
}

#[test]
fn insert_counts_terms() {
    let m = model_with(&[("http://a", "the cat and the hat")]);
    let d = m.document("http://a").unwrap();
    assert_eq!(d.count(), 5);
    assert_eq!(d.term_frequency("the"), 2);
    assert_eq!(d.term_frequency("cat"), 1);
    assert_eq!(d.term_frequency("dog"), 0);
    assert_eq!(d.terms().len(), 4);
}

#[test]
fn empty_pieces_are_terms_too() {
    let m = model_with(&[("u", "a  b")]);
    let d = m.document("u").unwrap();
    assert_eq!(d.count(), 3);
    assert_eq!(d.term_frequency(""), 1);
    assert_eq!(m.document_frequency(""), Some(1));
}

#[test]
fn document_frequency_counts_documents() {
    let m = model_with(&[("u1", "red green"), ("u2", "red blue red"), ("u3", "blue")]);
    assert_eq!(m.document_frequency("red"), Some(2));
    assert_eq!(m.document_frequency("green"), Some(1));
    assert_eq!(m.document_frequency("blue"), Some(2));
    assert_eq!(m.document_frequency("yellow"), None);
    assert_eq!(m.len(), 3);
    assert_eq!(m.urls(), &vec!["u1".to_string(), "u2".to_string(), "u3".to_string()]);
}

#[test]
fn reindexing_a_url_replaces_the_document_and_its_frequencies() {
    let m = model_with(&[("u", "old words"), ("u", "new words")]);
    assert_eq!(m.len(), 1);
    let d = m.document("u").unwrap();
    assert_eq!(d.term_frequency("old"), 0);
    assert_eq!(d.term_frequency("new"), 1);
    assert_eq!(m.document_frequency("words"), Some(1));
    assert_eq!(m.document_frequency("old"), None);
    assert_eq!(m.document_frequency("new"), Some(1));
    assert!(!m.vocabulary().contains(&"old".to_string()));
    assert_eq!(m.insertions(), 2);
}

#[test]
fn query_statistics_per_document() {
    let m = model_with(&[("u1", "rust is fast"), ("u2", "go is fast fast")]);
    let rows = m.query_statistics("fast rust");
    assert_eq!(rows.len(), 2);
    assert_eq!(rows[0].url, "u1");
    assert_eq!(rows[0].count, 3);
    assert_eq!(rows[0].terms.len(), 2);
    assert_eq!(rows[0].terms[0].frequency, 1);
    assert_eq!(rows[0].terms[0].document_frequency, 2);
    assert_eq!(rows[0].terms[1].frequency, 1);
    assert_eq!(rows[0].terms[1].document_frequency, 1);
    assert_eq!(rows[1].url, "u2");
    assert_eq!(rows[1].count, 4);
    assert_eq!(rows[1].terms[0].frequency, 2);
    assert_eq!(rows[1].terms[1].frequency, 0);
}

#[test]
fn unknown_query_terms_have_document_frequency_one() {
    let m = model_with(&[("u1", "alpha")]);
    let rows = m.query_statistics("omega");
    assert_eq!(rows[0].terms[0].frequency, 0);
    assert_eq!(rows[0].terms[0].document_frequency, 1);
}

#[test]
fn restore_rebuilds_a_stored_model() {
    let mut d = Document::new();
    d.set_count(3);
    d.set_term("a".to_string(), 2);
    d.set_term("b".to_string(), 1);
    d.set_term("a".to_string(), 2);
    assert_eq!(d.terms().len(), 2);
    let mut m = Model::new();
    m.restore_document("u".to_string(), d);
    m.restore_df("a".to_string(), 4);
    m.restore_df("b".to_string(), 1);
    assert_eq!(m.document("u").unwrap().term_frequency("a"), 2);
    assert_eq!(m.document("u").unwrap().count(), 3);
    assert_eq!(m.document_frequency("a"), Some(4));
    assert_eq!(m.insertions(), 4);
    assert_eq!(m.vocabulary().len(), 2);
}

#[test]
fn reindexing_keeps_frequencies_of_other_pages() {
    let m = model_with(&[("u1", "a b"), ("u2", "b c"), ("u1", "c")]);
    assert_eq!(m.document_frequency("a"), None);
    assert_eq!(m.document_frequency("b"), Some(1));
    assert_eq!(m.document_frequency("c"), Some(2));
    assert_eq!(m.vocabulary().len(), 2);
}

#[test]
fn frequencies_add_up_to_the_count() {
    let m = model_with(&[("u", "x y x, z x")]);
    let d = m.document("u").unwrap();
    let total: usize = d.terms().iter().map(|t| d.term_frequency(t)).sum();
    assert_eq!(total, d.count());
    assert_eq!(d.count(), 6);
}

fn stored_page(terms: &[&str]) -> Document {
    let mut d = Document::new();
    d.set_count(terms.len());
    for t in terms {
        d.set_term(t.to_string(), 1);
    }
    d
}

#[test]
fn reindexing_counts_the_other_pages_again() {
    let mut m = Model::new();
    m.restore_document("a".to_string(), stored_page(&["t"]));
    m.restore_document("u".to_string(), stored_page(&["t", "s"]));
    m.restore_df("t".to_string(), 1);
    m.restore_df("s".to_string(), 7);
    assert_eq!(m.insertions(), 7);
    m.insert_document("u".to_string(), "x".to_string());
    assert_eq!(m.document_frequency("t"), Some(1));
    assert_eq!(m.document_frequency("s"), None);
    assert_eq!(m.document_frequency("x"), Some(1));
    assert!(m.vocabulary().contains(&"t".to_string()));
    assert!(!m.vocabulary().contains(&"s".to_string()));
}

#[test]
fn reindexing_gives_a_missing_frequency_back() {
    let mut m = Model::new();
    m.restore_document("a".to_string(), stored_page(&["t"]));
    m.restore_document("b".to_string(), stored_page(&["t"]));
    m.restore_document("u".to_string(), stored_page(&["t"]));
    assert_eq!(m.document_frequency("t"), None);
    m.insert_document("u".to_string(), "y".to_string());
    assert_eq!(m.document_frequency("t"), Some(2));
    assert_eq!(m.insertions(), 4);
}

#[test]
fn restoring_pages_raises_the_insertion_count() {
    let mut m = Model::new();
    m.restore_document("a".to_string(), stored_page(&["t"]));
    m.restore_document("b".to_string(), stored_page(&["t"]));
    m.restore_document("a".to_string(), stored_page(&["s"]));
    assert_eq!(m.insertions(), 2);
    assert_eq!(m.len(), 2);
}
