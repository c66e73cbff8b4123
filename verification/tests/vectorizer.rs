use mcli_core::fixed::SCALE;
use mcli_core::vector::{similarity, DocumentVector};
use mcli_core::vectorizer::TfIdfVectorizer;

fn learned(corpus: &[&str]) -> TfIdfVectorizer {
    let mut v = TfIdfVectorizer::new();
    let docs: Vec<String> = corpus.iter().map(|s| s.to_string()).collect();
    v.learn_vocabulary(&docs);
    v
}

#[test]
fn vectorize_is_idempotent() {
    let v = learned(&["show git working tree status", "record changes to the repository"]);
    let a = v.vectorize("show the status of the working tree");
    let b = v.vectorize("show the status of the working tree");
    assert_eq!(a, b);
}

#[test]
fn self_similarity_is_exactly_one() {
    let v = learned(&["show git working tree status", "record changes to the repository"]);
    let a = v.vectorize("git status");
    assert!(a.norm_sq > 0);
    assert_eq!(similarity(&a, &a), SCALE);
}

#[test]
fn similarity_is_bounded() {
    let v = learned(&[
        "show git working tree status",
        "record changes to the repository",
        "list directory contents",
    ]);
    let texts = ["git status", "record changes", "list directory", "unrelated words here"];
    for t1 in texts.iter() {
        for t2 in texts.iter() {
            let a = v.vectorize(t1);
            let b = v.vectorize(t2);
            let s = similarity(&a, &b);
            assert!(s <= SCALE);
        }
    }
}

#[test]
fn zero_vector_has_zero_similarity() {
    let v = learned(&["show git working tree status"]);
    let a = v.vectorize("git status");
    let z = DocumentVector::zero();
    assert_eq!(similarity(&a, &z), 0);
    assert_eq!(similarity(&z, &z), 0);
}

#[test]
fn empty_text_gives_zero_vector() {
    let v = learned(&["show git working tree status"]);
    let a = v.vectorize("");
    assert_eq!(a.entries.len(), 0);
    assert_eq!(a.norm_sq, 0);
}

#[test]
fn unknown_terms_are_ignored() {
    let v = learned(&["show git working tree status"]);
    let a = v.vectorize("zzz qqq unseen");
    assert_eq!(a.entries.len(), 0);
    assert_eq!(a.norm_sq, 0);
    let b = v.vectorize("zzz status qqq");
    assert_eq!(b.entries.len(), 1);
}

#[test]
fn tokenization_lowercases_and_splits() {
    let v = learned(&["show git working tree status"]);
    let a = v.vectorize("GIT   Status!!");
    let b = v.vectorize("git status");
    assert_eq!(a, b);
}

#[test]
fn stopwords_are_excluded() {
    let mut v = TfIdfVectorizer::with_stopwords(vec![b"the".to_vec(), b"a".to_vec()]);
    v.learn_vocabulary(&vec!["the git status".to_string()]);
    assert_eq!(v.vocab_len(), 2);
    let a = v.vectorize("the the the");
    assert_eq!(a.entries.len(), 0);
}

#[test]
fn vocabulary_only_grows() {
    let mut v = TfIdfVectorizer::new();
    v.learn_vocabulary(&vec!["show git status".to_string()]);
    let n1 = v.vocab_len();
    let before = v.vectorize("git status");
    v.learn_vocabulary(&vec!["record changes to the repository".to_string()]);
    let n2 = v.vocab_len();
    assert!(n2 >= n1);
    // Previously assigned indices have not moved: the same tokens still map
    // to the same vocabulary slots.
    let after = v.vectorize("git status");
    let idx_before: Vec<usize> = before.entries.iter().map(|e| e.0).collect();
    let idx_after: Vec<usize> = after.entries.iter().map(|e| e.0).collect();
    assert_eq!(idx_before, idx_after);
}

#[test]
fn document_count_tracks_corpus() {
    let mut v = TfIdfVectorizer::new();
    assert_eq!(v.doc_count(), 0);
    v.learn_vocabulary(&vec!["one".to_string(), "two".to_string()]);
    assert_eq!(v.doc_count(), 2);
    v.learn_vocabulary(&vec!["three".to_string()]);
    assert_eq!(v.doc_count(), 3);
}

#[test]
fn repeated_corpus_keeps_vocabulary_size() {
    let mut v = TfIdfVectorizer::new();
    v.learn_vocabulary(&vec!["show git status".to_string()]);
    let n1 = v.vocab_len();
    v.learn_vocabulary(&vec!["show git status".to_string()]);
    assert_eq!(v.vocab_len(), n1);
    assert_eq!(v.doc_count(), 2);
}
