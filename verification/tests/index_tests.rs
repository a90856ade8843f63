use markov::index::generate_bigrams;

#[test]
fn empty_corpus_yields_empty_index() {
    let index = generate_bigrams("");
    assert_eq!(index.keys().len(), 0);
}

#[test]
fn whitespace_only_corpus_yields_empty_index() {
    let index = generate_bigrams("   \t \n  ");
    assert_eq!(index.keys().len(), 0);
}

#[test]
fn single_word_corpus_yields_empty_index() {
    let index = generate_bigrams("word");
    assert_eq!(index.keys().len(), 0);
}

#[test]
fn two_word_corpus_yields_empty_index() {
    let index = generate_bigrams("two words");
    assert_eq!(index.keys().len(), 0);
}

#[test]
fn three_word_corpus_yields_one_key() {
    let index = generate_bigrams("a b c");
    let keys = index.keys();
    assert_eq!(keys.len(), 1);
    assert_eq!(keys[0], ("a".to_string(), "b".to_string()));
    assert_eq!(index.lookup("a", "b"), Some(&vec!["c".to_string()]));
}

#[test]
fn index_contents_reflect_first_occurrence_then_append_order() {
    let index = generate_bigrams("a b c a b d");
    assert_eq!(
        index.lookup("a", "b"),
        Some(&vec!["c".to_string(), "d".to_string()])
    );
    assert_eq!(index.lookup("b", "c"), Some(&vec!["a".to_string()]));
    assert_eq!(index.lookup("c", "a"), Some(&vec!["b".to_string()]));
    assert_eq!(index.lookup("b", "d"), None);
    assert_eq!(index.keys().len(), 3);
}

#[test]
fn tokenization_collapses_whitespace_runs() {
    let index = generate_bigrams("  a \t\t b \n\n c  ");
    assert_eq!(index.lookup("a", "b"), Some(&vec!["c".to_string()]));
    assert_eq!(index.keys().len(), 1);
}

#[test]
fn tokenization_splits_on_unicode_whitespace() {
    let index = generate_bigrams("a\u{00A0}b\u{2003}c");
    assert_eq!(index.lookup("a", "b"), Some(&vec!["c".to_string()]));
}

#[test]
fn tokens_keep_case_and_punctuation() {
    let index = generate_bigrams("One two. One two. One");
    assert_eq!(
        index.lookup("One", "two."),
        Some(&vec!["One".to_string(), "One".to_string()])
    );
    assert_eq!(index.lookup("one", "two."), None);
    assert_eq!(index.lookup("One", "two"), None);
}

#[test]
fn rebuilding_from_the_same_corpus_is_deterministic() {
    let corpus = "the quick brown fox jumps over the quick brown dog the quick fox";
    let a = generate_bigrams(corpus);
    let b = generate_bigrams(corpus);
    let keys_a = a.keys();
    let keys_b = b.keys();
    assert_eq!(keys_a, keys_b);
    for (w1, w2) in keys_a {
        assert_eq!(a.lookup(&w1, &w2), b.lookup(&w1, &w2));
    }
}

#[test]
fn every_key_has_a_nonempty_successor_list() {
    let corpus = "Alpha beta gamma. Delta epsilon zeta. Alpha beta delta";
    let index = generate_bigrams(corpus);
    let keys = index.keys();
    assert!(!keys.is_empty());
    for (w1, w2) in keys {
        let succs = index.lookup(&w1, &w2).expect("key from keys() must be present");
        assert!(!succs.is_empty());
    }
}
