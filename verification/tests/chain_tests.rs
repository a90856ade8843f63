use markov::chain::{
    generate_sentence, generate_sentence_with_limit, generate_sentences, generate_words,
    sentence_starters, Error,
};
use markov::index::generate_bigrams;

#[test]
fn word_counts_below_two_are_invalid() {
    let index = generate_bigrams("a b c a b d a b c");
    assert_eq!(generate_words(&index, 0), Err(Error::InvalidCount));
    assert_eq!(generate_words(&index, 1), Err(Error::InvalidCount));
}

#[test]
fn zero_sentences_are_invalid() {
    let index = generate_bigrams("Alpha beta gamma. Alpha beta gamma.");
    assert_eq!(generate_sentences(&index, 0), Err(Error::InvalidCount));
}

#[test]
fn generation_against_an_empty_index_reports_empty_index() {
    let index = generate_bigrams("word");
    assert_eq!(generate_words(&index, 5), Err(Error::EmptyIndex));
    assert_eq!(generate_sentence(&index), Err(Error::EmptyIndex));
    assert_eq!(generate_sentences(&index, 2), Err(Error::EmptyIndex));
}

#[test]
fn generate_words_returns_exactly_the_requested_count() {
    // Every pair the walk can reach is again a key, so generation cannot fail.
    let index = generate_bigrams("a b a b a b a b");
    for _ in 0..20 {
        let text = generate_words(&index, 5).expect("a closed index cannot fail");
        assert_eq!(text.split_whitespace().count(), 5);
        for word in text.split_whitespace() {
            assert!(word == "a" || word == "b");
        }
    }
}

#[test]
fn generate_words_runs_out_of_successors_on_a_dead_end() {
    // The only walk is a b c, and (b, c) is never a key.
    let index = generate_bigrams("a b c");
    assert_eq!(generate_words(&index, 3), Ok("a b c".to_string()));
    assert_eq!(generate_words(&index, 4), Err(Error::NoSuccessors));
}

#[test]
fn sentence_starters_are_the_uppercase_led_keys() {
    let index = generate_bigrams("Alpha beta gamma. Delta epsilon zeta.");
    let starters = sentence_starters(&index);
    assert!(starters.contains(&("Alpha".to_string(), "beta".to_string())));
    assert!(starters.contains(&("Delta".to_string(), "epsilon".to_string())));
    for (w1, _) in &starters {
        assert!(w1.chars().next().unwrap().is_uppercase());
    }
    assert_eq!(starters.len(), 2);
}

#[test]
fn generated_sentences_end_in_terminal_punctuation() {
    let index = generate_bigrams("A b. A b. A b.");
    for _ in 0..20 {
        let sentence = generate_sentence(&index).expect("this corpus always yields a sentence");
        let last = sentence.chars().last().unwrap();
        assert!(last == '.' || last == '?' || last == '!');
        assert!(sentence.starts_with("A "));
    }
}

#[test]
fn a_corpus_without_uppercase_words_has_no_sentence_starters() {
    let index = generate_bigrams("a b c d e f g");
    assert_eq!(generate_sentence(&index), Err(Error::NoSentenceStarters));
    assert_eq!(generate_sentences(&index, 1), Err(Error::NoSentenceStarters));
}

#[test]
fn the_word_limit_stops_a_sentence_that_cannot_end() {
    // No word ends in terminal punctuation, so the walk can never finish.
    let index = generate_bigrams("A b A b A b A b");
    assert_eq!(
        generate_sentence_with_limit(&index, 50),
        Err(Error::NoSuccessors)
    );
}

#[test]
fn multiple_sentences_are_joined_by_blank_lines() {
    let index = generate_bigrams("A b. A b. A b.");
    let text = generate_sentences(&index, 3).expect("this corpus always yields sentences");
    let parts: Vec<&str> = text.split("\n\n").collect();
    assert_eq!(parts.len(), 3);
    for part in parts {
        let last = part.chars().last().unwrap();
        assert!(last == '.' || last == '?' || last == '!');
    }
    let last = text.chars().last().unwrap();
    assert!(last == '.' || last == '?' || last == '!');
}

#[test]
fn error_messages_name_the_failure() {
    assert_eq!(
        Error::EmptyIndex.message(),
        "No starting words could be found"
    );
    assert_eq!(
        Error::NoSentenceStarters.message(),
        "No sentence starters could be found"
    );
    assert_eq!(
        Error::NoSuccessors.message(),
        "Couldn't generate next word from bigram"
    );
    assert_eq!(
        Error::InvalidCount.message(),
        "Requested amount is below the minimum"
    );
}
