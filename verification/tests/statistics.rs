use dslop::frequency::{checked_dispersion_counts, dispersion_counts, stops_before_chunking};
use dslop::metrics::{
    is_abbreviation, is_stop_word, sentence_lengths, sentence_word_counts, tokenize,
    word_ending_at,
};

fn chars(s: &str) -> Vec<char> {
    s.chars().collect()
}

fn words(ts: &[Vec<char>]) -> Vec<String> {
    ts.iter().map(|t| t.iter().collect()).collect()
}

#[test]
fn counts_words_per_sentence() {
    let text = "The cat sat down. The dog ran off quickly! Hi there.";
    assert_eq!(sentence_word_counts(text), vec![4, 5]);
}

#[test]
fn abbreviations_do_not_end_sentences() {
    let text = "Mr. Smith went to the store today. He bought milk and eggs.";
    assert_eq!(sentence_word_counts(text), vec![7, 5]);
}

#[test]
fn initials_do_not_end_sentences() {
    assert_eq!(sentence_word_counts("J. Smith wrote this book here."), vec![6]);
}

#[test]
fn decimals_do_not_end_sentences() {
    assert_eq!(sentence_word_counts("The value is 3.14 today ok."), vec![6]);
}

#[test]
fn trailing_text_counts() {
    assert_eq!(sentence_word_counts("one two three"), vec![3]);
    assert_eq!(sentence_word_counts("one two"), Vec::<usize>::new());
}

#[test]
fn punctuation_runs_end_once() {
    assert_eq!(sentence_word_counts("Really?! Yes it is."), vec![3]);
}

#[test]
fn too_few_sentences_for_statistics() {
    let text = "One two three. Four five six. Seven eight nine. Ten eleven twelve.";
    assert_eq!(sentence_lengths(text), None);
}

#[test]
fn enough_sentences_for_statistics() {
    let text = "One two three. Four five six. Seven eight nine. Ten eleven twelve. A b c d.";
    assert_eq!(sentence_lengths(text), Some(vec![3, 3, 3, 3, 4]));
}

#[test]
fn word_after_wide_punctuation_is_counted() {
    assert_eq!(sentence_word_counts("a\u{2014}b. c d e"), vec![3]);
    assert_eq!(sentence_word_counts("So I don\u{2019}t. We do this. Yes."), vec![3, 3]);
    let text = "I don\u{2019}t know. We do this. They do that. You do it. She does so.";
    assert_eq!(sentence_lengths(text), Some(vec![3, 3, 3, 3, 3]));
}

#[test]
fn dotted_abbreviations_do_not_end_sentences() {
    assert_eq!(sentence_word_counts("We like fruit, e.g. apples and pears."), vec![7]);
    assert_eq!(sentence_word_counts("Use a tool, i.e. a hammer. Then stop now."), vec![6, 3]);
}

#[test]
fn word_before_a_dot() {
    let t = chars("Hello Mr");
    assert_eq!(word_ending_at(&t, 8), &chars("Mr")[..]);
    assert_eq!(word_ending_at(&t, 5), &chars("Hello")[..]);
    assert_eq!(word_ending_at(&t, 6), &chars("")[..]);
}

#[test]
fn word_before_a_dot_after_wide_punctuation() {
    let t = chars("x\u{2014}y.");
    assert_eq!(word_ending_at(&t, 3), &chars("y")[..]);
    let t = chars("I don\u{2019}t.");
    assert_eq!(word_ending_at(&t, 7), &chars("t")[..]);
}

#[test]
fn abbreviations_ignore_case() {
    assert!(is_abbreviation(&chars("DR")));
    assert!(is_abbreviation(&chars("Etc")));
    assert!(is_abbreviation(&chars("blvd")));
    assert!(!is_abbreviation(&chars("Doctor")));
    assert!(!is_abbreviation(&chars("")));
}

#[test]
fn tokens_are_lowercase_words() {
    let t = tokenize("Don't stop, it's A-OK 2024!");
    assert_eq!(words(&t), vec!["don't", "stop", "it's", "ok", "2024"]);
}

#[test]
fn single_wide_character_is_a_token() {
    assert_eq!(words(&tokenize("\u{e9} b")), vec!["\u{e9}"]);
}

#[test]
fn stop_words_exact() {
    assert!(is_stop_word(&chars("the")));
    assert!(is_stop_word(&chars("than")));
    assert!(!is_stop_word(&chars("The")));
    assert!(!is_stop_word(&chars("apple")));
}

fn fruit_text() -> String {
    "apple apple pear the ".repeat(30)
}

#[test]
fn dispersion_counts_per_chunk() {
    let text = fruit_text();
    let spread = dispersion_counts(&text, 50, 2).unwrap();
    assert_eq!(spread.len(), 2);
    assert_eq!(spread[0].word.iter().collect::<String>(), "apple");
    assert_eq!(spread[0].per_chunk, vec![26, 24, 10]);
    assert_eq!(spread[1].word.iter().collect::<String>(), "pear");
    assert_eq!(spread[1].per_chunk, vec![12, 13, 5]);
}

#[test]
fn dispersion_top_n_limits_words() {
    let spread = dispersion_counts(&fruit_text(), 50, 1).unwrap();
    assert_eq!(spread.len(), 1);
    assert_eq!(spread[0].word.iter().collect::<String>(), "apple");
}

#[test]
fn dispersion_needs_two_chunks() {
    assert!(dispersion_counts(&fruit_text(), 200, 20).is_none());
}

#[test]
fn dispersion_needs_enough_words() {
    assert!(dispersion_counts("apple pear apple", 2, 20).is_none());
    assert!(stops_before_chunking("apple pear apple", 20));
}

#[test]
fn dispersion_ignores_stop_words() {
    let text = "the and of ".repeat(40);
    assert!(stops_before_chunking(&text, 20));
    assert!(dispersion_counts(&text, 10, 20).is_none());
}

#[test]
fn dispersion_with_zero_chunk_size() {
    assert!(!stops_before_chunking(&fruit_text(), 2));
    assert!(checked_dispersion_counts(&fruit_text(), 0, 2).is_none());
    assert!(matches!(checked_dispersion_counts(&fruit_text(), 0, 0), Some(None)));
    assert!(matches!(checked_dispersion_counts(&fruit_text(), 50, 2), Some(Some(_))));
}

#[test]
fn chunk_counts_add_up_to_word_count() {
    let spread = dispersion_counts(&fruit_text(), 7, 2).unwrap();
    let apple: usize = spread[0].per_chunk.iter().sum();
    let pear: usize = spread[1].per_chunk.iter().sum();
    assert_eq!(apple, 60);
    assert_eq!(pear, 30);
    assert_eq!(spread[0].per_chunk.len(), 18);
}
