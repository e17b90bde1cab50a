use dslop::patterns::{
    detect, detect_aphorism, detect_banned_flourish, detect_banned_negation, detect_but_opener,
    detect_contrastive, detect_declarative_callback, detect_demonstrative_is, detect_double_hyphen,
    detect_em_dash, detect_filler_adverbs, detect_negation_pair, detect_summary_capstone,
    detect_symmetric_negation, detect_weasel_connectives, detect_which_chain,
    pattern_of, PatternKind,
};
use dslop::cadence::detect_three_beat;
use dslop::text::Match;

fn positions(ms: &[Match]) -> Vec<(usize, usize)> {
    ms.iter().map(|m| (m.line_number, m.column)).collect()
}

#[test]
fn em_dash_positions_per_line() {
    let ms = detect_em_dash("a\u{2014}b\nc \u{2014} d");
    assert_eq!(positions(&ms), vec![(1, 2), (2, 3)]);
}

#[test]
fn em_dash_column_counts_characters() {
    let ms = detect_em_dash("\u{e9}\u{e9}\u{2014}x");
    assert_eq!(positions(&ms), vec![(1, 3)]);
}

#[test]
fn em_dash_none() {
    assert!(detect_em_dash("plain - text").is_empty());
}

#[test]
fn double_hyphen_spaced() {
    assert_eq!(positions(&detect_double_hyphen("a -- b")), vec![(1, 3)]);
}

#[test]
fn double_hyphen_needs_spaces() {
    assert!(detect_double_hyphen("a--b").is_empty());
    assert!(detect_double_hyphen("a --b").is_empty());
}

#[test]
fn double_hyphen_skips_longer_runs() {
    assert!(detect_double_hyphen("a --- b").is_empty());
}

#[test]
fn double_hyphen_at_line_edges() {
    assert_eq!(positions(&detect_double_hyphen("-- x")), vec![(1, 1)]);
    assert_eq!(positions(&detect_double_hyphen("x --")), vec![(1, 3)]);
    assert_eq!(positions(&detect_double_hyphen("ok\nx -- y")), vec![(2, 3)]);
}

#[test]
fn contrastive_construction() {
    let ms = detect_contrastive("It's not a bug, it's a feature.");
    assert_eq!(positions(&ms), vec![(1, 1)]);
}

#[test]
fn demonstrative_is_found() {
    let ms = detect_demonstrative_is("Yes. This is the way.");
    assert_eq!(positions(&ms), vec![(1, 6)]);
}

#[test]
fn filler_adverbs_each_word() {
    let ms = detect_filler_adverbs("I really actually think so");
    assert_eq!(positions(&ms), vec![(1, 3), (1, 10)]);
}

#[test]
fn filler_adverbs_whole_words_only() {
    assert!(detect_filler_adverbs("reallyness").is_empty());
}

#[test]
fn weasel_connective_found() {
    assert_eq!(positions(&detect_weasel_connectives("which means that")), vec![(1, 1)]);
}

#[test]
fn banned_flourish_found() {
    assert_eq!(positions(&detect_banned_flourish("ok\nTo be clear, yes")), vec![(2, 1)]);
}

#[test]
fn banned_negation_words() {
    let ms = detect_banned_negation("I do not know. We can't.");
    assert_eq!(positions(&ms), vec![(1, 6), (1, 19)]);
}

#[test]
fn negation_pair_found() {
    assert_eq!(positions(&detect_negation_pair("not this, not that")), vec![(1, 1)]);
}

#[test]
fn symmetric_negation_found() {
    assert_eq!(positions(&detect_symmetric_negation("not slow but fast")), vec![(1, 1)]);
}

#[test]
fn which_chain_three_in_a_sentence() {
    let text = "The box which holds the cat which sleeps which purrs is here. Next one.";
    assert_eq!(positions(&detect_which_chain(text)), vec![(1, 1)]);
}

#[test]
fn which_chain_two_is_fine() {
    assert!(detect_which_chain("The box which holds the cat which sleeps.").is_empty());
}

#[test]
fn but_opener_short_sentence() {
    let ms = detect_but_opener("It rained. But we went out.");
    assert_eq!(positions(&ms), vec![(1, 12)]);
}

#[test]
fn but_opener_long_sentence_is_fine() {
    let text = "It rained. But we went out anyway and had a lovely long walk in the park.";
    assert!(detect_but_opener(text).is_empty());
}

#[test]
fn aphorism_one_liner() {
    assert_eq!(positions(&detect_aphorism("Hope does not scale.")), vec![(1, 1)]);
}

#[test]
fn summary_capstone_at_paragraph_end() {
    let text = "We shipped it on time and under budget.\nThat is the point.";
    assert_eq!(positions(&detect_summary_capstone(text)), vec![(2, 1)]);
    assert_eq!(positions(&detect_declarative_callback(text)), vec![(2, 1)]);
    assert_eq!(positions(&detect_demonstrative_is(text)), vec![(2, 1)]);
}

#[test]
fn summary_capstone_only_last_sentence() {
    let text = "That is the point. We shipped it on time and under budget.";
    assert!(detect_summary_capstone(text).is_empty());
}

#[test]
fn declarative_callback_becomes() {
    let text = "We tried many things over the years.\n\nData becomes truth.";
    assert_eq!(positions(&detect_declarative_callback(text)), vec![(3, 1)]);
}

#[test]
fn three_beat_run_of_four_flags_once() {
    let ms = detect_three_beat("It works. It is fast. It is cheap. It is good.");
    assert_eq!(positions(&ms), vec![(1, 1)]);
}

#[test]
fn three_beat_run_of_six_flags_twice() {
    let ms = detect_three_beat("A b. C d. E f. G h. I j. K l.");
    assert_eq!(positions(&ms), vec![(1, 1), (1, 16)]);
}

#[test]
fn three_beat_broken_by_long_sentence() {
    let text = "A b. C d. This sentence is much longer than seven words in total. E f. G h.";
    assert!(detect_three_beat(text).is_empty());
}

#[test]
fn three_beat_per_paragraph() {
    let ms = detect_three_beat("A b. C d.\n\nE f. G h.");
    assert!(ms.is_empty());
}

#[test]
fn detect_by_kind_matches_detector() {
    let text = "a \u{2014} b";
    assert_eq!(positions(&detect(PatternKind::EmDash, text)), positions(&detect_em_dash(text)));
}

#[test]
fn pattern_names_and_fixes() {
    let p = pattern_of(PatternKind::ThreeBeat);
    assert_eq!(p.name, "three-beat");
    assert!(p.fix.starts_with("three consecutive short sentences"));
    assert_eq!(pattern_of(PatternKind::EmDash).name, "em-dash");
    assert_eq!(pattern_of(PatternKind::DeclarativeCallback).name, "declarative-callback");
}

#[test]
fn three_beat_seven_words_is_not_short() {
    assert!(detect_three_beat("a b c d e f g. a b c d e f g. a b c d e f g.").is_empty());
    let ms = detect_three_beat("a b c d e f. a b c d e f. a b c d e f.");
    assert_eq!(positions(&ms), vec![(1, 1)]);
}
