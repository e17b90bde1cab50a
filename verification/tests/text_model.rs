use dslop::chars::word_count;
use dslop::prose::{paragraphs, sentences};
use dslop::text::{byte_to_line_col, line_starts};

fn sentence_ranges(text: &str) -> Vec<(usize, usize)> {
    sentences(text, 0, text.len()).iter().map(|s| (s.start, s.end)).collect()
}

#[test]
fn line_starts_after_each_newline() {
    assert_eq!(line_starts("ab\ncd\n"), vec![0, 3, 6]);
    assert_eq!(line_starts(""), vec![0]);
}

#[test]
fn line_and_column_of_offsets() {
    let text = "ab\ncd\n";
    let starts = line_starts(text);
    assert_eq!(byte_to_line_col(text, &starts, 0), (1, 1));
    assert_eq!(byte_to_line_col(text, &starts, 4), (2, 2));
    assert_eq!(byte_to_line_col(text, &starts, 3), (2, 1));
}

#[test]
fn offset_past_end_is_clamped() {
    let text = "ab\ncd\n";
    let starts = line_starts(text);
    assert_eq!(byte_to_line_col(text, &starts, 100), (3, 1));
}

#[test]
fn column_counts_characters_not_bytes() {
    let text = "\u{e9}\nx";
    let starts = line_starts(text);
    assert_eq!(starts, vec![0, 3]);
    assert_eq!(byte_to_line_col(text, &starts, 2), (1, 2));
}

#[test]
fn sentences_keep_terminators() {
    assert_eq!(sentence_ranges("Hi there. Bye!"), vec![(0, 9), (10, 14)]);
}

#[test]
fn sentences_with_ellipsis() {
    assert_eq!(sentence_ranges("Wait... what?"), vec![(0, 7), (8, 13)]);
}

#[test]
fn sentences_ignore_inner_periods() {
    assert_eq!(sentence_ranges("3.14 is pi."), vec![(0, 11)]);
}

#[test]
fn sentences_trailing_fragment_and_blank() {
    assert_eq!(sentence_ranges("One. two"), vec![(0, 4), (5, 8)]);
    assert!(sentence_ranges("   ").is_empty());
    assert!(sentence_ranges("").is_empty());
}

#[test]
fn sentences_within_a_range() {
    let text = "Skip. Keep this. Keep that.";
    let r: Vec<(usize, usize)> = sentences(text, 6, text.len()).iter().map(|s| (s.start, s.end)).collect();
    assert_eq!(r, vec![(6, 16), (17, 27)]);
}

#[test]
fn paragraphs_split_at_blank_lines() {
    let r: Vec<(usize, usize)> = paragraphs("a\n\nb\n  \nc").iter().map(|p| (p.start, p.end)).collect();
    assert_eq!(r, vec![(0, 1), (3, 4), (8, 9)]);
}

#[test]
fn paragraphs_skip_blank_ones() {
    let r: Vec<(usize, usize)> = paragraphs("\n\n\na\n\n").iter().map(|p| (p.start, p.end)).collect();
    assert_eq!(r, vec![(2, 4)]);
}

#[test]
fn word_count_splits_on_whitespace() {
    assert_eq!(word_count("  a b\tc\n"), 3);
    assert_eq!(word_count(""), 0);
    assert_eq!(word_count("one\u{a0}two"), 2);
}
