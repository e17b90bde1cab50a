//! Detectors that look at whole sentences: which-chains, "But" openers and
//! short aphorisms.
use vstd::prelude::*;
use vstd::utf8::{decode_utf8, is_char_boundary};

use crate::chars::{
    chars_of, count_words_from, lead_white, lemma_lead_white_boundary, lead_white_bytes, lead_white_count, lead_white_len,
    words_in,
};
use crate::matcher::{find_spans, regex_spans};
use crate::prose::{range_ok, sentence_range, sentences, sentences_in, Sentence};
use crate::text::{
    Match, byte_to_line_col, bytes_of, line_col, line_starts, line_starts_spec, match_positions,
    sub_str, lemma_ends_are_boundaries,
};

verus! {

broadcast use vstd::utf8::encode_utf8_valid_utf8;

pub const WHICH_RE: &'static str = r"(?i)\bwhich\b";

pub const APHORISM_RE: &'static str = r"(?i)^\s*\S+\s+(?:does|do|doesn'?t|don'?t)(?:\s+not)?\s+\w+\s*[.!?]+\s*$";

/// The positions `at(x)` of the items `x` of `xs` for which `keep(x)`, in order.
pub open spec fn select(
    xs: Seq<(int, int)>,
    keep: spec_fn((int, int)) -> bool,
    at: spec_fn((int, int)) -> (int, int),
) -> Seq<(int, int)>
    decreases xs.len(),
{
    if xs.len() == 0 {
        seq![]
    } else {
        let prev = select(xs.drop_last(), keep, at);
        if keep(xs.last()) {
            prev.push(at(xs.last()))
        } else {
            prev
        }
    }
}

/// The characters of the byte range `r` of `b`.
pub open spec fn range_text(b: Seq<u8>, r: (int, int)) -> Seq<char> {
    decode_utf8(b.subrange(r.0, r.1))
}

/// The regular expression matches somewhere in `text`.
pub open spec fn regex_hits(pattern: Seq<char>, text: Seq<char>) -> bool {
    match regex_spans(pattern, text) {
        Some(sp) => sp.len() > 0,
        None => false,
    }
}

/// Number of matches of the regular expression in `text`.
pub open spec fn regex_count(pattern: Seq<char>, text: Seq<char>) -> int {
    match regex_spans(pattern, text) {
        Some(sp) => sp.len() as int,
        None => 0,
    }
}

/// Line and column of the start of a range.
pub open spec fn start_pos(b: Seq<u8>) -> spec_fn((int, int)) -> (int, int) {
    |r: (int, int)| line_col(b, r.0)
}

/// Line and column of the first character of a range that is not whitespace.
pub open spec fn trimmed_pos(b: Seq<u8>) -> spec_fn((int, int)) -> (int, int) {
    |r: (int, int)| line_col(b, r.0 + lead_white_bytes(range_text(b, r)))
}

/// A sentence with three or more "which".
pub open spec fn which_keep(b: Seq<u8>) -> spec_fn((int, int)) -> bool {
    |r: (int, int)| regex_count(WHICH_RE@, range_text(b, r)) >= 3
}

/// The text, once ASCII-lower-cased, starts with "but ".
pub open spec fn opens_with_but(t: Seq<char>) -> bool {
    &&& t.len() >= 4
    &&& (t[0] == 'b' || t[0] == 'B')
    &&& (t[1] == 'u' || t[1] == 'U')
    &&& (t[2] == 't' || t[2] == 'T')
    &&& t[3] == ' '
}

/// A sentence that, without its leading whitespace, starts with "But " and
/// has at most eight words.
pub open spec fn but_keep(b: Seq<u8>) -> spec_fn((int, int)) -> bool {
    |r: (int, int)|
        {
            let cs = range_text(b, r);
            let t = cs.skip(lead_white(cs));
            opens_with_but(t) && words_in(t) <= 8
        }
}

/// A sentence of at most six words of the form "X does not Y."
pub open spec fn aphorism_keep(b: Seq<u8>) -> spec_fn((int, int)) -> bool {
    |r: (int, int)|
        words_in(range_text(b, r)) <= 6 && regex_hits(APHORISM_RE@, range_text(b, r))
}

/// The sentences of the whole text.
pub open spec fn all_sentences(b: Seq<u8>) -> Seq<(int, int)> {
    sentences_in(b, 0, b.len() as int)
}

/// Which of the sentence detectors of this module to run.
pub enum SentenceRule {
    WhichChain,
    ButOpener,
    Aphorism,
}

pub open spec fn rule_keep(rule: SentenceRule, b: Seq<u8>) -> spec_fn((int, int)) -> bool {
    match rule {
        SentenceRule::WhichChain => which_keep(b),
        SentenceRule::ButOpener => but_keep(b),
        SentenceRule::Aphorism => aphorism_keep(b),
    }
}

pub open spec fn rule_at(rule: SentenceRule, b: Seq<u8>) -> spec_fn((int, int)) -> (int, int) {
    match rule {
        SentenceRule::WhichChain => start_pos(b),
        _ => trimmed_pos(b),
    }
}

/// Positions that a sentence rule reports for a text.
pub open spec fn rule_positions(rule: SentenceRule, b: Seq<u8>) -> Seq<(int, int)> {
    select(all_sentences(b), rule_keep(rule, b), rule_at(rule, b))
}

/// Decide one sentence: whether the rule fires, and the byte offset to report.
fn judge(rule: &SentenceRule, contents: &str, s: &Sentence) -> (r: (bool, usize))
    requires
        range_ok(s.start, s.end, bytes_of(contents)),
    ensures
        r.0 == rule_keep(*rule, bytes_of(contents))(sentence_range(*s)),
        r.0 ==> r.1 <= bytes_of(contents).len(),
        r.0 ==> is_char_boundary(bytes_of(contents), r.1 as int),
        r.0 ==> line_col(bytes_of(contents), r.1 as int) == rule_at(*rule, bytes_of(contents))(
            sentence_range(*s),
        ),
{
    let ghost b = bytes_of(contents);
    let text = sub_str(contents, s.start, s.end);
    assert(text@ == range_text(b, sentence_range(*s)));
    match rule {
        SentenceRule::WhichChain => {
            let count = match find_spans(WHICH_RE, text) {
                Some(v) => v.len(),
                None => 0,
            };
            (count >= 3, s.start)
        },
        SentenceRule::ButOpener => {
            let cs = chars_of(text);
            let n = lead_white_count(&cs);
            let ghost t = cs@.skip(n as int);
            let fires = if cs.len() - n >= 4 {
                (cs[n] == 'b' || cs[n] == 'B') && (cs[n + 1] == 'u' || cs[n + 1] == 'U') && (cs[n
                    + 2] == 't' || cs[n + 2] == 'T') && cs[n + 3] == ' '
            } else {
                false
            };
            assert(fires == opens_with_but(t));
            let fires = fires && count_words_from(&cs, n) <= 8;
            let lead = lead_white_len(text);
            proof {
                lemma_lead_white_boundary(b, s.start as int, s.end as int, text@);
            }
            (fires, s.start + lead)
        },
        SentenceRule::Aphorism => {
            let cs = chars_of(text);
            let words = count_words_from(&cs, 0);
            assert(cs@.skip(0) =~= cs@);
            let hit = match find_spans(APHORISM_RE, text) {
                Some(v) => v.len() > 0,
                None => false,
            };
            let lead = lead_white_len(text);
            proof {
                lemma_lead_white_boundary(b, s.start as int, s.end as int, text@);
            }
            (words <= 6 && hit, s.start + lead)
        },
    }
}

/// Run a sentence rule over the whole text.
pub fn detect_sentence_rule(rule: SentenceRule, contents: &str) -> (r: Vec<Match>)
    requires
        bytes_of(contents).len() < usize::MAX,
    ensures
        match_positions(r@) == rule_positions(rule, bytes_of(contents)),
{
    let ghost b = bytes_of(contents);
    let len = contents.as_bytes().len();
    proof {
        lemma_ends_are_boundaries(b);
    }
    let starts = line_starts(contents);
    let sents = sentences(contents, 0, len);
    let ghost xs = sents@.map_values(|x: Sentence| sentence_range(x));
    let ghost keep = rule_keep(rule, b);
    let ghost at = rule_at(rule, b);
    let mut out: Vec<Match> = Vec::new();
    let mut i: usize = 0;
    while i < sents.len()
        invariant
            b == bytes_of(contents),
            b.len() < usize::MAX,
            starts@ == line_starts_spec(b),
            xs == sents@.map_values(|x: Sentence| sentence_range(x)),
            xs == all_sentences(b),
            keep == rule_keep(rule, b),
            at == rule_at(rule, b),
            forall|k: int|
                #![trigger sents@[k]]
                0 <= k < sents@.len() ==> range_ok(sents@[k].start, sents@[k].end, b),
            i <= sents@.len(),
            match_positions(out@) == select(xs.take(i as int), keep, at),
        decreases sents@.len() - i,
    {
        let s = &sents[i];
        assert(xs.take(i + 1).drop_last() =~= xs.take(i as int));
        assert(xs.take(i + 1).last() == sentence_range(*s));
        let (fires, offset) = judge(&rule, contents, s);
        if fires {
            let (line, col) = byte_to_line_col(contents, starts.as_slice(), offset);
            let ghost before = out@;
            out.push(Match { line_number: line, column: col });
            assert(match_positions(out@) =~= match_positions(before).push(
                (line as int, col as int),
            ));
        }
        i = i + 1;
    }
    assert(xs.take(xs.len() as int) =~= xs);
    out
}

} // verus!
