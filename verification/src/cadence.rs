//! Detectors that look at paragraphs: paragraph-final capstones and
//! callbacks, and runs of three short sentences.
use vstd::prelude::*;

use crate::chars::{words_in, word_count};
use crate::matcher::find_spans;
use crate::prose::{
    paragraph_range, paragraphs, paragraphs_of, range_ok, sentence_range, sentences, sentences_in,
    Paragraph, Sentence,
};
use crate::rhetoric::{range_text, regex_hits, select, trimmed_pos};
use crate::chars::{lead_white_len, lemma_lead_white_boundary};
use crate::text::{
    Match, byte_to_line_col, bytes_of, line_col, line_starts, line_starts_spec, match_positions,
    sub_str,
};

verus! {

broadcast use vstd::utf8::encode_utf8_valid_utf8;

pub const SUMMARY_CAPSTONE_RE: &'static str = r"(?i)^\s*(?:that|this|it|here)(?:'s| is| was| will be)(?:\s+(?:the|a|our))?\s+\w{1,12}\s*[.!?]+\s*$";

pub const CALLBACK_THAT_RE: &'static str = r"(?i)^\s*(?:that|this) is the \w+\s*\.\s*$";

pub const CALLBACK_BECOMES_RE: &'static str = r"^\s*[A-Z][a-zA-Z]+ becomes [a-z][a-zA-Z]+\s*\.\s*$";

/// The sentences of paragraph `p`.
pub open spec fn para_sentences(b: Seq<u8>, p: (int, int)) -> Seq<(int, int)> {
    sentences_in(b, p.0, p.1)
}

/// The last sentence of paragraph `p` is a capstone ("That is the X.").
pub open spec fn capstone_keep(b: Seq<u8>) -> spec_fn((int, int)) -> bool {
    |p: (int, int)|
        para_sentences(b, p).len() > 0 && regex_hits(
            SUMMARY_CAPSTONE_RE@,
            range_text(b, para_sentences(b, p).last()),
        )
}

/// The last sentence of paragraph `p` is a declarative callback fragment.
pub open spec fn callback_keep(b: Seq<u8>) -> spec_fn((int, int)) -> bool {
    |p: (int, int)|
        para_sentences(b, p).len() > 0 && (regex_hits(
            CALLBACK_THAT_RE@,
            range_text(b, para_sentences(b, p).last()),
        ) || regex_hits(CALLBACK_BECOMES_RE@, range_text(b, para_sentences(b, p).last())))
}

/// Where a paragraph-final sentence is reported: its first non-whitespace character.
pub open spec fn last_sentence_pos(b: Seq<u8>) -> spec_fn((int, int)) -> (int, int) {
    |p: (int, int)| trimmed_pos(b)(para_sentences(b, p).last())
}

/// Which of the paragraph-final detectors to run.
pub enum EndingRule {
    SummaryCapstone,
    DeclarativeCallback,
}

pub open spec fn ending_keep(rule: EndingRule, b: Seq<u8>) -> spec_fn((int, int)) -> bool {
    match rule {
        EndingRule::SummaryCapstone => capstone_keep(b),
        EndingRule::DeclarativeCallback => callback_keep(b),
    }
}

/// Positions that a paragraph-final rule reports for a text.
pub open spec fn ending_positions(rule: EndingRule, text: Seq<char>, b: Seq<u8>) -> Seq<(int, int)> {
    select(paragraphs_of(text), ending_keep(rule, b), last_sentence_pos(b))
}

fn hits(pattern: &str, text: &str) -> (r: bool)
    ensures
        r == regex_hits(pattern@, text@),
{
    match find_spans(pattern, text) {
        Some(v) => v.len() > 0,
        None => false,
    }
}

/// Run a paragraph-final rule over the whole text.
pub fn detect_ending_rule(rule: EndingRule, contents: &str) -> (r: Vec<Match>)
    requires
        bytes_of(contents).len() < usize::MAX,
    ensures
        match_positions(r@) == ending_positions(rule, contents@, bytes_of(contents)),
{
    let ghost b = bytes_of(contents);
    let starts = line_starts(contents);
    let ps = paragraphs(contents);
    let ghost xs = ps@.map_values(|x: Paragraph| paragraph_range(x));
    let ghost keep = ending_keep(rule, b);
    let ghost at = last_sentence_pos(b);
    let mut out: Vec<Match> = Vec::new();
    let mut i: usize = 0;
    while i < ps.len()
        invariant
            b == bytes_of(contents),
            b.len() < usize::MAX,
            starts@ == line_starts_spec(b),
            xs == ps@.map_values(|x: Paragraph| paragraph_range(x)),
            xs == paragraphs_of(contents@),
            keep == ending_keep(rule, b),
            at == last_sentence_pos(b),
            forall|k: int|
                #![trigger ps@[k]]
                0 <= k < ps@.len() ==> range_ok(ps@[k].start, ps@[k].end, b),
            i <= ps@.len(),
            match_positions(out@) == select(xs.take(i as int), keep, at),
        decreases ps@.len() - i,
    {
        let p = &ps[i];
        assert(xs.take(i + 1).drop_last() =~= xs.take(i as int));
        assert(xs.take(i + 1).last() == paragraph_range(*p));
        let sents = sentences(contents, p.start, p.end);
        let ghost ss = sents@.map_values(|x: Sentence| sentence_range(x));
        assert(ss == para_sentences(b, paragraph_range(*p)));
        if sents.len() > 0 {
            let last = &sents[sents.len() - 1];
            assert(ss.last() == sentence_range(*last));
            assert(range_ok(last.start, last.end, b));
            let text = sub_str(contents, last.start, last.end);
            assert(text@ == range_text(b, ss.last()));
            let fires = match rule {
                EndingRule::SummaryCapstone => hits(SUMMARY_CAPSTONE_RE, text),
                EndingRule::DeclarativeCallback => hits(CALLBACK_THAT_RE, text) || hits(
                    CALLBACK_BECOMES_RE,
                    text,
                ),
            };
            if fires {
                let lead = lead_white_len(text);
                proof {
                    lemma_lead_white_boundary(b, last.start as int, last.end as int, text@);
                }
                let (line, col) = byte_to_line_col(contents, starts.as_slice(), last.start + lead);
                let ghost before = out@;
                out.push(Match { line_number: line, column: col });
                assert(match_positions(out@) =~= match_positions(before).push(
                    (line as int, col as int),
                ));
            }
        }
        i = i + 1;
    }
    assert(xs.take(xs.len() as int) =~= xs);
    out
}

// ---- three short sentences in a row ----

/// A sentence of fewer than seven words.
pub open spec fn is_short(b: Seq<u8>, s: (int, int)) -> bool {
    words_in(range_text(b, s)) < 7
}

/// Number of consecutive short sentences right before index `i`.
pub open spec fn run_before(b: Seq<u8>, ss: Seq<(int, int)>, i: int) -> int
    decreases i,
{
    if i <= 0 {
        0
    } else if is_short(b, ss[i - 1]) {
        run_before(b, ss, i - 1) + 1
    } else {
        0
    }
}

/// Sentence `i` opens a beat: it and the next two are short, and the
/// short run before it has a length divisible by three (so a run of four
/// or five short sentences is reported once, a run of six twice).
pub open spec fn opens_beat(b: Seq<u8>, ss: Seq<(int, int)>, i: int) -> bool {
    &&& 0 <= i
    &&& i + 2 < ss.len()
    &&& is_short(b, ss[i])
    &&& is_short(b, ss[i + 1])
    &&& is_short(b, ss[i + 2])
    &&& run_before(b, ss, i) % 3 == 0
}

/// Positions of the beats that open before index `n`.
pub open spec fn beats_upto(b: Seq<u8>, ss: Seq<(int, int)>, n: int) -> Seq<(int, int)>
    decreases n,
{
    if n <= 0 {
        seq![]
    } else if opens_beat(b, ss, n - 1) {
        beats_upto(b, ss, n - 1).push(line_col(b, ss[n - 1].0))
    } else {
        beats_upto(b, ss, n - 1)
    }
}

/// Positions of the beats of one paragraph.
pub open spec fn paragraph_beats(b: Seq<u8>) -> spec_fn((int, int)) -> Seq<(int, int)> {
    |p: (int, int)| beats_upto(b, para_sentences(b, p), para_sentences(b, p).len() as int)
}

/// Concatenation of `f(x)` over the items of `xs`.
pub open spec fn flat_over(xs: Seq<(int, int)>, f: spec_fn((int, int)) -> Seq<(int, int)>) -> Seq<
    (int, int),
>
    decreases xs.len(),
{
    if xs.len() == 0 {
        seq![]
    } else {
        flat_over(xs.drop_last(), f) + f(xs.last())
    }
}

/// Positions that the three-beat rule reports for a text.
pub open spec fn three_beat_positions(text: Seq<char>, b: Seq<u8>) -> Seq<(int, int)> {
    flat_over(paragraphs_of(text), paragraph_beats(b))
}

proof fn lemma_run_before_bound(b: Seq<u8>, ss: Seq<(int, int)>, i: int)
    ensures
        0 <= run_before(b, ss, i),
        0 <= i ==> run_before(b, ss, i) <= i,
    decreases i,
{
    if i > 0 {
        lemma_run_before_bound(b, ss, i - 1);
    }
}

proof fn lemma_beat_at(b: Seq<u8>, ss: Seq<(int, int)>, j: int)
    requires
        2 <= j < ss.len(),
    ensures
        (is_short(b, ss[j]) && run_before(b, ss, j) % 3 == 2) <==> opens_beat(b, ss, j - 2),
{
    lemma_run_before_bound(b, ss, j - 2);
    lemma_run_before_bound(b, ss, j - 1);
}

/// Beats of the sentences of one paragraph, appended to `out`.
fn push_beats(
    contents: &str,
    starts: &Vec<usize>,
    sents: &Vec<Sentence>,
    out: &mut Vec<Match>,
)
    requires
        bytes_of(contents).len() < usize::MAX,
        starts@ == line_starts_spec(bytes_of(contents)),
        forall|k: int|
            #![trigger sents@[k]]
            0 <= k < sents@.len() ==> range_ok(sents@[k].start, sents@[k].end, bytes_of(contents)),
    ensures
        match_positions(final(out)@) == match_positions(old(out)@) + beats_upto(
            bytes_of(contents),
            sents@.map_values(|x: Sentence| sentence_range(x)),
            sents@.len() as int,
        ),
{
    let ghost b = bytes_of(contents);
    let ghost ss = sents@.map_values(|x: Sentence| sentence_range(x));
    let ghost base = match_positions(out@);
    let mut run_start: usize = 0;
    let mut run_len: usize = 0;
    let mut j: usize = 0;
    while j < sents.len()
        invariant
            b == bytes_of(contents),
            b.len() < usize::MAX,
            starts@ == line_starts_spec(b),
            ss == sents@.map_values(|x: Sentence| sentence_range(x)),
            forall|k: int|
                #![trigger sents@[k]]
                0 <= k < sents@.len() ==> range_ok(sents@[k].start, sents@[k].end, b),
            j <= sents@.len(),
            run_len == run_before(b, ss, j as int) % 3,
            run_len > 0 ==> run_start + run_len == j,
            match_positions(out@) == base + beats_upto(
                b,
                ss,
                if j >= 2 { j - 2 } else { 0 },
            ),
        decreases sents@.len() - j,
    {
        let s = &sents[j];
        assert(ss[j as int] == sentence_range(*s));
        let text = sub_str(contents, s.start, s.end);
        assert(text@ == range_text(b, ss[j as int]));
        let short = word_count(text) < 7;
        proof {
            lemma_run_before_bound(b, ss, j as int);
            if j >= 2 {
                lemma_beat_at(b, ss, j as int);
            }
        }
        let ghost before = match_positions(out@);
        if short {
            if run_len == 0 {
                run_start = j;
            }
            run_len = run_len + 1;
            if run_len == 3 {
                let first = &sents[run_start];
                assert(ss[run_start as int] == sentence_range(*first));
                let (line, col) = byte_to_line_col(contents, starts.as_slice(), first.start);
                out.push(Match { line_number: line, column: col });
                assert(match_positions(out@) =~= before.push((line as int, col as int)));
                run_len = 0;
            }
        } else {
            run_len = 0;
        }
        assert(match_positions(out@) =~= base + beats_upto(
            b,
            ss,
            if j + 1 >= 2 { j - 1 } else { 0 },
        ));
        j = j + 1;
    }
    proof {
        let n = sents@.len() as int;
        if n >= 2 {
            assert(!opens_beat(b, ss, n - 2));
            assert(!opens_beat(b, ss, n - 1));
            assert(beats_upto(b, ss, n) == beats_upto(b, ss, n - 1));
            assert(beats_upto(b, ss, n - 1) == beats_upto(b, ss, n - 2));
        } else if n == 1 {
            assert(!opens_beat(b, ss, 0));
            assert(beats_upto(b, ss, n) == beats_upto(b, ss, 0));
        }
    }
}

/// Report every run of three consecutive short sentences in a paragraph.
pub fn detect_three_beat(contents: &str) -> (r: Vec<Match>)
    requires
        bytes_of(contents).len() < usize::MAX,
    ensures
        match_positions(r@) == three_beat_positions(contents@, bytes_of(contents)),
{
    let ghost b = bytes_of(contents);
    let starts = line_starts(contents);
    let ps = paragraphs(contents);
    let ghost xs = ps@.map_values(|x: Paragraph| paragraph_range(x));
    let ghost f = paragraph_beats(b);
    let mut out: Vec<Match> = Vec::new();
    let mut i: usize = 0;
    while i < ps.len()
        invariant
            b == bytes_of(contents),
            b.len() < usize::MAX,
            starts@ == line_starts_spec(b),
            xs == ps@.map_values(|x: Paragraph| paragraph_range(x)),
            xs == paragraphs_of(contents@),
            f == paragraph_beats(b),
            forall|k: int|
                #![trigger ps@[k]]
                0 <= k < ps@.len() ==> range_ok(ps@[k].start, ps@[k].end, b),
            i <= ps@.len(),
            match_positions(out@) == flat_over(xs.take(i as int), f),
        decreases ps@.len() - i,
    {
        let p = &ps[i];
        assert(xs.take(i + 1).drop_last() =~= xs.take(i as int));
        assert(xs.take(i + 1).last() == paragraph_range(*p));
        let sents = sentences(contents, p.start, p.end);
        assert(sents@.map_values(|x: Sentence| sentence_range(x)) == para_sentences(
            b,
            paragraph_range(*p),
        ));
        push_beats(contents, &starts, &sents, &mut out);
        i = i + 1;
    }
    assert(xs.take(xs.len() as int) =~= xs);
    out
}

} // verus!
