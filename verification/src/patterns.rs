//! Pattern definitions for detecting machine-writing slop.
use vstd::prelude::*;

use crate::bytescan::{ByteShape, detect_shape, shape_positions};
use crate::cadence::{
    EndingRule, beats_upto, detect_ending_rule, detect_three_beat, ending_positions, flat_over,
    paragraph_beats, three_beat_positions,
};
use crate::matcher::{detect_regex_lines, regex_line_positions, regex_lines_from};
use crate::rhetoric::{SentenceRule, detect_sentence_rule, rule_positions, select};
use crate::text::{Match, bytes_of, match_positions};

verus! {

/// Which detector a pattern runs.
#[derive(Clone, Copy, PartialEq, Eq, Debug)]
pub enum PatternKind {
    EmDash,
    DoubleHyphen,
    Contrastive,
    DemonstrativeIs,
    FillerAdverbs,
    WeaselConnectives,
    BannedFlourish,
    BannedNegation,
    NegationPair,
    SymmetricNegation,
    WhichChain,
    ButOpener,
    Aphorism,
    SummaryCapstone,
    DeclarativeCallback,
    ThreeBeat,
}

/// A named detector with the advice shown when it fires.
pub struct Pattern {
    pub name: &'static str,
    pub fix: &'static str,
    pub kind: PatternKind,
}

// ---- regular expressions of the line-based detectors ----

pub const CONTRASTIVE_RE: &'static str = r"(?i)\b(it'?s not|it isn'?t|this isn'?t|this is not|that'?s not|that isn'?t)\s+(just|merely|simply\s+)?.{1,50}(?:[,;\u{2014}]|--)\s*(it'?s|it is|this is|that'?s)\b";

pub const DEMONSTRATIVE_IS_RE: &'static str = r"(?i)\b(?:this|that)\s+is\s+the\b";

pub const FILLER_ADVERBS_RE: &'static str = r"(?i)\b(quietly|materially|exactly|actually|really|simply|essentially|fundamentally|effectively|arguably)\b";

pub const WEASEL_CONNECTIVES_RE: &'static str = r"(?i)\b(which means|in turn|so that|which is to say|it is worth noting|the reality is|at the end of the day)\b";

pub const BANNED_FLOURISH_RE: &'static str = r"(?i)\b(worth noting|in the end|at the end of the day|to be clear|let me be specific|needless to say|fails to translate|structurally can(?:not|'t)|in a meaningful way|in any real sense)\b";

pub const BANNED_NEGATION_RE: &'static str = r"(?i)(\bnot\b|\b[[:alpha:]]+n['\u{2019}]?t\b)";

pub const NEGATION_PAIR_RE: &'static str = r"(?i)\bnot\s+\w+\s*[,.]\s+(?:not|no)\s+\w+";

pub const SYMMETRIC_NEGATION_RE: &'static str = r"(?i)(\bfine if\b.{0,40}\bwrong if\b|\bnot\b[^,.;\n]{0,30}\bbut\b|,\s*or nothing\.)";

// ---- byte-shape detectors ----

/// Every em-dash (U+2014), as line and column.
pub fn detect_em_dash(contents: &str) -> (r: Vec<Match>)
    requires
        bytes_of(contents).len() < usize::MAX,
    ensures
        match_positions(r@) == shape_positions(ByteShape::EmDash, bytes_of(contents)),
{
    detect_shape(ByteShape::EmDash, contents)
}

/// Every ` -- ` used as a dash: exactly two hyphens with a space or a line
/// edge on each side.
pub fn detect_double_hyphen(contents: &str) -> (r: Vec<Match>)
    requires
        bytes_of(contents).len() < usize::MAX,
    ensures
        match_positions(r@) == shape_positions(ByteShape::DoubleHyphen, bytes_of(contents)),
{
    detect_shape(ByteShape::DoubleHyphen, contents)
}

// ---- line-based regular-expression detectors ----

/// "It's not X, it's Y" constructions.
pub fn detect_contrastive(contents: &str) -> (r: Vec<Match>)
    requires
        bytes_of(contents).len() < usize::MAX,
    ensures
        match_positions(r@) == regex_line_positions(CONTRASTIVE_RE@, bytes_of(contents)),
{
    detect_regex_lines(CONTRASTIVE_RE, contents)
}

/// "This is the X" / "That is the X".
pub fn detect_demonstrative_is(contents: &str) -> (r: Vec<Match>)
    requires
        bytes_of(contents).len() < usize::MAX,
    ensures
        match_positions(r@) == regex_line_positions(DEMONSTRATIVE_IS_RE@, bytes_of(contents)),
{
    detect_regex_lines(DEMONSTRATIVE_IS_RE, contents)
}

/// Filler adverbs such as "actually" or "simply".
pub fn detect_filler_adverbs(contents: &str) -> (r: Vec<Match>)
    requires
        bytes_of(contents).len() < usize::MAX,
    ensures
        match_positions(r@) == regex_line_positions(FILLER_ADVERBS_RE@, bytes_of(contents)),
{
    detect_regex_lines(FILLER_ADVERBS_RE, contents)
}

/// Weasel connectives such as "which means" or "in turn".
pub fn detect_weasel_connectives(contents: &str) -> (r: Vec<Match>)
    requires
        bytes_of(contents).len() < usize::MAX,
    ensures
        match_positions(r@) == regex_line_positions(WEASEL_CONNECTIVES_RE@, bytes_of(contents)),
{
    detect_regex_lines(WEASEL_CONNECTIVES_RE, contents)
}

/// Flourish phrases such as "worth noting" or "to be clear".
pub fn detect_banned_flourish(contents: &str) -> (r: Vec<Match>)
    requires
        bytes_of(contents).len() < usize::MAX,
    ensures
        match_positions(r@) == regex_line_positions(BANNED_FLOURISH_RE@, bytes_of(contents)),
{
    detect_regex_lines(BANNED_FLOURISH_RE, contents)
}

/// Every "not" and every "n't" contraction.
pub fn detect_banned_negation(contents: &str) -> (r: Vec<Match>)
    requires
        bytes_of(contents).len() < usize::MAX,
    ensures
        match_positions(r@) == regex_line_positions(BANNED_NEGATION_RE@, bytes_of(contents)),
{
    detect_regex_lines(BANNED_NEGATION_RE, contents)
}

/// "not X, not Y" / "not X. no Y".
pub fn detect_negation_pair(contents: &str) -> (r: Vec<Match>)
    requires
        bytes_of(contents).len() < usize::MAX,
    ensures
        match_positions(r@) == regex_line_positions(NEGATION_PAIR_RE@, bytes_of(contents)),
{
    detect_regex_lines(NEGATION_PAIR_RE, contents)
}

/// Mirrored scaffolding: "fine if ... wrong if", "not ... but", ", or nothing.".
pub fn detect_symmetric_negation(contents: &str) -> (r: Vec<Match>)
    requires
        bytes_of(contents).len() < usize::MAX,
    ensures
        match_positions(r@) == regex_line_positions(SYMMETRIC_NEGATION_RE@, bytes_of(contents)),
{
    detect_regex_lines(SYMMETRIC_NEGATION_RE, contents)
}


// ---- sentence and paragraph detectors ----

/// Sentences with three or more "which" clauses.
pub fn detect_which_chain(contents: &str) -> (r: Vec<Match>)
    requires
        bytes_of(contents).len() < usize::MAX,
    ensures
        match_positions(r@) == rule_positions(SentenceRule::WhichChain, bytes_of(contents)),
{
    detect_sentence_rule(SentenceRule::WhichChain, contents)
}

/// Short sentences (at most eight words) that open with "But".
pub fn detect_but_opener(contents: &str) -> (r: Vec<Match>)
    requires
        bytes_of(contents).len() < usize::MAX,
    ensures
        match_positions(r@) == rule_positions(SentenceRule::ButOpener, bytes_of(contents)),
{
    detect_sentence_rule(SentenceRule::ButOpener, contents)
}

/// One-clause "X does not Y." sentences of at most six words.
pub fn detect_aphorism(contents: &str) -> (r: Vec<Match>)
    requires
        bytes_of(contents).len() < usize::MAX,
    ensures
        match_positions(r@) == rule_positions(SentenceRule::Aphorism, bytes_of(contents)),
{
    detect_sentence_rule(SentenceRule::Aphorism, contents)
}

/// Paragraphs that end in a capstone such as "That is the point."
pub fn detect_summary_capstone(contents: &str) -> (r: Vec<Match>)
    requires
        bytes_of(contents).len() < usize::MAX,
    ensures
        match_positions(r@) == ending_positions(
            EndingRule::SummaryCapstone,
            contents@,
            bytes_of(contents),
        ),
{
    detect_ending_rule(EndingRule::SummaryCapstone, contents)
}

/// Paragraphs that end in a callback fragment such as "That is the gap."
/// or "Noise becomes signal."
pub fn detect_declarative_callback(contents: &str) -> (r: Vec<Match>)
    requires
        bytes_of(contents).len() < usize::MAX,
    ensures
        match_positions(r@) == ending_positions(
            EndingRule::DeclarativeCallback,
            contents@,
            bytes_of(contents),
        ),
{
    detect_ending_rule(EndingRule::DeclarativeCallback, contents)
}

// ---- the pattern table ----

/// Every match position that the detector of `kind` reports for `text`.
pub open spec fn detect_spec(kind: PatternKind, text: Seq<char>) -> Seq<(int, int)> {
    let b = vstd::utf8::encode_utf8(text);
    match kind {
        PatternKind::EmDash => shape_positions(ByteShape::EmDash, b),
        PatternKind::DoubleHyphen => shape_positions(ByteShape::DoubleHyphen, b),
        PatternKind::Contrastive => regex_line_positions(CONTRASTIVE_RE@, b),
        PatternKind::DemonstrativeIs => regex_line_positions(DEMONSTRATIVE_IS_RE@, b),
        PatternKind::FillerAdverbs => regex_line_positions(FILLER_ADVERBS_RE@, b),
        PatternKind::WeaselConnectives => regex_line_positions(WEASEL_CONNECTIVES_RE@, b),
        PatternKind::BannedFlourish => regex_line_positions(BANNED_FLOURISH_RE@, b),
        PatternKind::BannedNegation => regex_line_positions(BANNED_NEGATION_RE@, b),
        PatternKind::NegationPair => regex_line_positions(NEGATION_PAIR_RE@, b),
        PatternKind::SymmetricNegation => regex_line_positions(SYMMETRIC_NEGATION_RE@, b),
        PatternKind::WhichChain => rule_positions(SentenceRule::WhichChain, b),
        PatternKind::ButOpener => rule_positions(SentenceRule::ButOpener, b),
        PatternKind::Aphorism => rule_positions(SentenceRule::Aphorism, b),
        PatternKind::SummaryCapstone => ending_positions(EndingRule::SummaryCapstone, text, b),
        PatternKind::DeclarativeCallback => ending_positions(
            EndingRule::DeclarativeCallback,
            text,
            b,
        ),
        PatternKind::ThreeBeat => three_beat_positions(text, b),
    }
}

/// Run the detector of `kind` on `contents`.
pub fn detect(kind: PatternKind, contents: &str) -> (r: Vec<Match>)
    requires
        bytes_of(contents).len() < usize::MAX,
    ensures
        match_positions(r@) == detect_spec(kind, contents@),
{
    match kind {
        PatternKind::EmDash => detect_em_dash(contents),
        PatternKind::DoubleHyphen => detect_double_hyphen(contents),
        PatternKind::Contrastive => detect_contrastive(contents),
        PatternKind::DemonstrativeIs => detect_demonstrative_is(contents),
        PatternKind::FillerAdverbs => detect_filler_adverbs(contents),
        PatternKind::WeaselConnectives => detect_weasel_connectives(contents),
        PatternKind::BannedFlourish => detect_banned_flourish(contents),
        PatternKind::BannedNegation => detect_banned_negation(contents),
        PatternKind::NegationPair => detect_negation_pair(contents),
        PatternKind::SymmetricNegation => detect_symmetric_negation(contents),
        PatternKind::WhichChain => detect_which_chain(contents),
        PatternKind::ButOpener => detect_but_opener(contents),
        PatternKind::Aphorism => detect_aphorism(contents),
        PatternKind::SummaryCapstone => detect_summary_capstone(contents),
        PatternKind::DeclarativeCallback => detect_declarative_callback(contents),
        PatternKind::ThreeBeat => detect_three_beat(contents),
    }
}

/// The name under which the pattern of `kind` is configured and reported.
pub open spec fn kind_name(kind: PatternKind) -> Seq<char> {
    match kind {
        PatternKind::EmDash => "em-dash"@,
        PatternKind::DoubleHyphen => "double-hyphen"@,
        PatternKind::Contrastive => "contrastive"@,
        PatternKind::DemonstrativeIs => "demonstrative-is"@,
        PatternKind::FillerAdverbs => "filler-adverbs"@,
        PatternKind::WeaselConnectives => "weasel-connectives"@,
        PatternKind::BannedFlourish => "banned-flourish"@,
        PatternKind::BannedNegation => "banned-negation"@,
        PatternKind::NegationPair => "negation-pair"@,
        PatternKind::SymmetricNegation => "symmetric-negation"@,
        PatternKind::WhichChain => "which-chain"@,
        PatternKind::ButOpener => "but-opener"@,
        PatternKind::Aphorism => "aphorism"@,
        PatternKind::SummaryCapstone => "summary-capstone"@,
        PatternKind::DeclarativeCallback => "declarative-callback"@,
        PatternKind::ThreeBeat => "three-beat"@,
    }
}

/// The fix advice shown for the pattern of `kind`.
pub open spec fn kind_fix(kind: PatternKind) -> Seq<char> {
    match kind {
        PatternKind::EmDash => "rewrite without em-dash (\u{2014}); use a comma, semicolon, or split into two sentences"@,
        PatternKind::DoubleHyphen => "rewrite without \" -- \"; use a comma, semicolon, or split into two sentences"@,
        PatternKind::Contrastive => "rephrase to avoid \"it's not X, it's Y\" construction; state what it *is* directly"@,
        PatternKind::DemonstrativeIs => "rewrite without \"this is the\" / \"that is the\"; name the thing directly or restructure the sentence"@,
        PatternKind::FillerAdverbs => "cut the adverb (quietly/actually/really/simply/essentially/etc.); if it carries weight, replace with a concrete qualifier"@,
        PatternKind::WeaselConnectives => "drop the connective (\"which means\", \"in turn\", \"the reality is\", etc.) and state the consequence directly"@,
        PatternKind::BannedFlourish => "delete the flourish phrase (\"worth noting\", \"to be clear\", \"at the end of the day\", etc.); the sentence is stronger without it"@,
        PatternKind::BannedNegation => "rewrite without \"not\" or \"n't\"; state the positive claim directly"@,
        PatternKind::NegationPair => "stop listing what the thing isn't; say what it is"@,
        PatternKind::SymmetricNegation => "avoid mirrored \"X if ... Y if ...\" or \"not X but Y\" scaffolding; commit to a single framing"@,
        PatternKind::WhichChain => "break the sentence apart; 3+ \"which\" clauses in one sentence is a run-on tell"@,
        PatternKind::ButOpener => "don't open a short sentence with \"But\" as a rhetorical pivot; merge with the prior clause or drop it"@,
        PatternKind::Aphorism => "drop the short \"X does not Y\" aphorism; make the concrete point it's gesturing at"@,
        PatternKind::SummaryCapstone => "cut the paragraph-ending capstone (\"That is the X.\", \"Here is the Y.\"); let the prior sentences carry the point"@,
        PatternKind::DeclarativeCallback => "drop the declarative callback fragment at the paragraph end; it's rhetorical filler"@,
        PatternKind::ThreeBeat => "three consecutive short sentences in a row reads as padding; combine two of them or add a longer clause"@,
    }
}

/// The pattern of `kind`, with its name and fix advice.
pub fn pattern_of(kind: PatternKind) -> (r: Pattern)
    ensures
        r.kind == kind,
        r.name@ == kind_name(kind),
        r.fix@ == kind_fix(kind),
{
    match kind {
        PatternKind::EmDash => Pattern {
            name: "em-dash",
            fix: "rewrite without em-dash (\u{2014}); use a comma, semicolon, or split into two sentences",
            kind,
        },
        PatternKind::DoubleHyphen => Pattern {
            name: "double-hyphen",
            fix: "rewrite without \" -- \"; use a comma, semicolon, or split into two sentences",
            kind,
        },
        PatternKind::Contrastive => Pattern {
            name: "contrastive",
            fix: "rephrase to avoid \"it's not X, it's Y\" construction; state what it *is* directly",
            kind,
        },
        PatternKind::DemonstrativeIs => Pattern {
            name: "demonstrative-is",
            fix: "rewrite without \"this is the\" / \"that is the\"; name the thing directly or restructure the sentence",
            kind,
        },
        PatternKind::FillerAdverbs => Pattern {
            name: "filler-adverbs",
            fix: "cut the adverb (quietly/actually/really/simply/essentially/etc.); if it carries weight, replace with a concrete qualifier",
            kind,
        },
        PatternKind::WeaselConnectives => Pattern {
            name: "weasel-connectives",
            fix: "drop the connective (\"which means\", \"in turn\", \"the reality is\", etc.) and state the consequence directly",
            kind,
        },
        PatternKind::BannedFlourish => Pattern {
            name: "banned-flourish",
            fix: "delete the flourish phrase (\"worth noting\", \"to be clear\", \"at the end of the day\", etc.); the sentence is stronger without it",
            kind,
        },
        PatternKind::BannedNegation => Pattern {
            name: "banned-negation",
            fix: "rewrite without \"not\" or \"n't\"; state the positive claim directly",
            kind,
        },
        PatternKind::NegationPair => Pattern {
            name: "negation-pair",
            fix: "stop listing what the thing isn't; say what it is",
            kind,
        },
        PatternKind::SymmetricNegation => Pattern {
            name: "symmetric-negation",
            fix: "avoid mirrored \"X if ... Y if ...\" or \"not X but Y\" scaffolding; commit to a single framing",
            kind,
        },
        PatternKind::WhichChain => Pattern {
            name: "which-chain",
            fix: "break the sentence apart; 3+ \"which\" clauses in one sentence is a run-on tell",
            kind,
        },
        PatternKind::ButOpener => Pattern {
            name: "but-opener",
            fix: "don't open a short sentence with \"But\" as a rhetorical pivot; merge with the prior clause or drop it",
            kind,
        },
        PatternKind::Aphorism => Pattern {
            name: "aphorism",
            fix: "drop the short \"X does not Y\" aphorism; make the concrete point it's gesturing at",
            kind,
        },
        PatternKind::SummaryCapstone => Pattern {
            name: "summary-capstone",
            fix: "cut the paragraph-ending capstone (\"That is the X.\", \"Here is the Y.\"); let the prior sentences carry the point",
            kind,
        },
        PatternKind::DeclarativeCallback => Pattern {
            name: "declarative-callback",
            fix: "drop the declarative callback fragment at the paragraph end; it's rhetorical filler",
            kind,
        },
        PatternKind::ThreeBeat => Pattern {
            name: "three-beat",
            fix: "three consecutive short sentences in a row reads as padding; combine two of them or add a longer clause",
            kind,
        },
    }
}


// ---- positions are 1-based ----

/// Every position of `ps` has a line and a column of at least 1.
pub open spec fn one_based(ps: Seq<(int, int)>) -> bool {
    forall|i: int| 0 <= i < ps.len() ==> (#[trigger] ps[i]).0 >= 1 && ps[i].1 >= 1
}

proof fn lemma_select_one_based(
    xs: Seq<(int, int)>,
    keep: spec_fn((int, int)) -> bool,
    at: spec_fn((int, int)) -> (int, int),
)
    requires
        forall|x: (int, int)| #[trigger] at(x).0 >= 1 && at(x).1 >= 1,
    ensures
        one_based(select(xs, keep, at)),
    decreases xs.len(),
{
    if xs.len() > 0 {
        lemma_select_one_based(xs.drop_last(), keep, at);
    }
}

proof fn lemma_regex_lines_one_based(pattern: Seq<char>, b: Seq<u8>, s: int, line: int)
    requires
        line >= 1,
    ensures
        one_based(regex_lines_from(pattern, b, s, line)),
    decreases b.len() - s,
{
    let q = crate::matcher::next_newline(b, s);
    if s >= 0 && s < b.len() && q >= s && q < b.len() {
        lemma_regex_lines_one_based(pattern, b, q + 1, line + 1);
    }
}

proof fn lemma_beats_one_based(b: Seq<u8>, ss: Seq<(int, int)>, n: int)
    ensures
        one_based(beats_upto(b, ss, n)),
    decreases n,
{
    if n > 0 {
        lemma_beats_one_based(b, ss, n - 1);
    }
}

proof fn lemma_flat_one_based(xs: Seq<(int, int)>, f: spec_fn((int, int)) -> Seq<(int, int)>)
    requires
        forall|x: (int, int)| one_based(#[trigger] f(x)),
    ensures
        one_based(flat_over(xs, f)),
    decreases xs.len(),
{
    if xs.len() > 0 {
        lemma_flat_one_based(xs.drop_last(), f);
        let prev = flat_over(xs.drop_last(), f);
        let last = f(xs.last());
        assert forall|i: int| 0 <= i < (prev + last).len() implies (#[trigger] (prev + last)[i]).0
            >= 1 && (prev + last)[i].1 >= 1 by {
            if i >= prev.len() {
                assert((prev + last)[i] == last[i - prev.len()]);
            }
        }
    }
}

proof fn lemma_rule_one_based(rule: SentenceRule, b: Seq<u8>)
    ensures
        one_based(rule_positions(rule, b)),
{
    let at = crate::rhetoric::rule_at(rule, b);
    assert forall|x: (int, int)| #[trigger] at(x).0 >= 1 && at(x).1 >= 1 by {}
    lemma_select_one_based(crate::rhetoric::all_sentences(b), crate::rhetoric::rule_keep(rule, b), at);
}

proof fn lemma_ending_one_based(rule: EndingRule, text: Seq<char>, b: Seq<u8>)
    ensures
        one_based(ending_positions(rule, text, b)),
{
    let at = crate::cadence::last_sentence_pos(b);
    assert forall|x: (int, int)| #[trigger] at(x).0 >= 1 && at(x).1 >= 1 by {}
    lemma_select_one_based(crate::prose::paragraphs_of(text), crate::cadence::ending_keep(rule, b), at);
}

/// Every position a detector reports is 1-based: its line number and its
/// column are at least 1.
pub proof fn lemma_positions_one_based(kind: PatternKind, text: Seq<char>)
    ensures
        one_based(detect_spec(kind, text)),
{
    let b = vstd::utf8::encode_utf8(text);
    match kind {
        PatternKind::EmDash | PatternKind::DoubleHyphen => {},
        PatternKind::Contrastive => lemma_regex_lines_one_based(CONTRASTIVE_RE@, b, 0, 1),
        PatternKind::DemonstrativeIs => lemma_regex_lines_one_based(DEMONSTRATIVE_IS_RE@, b, 0, 1),
        PatternKind::FillerAdverbs => lemma_regex_lines_one_based(FILLER_ADVERBS_RE@, b, 0, 1),
        PatternKind::WeaselConnectives => lemma_regex_lines_one_based(WEASEL_CONNECTIVES_RE@, b, 0, 1),
        PatternKind::BannedFlourish => lemma_regex_lines_one_based(BANNED_FLOURISH_RE@, b, 0, 1),
        PatternKind::BannedNegation => lemma_regex_lines_one_based(BANNED_NEGATION_RE@, b, 0, 1),
        PatternKind::NegationPair => lemma_regex_lines_one_based(NEGATION_PAIR_RE@, b, 0, 1),
        PatternKind::SymmetricNegation => lemma_regex_lines_one_based(SYMMETRIC_NEGATION_RE@, b, 0, 1),
        PatternKind::WhichChain => lemma_rule_one_based(SentenceRule::WhichChain, b),
        PatternKind::ButOpener => lemma_rule_one_based(SentenceRule::ButOpener, b),
        PatternKind::Aphorism => lemma_rule_one_based(SentenceRule::Aphorism, b),
        PatternKind::SummaryCapstone => lemma_ending_one_based(EndingRule::SummaryCapstone, text, b),
        PatternKind::DeclarativeCallback => lemma_ending_one_based(EndingRule::DeclarativeCallback, text, b),
        PatternKind::ThreeBeat => {
            let f = paragraph_beats(b);
            assert forall|x: (int, int)| one_based(#[trigger] f(x)) by {
                lemma_beats_one_based(
                    b,
                    crate::cadence::para_sentences(b, x),
                    crate::cadence::para_sentences(b, x).len() as int,
                );
            }
            lemma_flat_one_based(crate::prose::paragraphs_of(text), f);
        },
    }
}

} // verus!
