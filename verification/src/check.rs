//! Checking a text: front matter, findings per pattern, and which files get
//! which checks.
use vstd::prelude::*;
use vstd::utf8::{decode_utf8, encode_scalar, encode_utf8, is_char_boundary};

use crate::chars::{lemma_encode_utf8_add, utf8_len};
use crate::patterns::{Pattern, detect, detect_spec};
use crate::text::{Match, bytes_of, lemma_ascii_boundaries, lemma_ends_are_boundaries, match_positions, sub_str};

verus! {

broadcast use vstd::utf8::encode_utf8_valid_utf8;

/// The matches of one pattern in one text.
pub struct Finding {
    pub pattern_name: &'static str,
    pub fix: &'static str,
    pub matches: Vec<Match>,
}

/// The patterns of `ps` that find something in `text`, in order.
pub open spec fn firing(ps: Seq<Pattern>, text: Seq<char>) -> Seq<Pattern> {
    ps.filter(|p: Pattern| detect_spec(p.kind, text).len() > 0)
}

/// Run each pattern on `contents` and keep those that find something.
pub fn pattern_findings(contents: &str, patterns: &Vec<Pattern>) -> (r: Vec<Finding>)
    requires
        bytes_of(contents).len() < usize::MAX,
    ensures
        r@.len() == firing(patterns@, contents@).len(),
        forall|k: int|
            0 <= k < r@.len() ==> {
                let p = #[trigger] firing(patterns@, contents@)[k];
                &&& r@[k].pattern_name == p.name
                &&& r@[k].fix == p.fix
                &&& match_positions(r@[k].matches@) == detect_spec(p.kind, contents@)
            },
{
    let ghost ps = patterns@;
    let ghost keep = |p: Pattern| detect_spec(p.kind, contents@).len() > 0;
    let mut out: Vec<Finding> = Vec::new();
    let mut i: usize = 0;
    while i < patterns.len()
        invariant
            ps == patterns@,
            keep == (|p: Pattern| detect_spec(p.kind, contents@).len() > 0),
            bytes_of(contents).len() < usize::MAX,
            i <= ps.len(),
            out@.len() == ps.take(i as int).filter(keep).len(),
            forall|k: int|
                0 <= k < out@.len() ==> {
                    let p = #[trigger] ps.take(i as int).filter(keep)[k];
                    &&& out@[k].pattern_name == p.name
                    &&& out@[k].fix == p.fix
                    &&& match_positions(out@[k].matches@) == detect_spec(p.kind, contents@)
                },
        decreases ps.len() - i,
    {
        let p = &patterns[i];
        assert(ps.take(i + 1).drop_last() =~= ps.take(i as int));
        reveal_with_fuel(Seq::filter, 1);
        let matches = detect(p.kind, contents);
        if matches.len() > 0 {
            out.push(Finding { pattern_name: p.name, fix: p.fix, matches });
        }
        i = i + 1;
    }
    assert(ps.take(ps.len() as int) =~= ps);
    out
}

// ---- file results ----

/// The file-level statistics.
#[derive(Clone, Copy, PartialEq, Eq, Debug)]
pub enum MetricKind {
    SentenceLengthCv,
    SentenceLengthKurtosis,
    WordFreqDispersion,
}

/// The name a metric is reported under.
pub open spec fn metric_name_spec(kind: MetricKind) -> Seq<char> {
    match kind {
        MetricKind::SentenceLengthCv => "sentence-length-cv"@,
        MetricKind::SentenceLengthKurtosis => "sentence-length-kurtosis"@,
        MetricKind::WordFreqDispersion => "word-freq-dispersion"@,
    }
}

/// The name a metric is reported under.
pub fn metric_name(kind: MetricKind) -> (r: &'static str)
    ensures
        r@ == metric_name_spec(kind),
{
    match kind {
        MetricKind::SentenceLengthCv => "sentence-length-cv",
        MetricKind::SentenceLengthKurtosis => "sentence-length-kurtosis",
        MetricKind::WordFreqDispersion => "word-freq-dispersion",
    }
}

/// The advice shown when a metric falls below its threshold.
pub open spec fn metric_fix_spec(kind: MetricKind) -> Seq<char> {
    match kind {
        MetricKind::SentenceLengthCv => "writing has a metronomic rhythm \u{2014} every sentence hits the same beat. vary structure: combine related ideas, break apart compound ones, use subordinate clauses or fragments where natural"@,
        MetricKind::SentenceLengthKurtosis => "your sentences are all similar length. rewrite whole paragraphs: merge related short sentences into longer, layered ones; also insert a few very short or very long sentences for contrast"@,
        MetricKind::WordFreqDispersion => "key words are sprinkled too uniformly \u{2014} concentrate terminology where it's relevant instead of distributing it evenly across the text"@,
    }
}

/// The advice shown when a metric falls below its threshold.
pub fn metric_fix(kind: MetricKind) -> (r: &'static str)
    ensures
        r@ == metric_fix_spec(kind),
{
    match kind {
        MetricKind::SentenceLengthCv => "writing has a metronomic rhythm \u{2014} every sentence hits the same beat. vary structure: combine related ideas, break apart compound ones, use subordinate clauses or fragments where natural",
        MetricKind::SentenceLengthKurtosis => "your sentences are all similar length. rewrite whole paragraphs: merge related short sentences into longer, layered ones; also insert a few very short or very long sentences for contrast",
        MetricKind::WordFreqDispersion => "key words are sprinkled too uniformly \u{2014} concentrate terminology where it's relevant instead of distributing it evenly across the text",
    }
}

/// A metric whose score fell below its threshold, over a score type `T`.
pub struct MetricViolation<T> {
    pub metric_name: &'static str,
    pub fix: &'static str,
    pub score: T,
    pub threshold: T,
}

impl<T> MetricViolation<T> {
    /// The violation of metric `kind` with `score` under `threshold`.
    pub fn new(kind: MetricKind, score: T, threshold: T) -> (r: MetricViolation<T>)
        ensures
            r.metric_name@ == metric_name_spec(kind),
            r.fix@ == metric_fix_spec(kind),
            r.score == score,
            r.threshold == threshold,
    {
        MetricViolation { metric_name: metric_name(kind), fix: metric_fix(kind), score, threshold }
    }
}

/// Everything found in one file.
pub struct FileResult<T> {
    pub path: String,
    pub findings: Vec<Finding>,
    pub metric_violations: Vec<MetricViolation<T>>,
}

/// The result of a file, or `None` when nothing was found in it.
pub fn file_result<T>(path_label: &str, findings: Vec<Finding>, metric_violations: Vec<MetricViolation<T>>) -> (r: Option<FileResult<T>>)
    ensures
        r is None <==> (findings@.len() == 0 && metric_violations@.len() == 0),
        r matches Some(fr) ==> {
            &&& fr.path@ == path_label@
            &&& fr.findings@ == findings@
            &&& fr.metric_violations@ == metric_violations@
        },
{
    if findings.len() == 0 && metric_violations.len() == 0 {
        None
    } else {
        Some(FileResult { path: String::from_str(path_label), findings, metric_violations })
    }
}

// ---- front matter ----

/// The text opens with a `---` line.
pub open spec fn opens_frontmatter(b: Seq<u8>) -> bool {
    &&& b.len() >= 4
    &&& b[0] == 0x2du8
    &&& b[1] == 0x2du8
    &&& b[2] == 0x2du8
    &&& (b[3] == 0x0au8 || (b.len() >= 5 && b[3] == 0x0du8 && b[4] == 0x0au8))
}

/// Offset just past the first line break of a text that opens front matter.
pub open spec fn after_open(b: Seq<u8>) -> int {
    if b[3] == 0x0au8 {
        4
    } else {
        5
    }
}

/// `\n---` begins at `t`.
pub open spec fn close_at(b: Seq<u8>, t: int) -> bool {
    0 <= t && t + 4 <= b.len() && b[t] == 0x0au8 && b[t + 1] == 0x2du8 && b[t + 2] == 0x2du8
        && b[t + 3] == 0x2du8
}

/// The first offset at or after `t` where `\n---` begins, or -1.
pub open spec fn find_close(b: Seq<u8>, t: int) -> int
    decreases b.len() - t,
{
    if t < 0 || t + 4 > b.len() {
        -1
    } else if close_at(b, t) {
        t
    } else {
        find_close(b, t + 1)
    }
}

/// End of a leading front-matter block `---\n...\n---` whose closing fence
/// is followed by the end of the text or a line break (which the block
/// includes), if the text has one.
pub open spec fn frontmatter_end(b: Seq<u8>) -> Option<int> {
    if !opens_frontmatter(b) {
        None
    } else {
        let q = find_close(b, after_open(b));
        if q < 0 {
            None
        } else {
            let ce = q + 4;
            if ce >= b.len() {
                Some(ce)
            } else if b[ce] == 0x0au8 {
                Some(ce + 1)
            } else if b[ce] == 0x0du8 {
                if ce + 1 < b.len() && b[ce + 1] == 0x0au8 {
                    Some(ce + 2)
                } else {
                    Some(ce + 1)
                }
            } else {
                None
            }
        }
    }
}

/// What one front-matter character becomes: a line break stays as it is,
/// any other character becomes one space per byte of its UTF-8 encoding.
pub open spec fn blank_char(c: char) -> Seq<char> {
    if c == '\n' || c == '\r' {
        seq![c]
    } else {
        Seq::new(encode_scalar(c as u32).len(), |i: int| ' ')
    }
}

/// Every character blanked as `blank_char` says.
pub open spec fn blank(cs: Seq<char>) -> Seq<char>
    decreases cs.len(),
{
    if cs.len() == 0 {
        seq![]
    } else {
        blank_char(cs[0]) + blank(cs.drop_first())
    }
}

/// The text with its front matter blanked out.
pub open spec fn stripped(cs: Seq<char>) -> Seq<char> {
    let b = encode_utf8(cs);
    match frontmatter_end(b) {
        Some(end) => blank(decode_utf8(b.subrange(0, end))) + decode_utf8(
            b.subrange(end, b.len() as int),
        ),
        None => cs,
    }
}

/// Every byte but `\n` and `\r` replaced by a space.
pub open spec fn blank_bytes(b: Seq<u8>) -> Seq<u8> {
    b.map_values(|x: u8| if x == 0x0au8 || x == 0x0du8 { x } else { 0x20u8 })
}

/// The bytes of a text with its front matter blanked out byte by byte.
pub open spec fn stripped_bytes(b: Seq<u8>) -> Seq<u8> {
    match frontmatter_end(b) {
        Some(end) => blank_bytes(b.subrange(0, end)) + b.subrange(end, b.len() as int),
        None => b,
    }
}

pub proof fn lemma_find_close(b: Seq<u8>, t: int)
    ensures
        find_close(b, t) >= 0 ==> t <= find_close(b, t) && close_at(b, find_close(b, t)),
    decreases b.len() - t,
{
    if t >= 0 && t + 4 <= b.len() && !close_at(b, t) {
        lemma_find_close(b, t + 1);
    }
}

/// The end of front matter lies on a character boundary.
pub proof fn lemma_frontmatter_end_boundary(b: Seq<u8>)
    requires
        vstd::utf8::valid_utf8(b),
        frontmatter_end(b) is Some,
    ensures
        0 <= frontmatter_end(b)->0 <= b.len(),
        is_char_boundary(b, frontmatter_end(b)->0),
{
    lemma_find_close(b, after_open(b));
    lemma_ends_are_boundaries(b);
    let end = frontmatter_end(b)->0;
    if end < b.len() {
        lemma_ascii_boundaries(b, end - 1);
    }
}

/// Offset where the front matter of `b` ends, if it has any.
fn frontmatter_end_exec(b: &[u8]) -> (r: Option<usize>)
    ensures
        match r {
            Some(e) => frontmatter_end(b@) == Some(e as int),
            None => frontmatter_end(b@) is None,
        },
{
    let n = b.len();
    if !(n >= 4 && b[0] == 0x2du8 && b[1] == 0x2du8 && b[2] == 0x2du8 && (b[3] == 0x0au8 || (n >= 5
        && b[3] == 0x0du8 && b[4] == 0x0au8))) {
        return None;
    }
    let start: usize = if b[3] == 0x0au8 {
        4
    } else {
        5
    };
    let mut t = start;
    while t <= n && n - t >= 4 && !(b[t] == 0x0au8 && b[t + 1] == 0x2du8 && b[t + 2] == 0x2du8 && b[t
        + 3] == 0x2du8)
        invariant
            start <= t,
            n == b@.len(),
            find_close(b@, start as int) == find_close(b@, t as int),
        decreases n + 1 - t,
    {
        t = t + 1;
    }
    if !(t <= n && n - t >= 4) {
        return None;
    }
    let ce = t + 4;
    if ce >= n {
        Some(ce)
    } else if b[ce] == 0x0au8 {
        Some(ce + 1)
    } else if b[ce] == 0x0du8 {
        if ce + 1 < n && b[ce + 1] == 0x0au8 {
            Some(ce + 2)
        } else {
            Some(ce + 1)
        }
    } else {
        None
    }
}

/// Blank out a leading `---\n...\n---\n` YAML front-matter block, keeping
/// line breaks and byte length so that byte offsets and line numbers
/// further down stay the same.
pub fn strip_frontmatter_in_place(contents: &mut String)
    ensures
        final(contents)@ == stripped(old(contents)@),
        encode_utf8(final(contents)@) == stripped_bytes(encode_utf8(old(contents)@)),
{
    proof {
        lemma_stripped_bytes(contents@);
    }
    let text = contents.as_str();
    let b = text.as_bytes();
    let ghost bs = b@;
    match frontmatter_end_exec(b) {
        None => {},
        Some(end) => {
            proof {
                lemma_frontmatter_end_boundary(bs);
                lemma_ends_are_boundaries(bs);
            }
            let head = sub_str(text, 0, end);
            let tail = sub_str(text, end, b.len());
            let mut blanked = String::new();
            for c in it: head.chars()
                invariant
                    it.seq() == head@,
                    blanked@ == blank(it.seq().take(it.index())),
            {
                assert(it.seq().take(it.index() + 1) =~= it.seq().take(it.index()).push(c));
                proof {
                    lemma_blank_push(it.seq().take(it.index()), c);
                    reveal_strlit("\n");
                    reveal_strlit("\r");
                    reveal_strlit(" ");
                }
                let ghost before = blanked@;
                if c == '\n' {
                    blanked.append("\n");
                } else if c == '\r' {
                    blanked.append("\r");
                } else {
                    let w = utf8_len(c);
                    let mut k: usize = 0;
                    while k < w
                        invariant
                            k <= w,
                            blanked@ == before + Seq::new(k as nat, |i: int| ' '),
                        decreases w - k,
                    {
                        proof {
                            reveal_strlit(" ");
                        }
                        blanked.append(" ");
                        assert(blanked@ =~= before + Seq::new((k + 1) as nat, |i: int| ' '));
                        k = k + 1;
                    }
                }
                assert(blanked@ =~= blank(it.seq().take(it.index() + 1)));
            }
            assert(head@.take(head@.len() as int) =~= head@);
            blanked.append(tail);
            *contents = blanked;
        },
    }
}

/// Blanking a text with one more character blanks that character last.
pub proof fn lemma_blank_push(cs: Seq<char>, c: char)
    ensures
        blank(cs.push(c)) == blank(cs) + blank_char(c),
    decreases cs.len(),
{
    if cs.len() == 0 {
        reveal_with_fuel(blank, 2);
        assert(cs.push(c).drop_first() =~= Seq::<char>::empty());
        assert(cs.push(c)[0] == c);
        assert(blank(cs.push(c)) =~= blank_char(c));
    } else {
        lemma_blank_push(cs.drop_first(), c);
        assert(cs.push(c).drop_first() =~= cs.drop_first().push(c));
        assert(blank(cs.push(c)) =~= blank(cs) + blank_char(c));
    }
}

/// The encoding of `n` spaces is `n` space bytes.
proof fn lemma_encode_spaces(n: nat)
    ensures
        encode_utf8(Seq::new(n, |i: int| ' ')) == Seq::new(n, |i: int| 0x20u8),
    decreases n,
{
    let sp = Seq::new(n, |i: int| ' ');
    if n > 0 {
        lemma_encode_spaces((n - 1) as nat);
        assert(sp.drop_first() =~= Seq::new((n - 1) as nat, |i: int| ' '));
        assert((' ' as u32) == 0x20u32);
        assert((0x20u32 & 0x7Fu32) as u8 == 0x20u8) by (bit_vector);
        assert(encode_scalar(' ' as u32) =~= seq![0x20u8]);
        assert(encode_utf8(sp) =~= Seq::new(n, |i: int| 0x20u8));
    } else {
        assert(sp =~= Seq::<char>::empty());
        assert(Seq::new(n, |i: int| 0x20u8) =~= Seq::<u8>::empty());
    }
}

/// One blanked character takes the bytes of the character, blanked.
proof fn lemma_blank_char_bytes(c: char)
    ensures
        encode_utf8(blank_char(c)) == blank_bytes(encode_scalar(c as u32)),
{
    let v = c as u32;
    vstd::utf8::char_is_scalar(c);
    let e = encode_scalar(v);
    if c == '\n' || c == '\r' {
        assert(v == 10 || v == 13);
        assert(v == 10 || v == 13 ==> (v & 0x7F) as u8 == v as u8) by (bit_vector);
        assert(e =~= seq![v as u8]);
        reveal_with_fuel(encode_utf8, 2);
        assert(blank_char(c) =~= seq![c]);
        assert(blank_char(c).drop_first() =~= Seq::<char>::empty());
        assert(encode_utf8(blank_char(c)) =~= e);
        assert(blank_bytes(e) =~= e);
    } else {
        lemma_encode_spaces(e.len());
        assert(v != 10 && v != 13);
        if vstd::utf8::has_width_1_encoding(v) {
            assert(v <= 0x7F && v != 10 && v != 13 ==> (v & 0x7F) as u8 != 0x0au8 && (v & 0x7F) as u8
                != 0x0du8) by (bit_vector);
        } else {
            assert(forall|x: u32| #![auto] (0xC0u8 | ((x >> 6) & 0x1F) as u8) >= 0x80u8) by (bit_vector);
            assert(forall|x: u32| #![auto] (0xE0u8 | ((x >> 12) & 0x0F) as u8) >= 0x80u8) by (bit_vector);
            assert(forall|x: u32| #![auto] (0xF0u8 | ((x >> 18) & 0x7) as u8) >= 0x80u8) by (bit_vector);
            assert(forall|x: u32| #![auto] (0x80u8 | (x & 0x3F) as u8) >= 0x80u8) by (bit_vector);
            assert(forall|x: u32| #![auto] (0x80u8 | ((x >> 6) & 0x3F) as u8) >= 0x80u8) by (bit_vector);
            assert(forall|x: u32| #![auto] (0x80u8 | ((x >> 12) & 0x3F) as u8) >= 0x80u8) by (bit_vector);
            assert(forall|i: int| 0 <= i < e.len() ==> #[trigger] e[i] >= 0x80u8);
        }
        assert(blank_bytes(e) =~= Seq::new(e.len(), |i: int| 0x20u8));
    }
}

/// Blanking characters blanks their bytes.
pub proof fn lemma_blank_bytes(cs: Seq<char>)
    ensures
        encode_utf8(blank(cs)) == blank_bytes(encode_utf8(cs)),
    decreases cs.len(),
{
    if cs.len() > 0 {
        lemma_blank_bytes(cs.drop_first());
        lemma_blank_char_bytes(cs[0]);
        lemma_encode_utf8_add(blank_char(cs[0]), blank(cs.drop_first()));
        assert(blank_bytes(encode_utf8(cs)) =~= blank_bytes(encode_scalar(cs[0] as u32)) + blank_bytes(
            encode_utf8(cs.drop_first()),
        ));
    }
}

/// The text after stripping is the text whose bytes are those of the
/// original with the front matter blanked byte by byte.
pub proof fn lemma_stripped_bytes(cs: Seq<char>)
    ensures
        encode_utf8(stripped(cs)) == stripped_bytes(encode_utf8(cs)),
{
    let b = encode_utf8(cs);
    if let Some(end) = frontmatter_end(b) {
        lemma_frontmatter_end_boundary(b);
        vstd::utf8::valid_utf8_split(b, end);
        let head = decode_utf8(b.subrange(0, end));
        let tail = decode_utf8(b.subrange(end, b.len() as int));
        vstd::utf8::decode_utf8_encode_utf8(b.subrange(0, end));
        vstd::utf8::decode_utf8_encode_utf8(b.subrange(end, b.len() as int));
        lemma_blank_bytes(head);
        lemma_encode_utf8_add(blank(head), tail);
    }
}

/// Stripping front matter keeps the byte length of the text and the byte
/// position of every line break, so byte offsets, line numbers and columns
/// of what follows are unchanged; every other byte is kept or made a space.
pub proof fn lemma_strip_keeps_bytes(cs: Seq<char>)
    ensures
        encode_utf8(stripped(cs)).len() == encode_utf8(cs).len(),
        forall|i: int|
            0 <= i < encode_utf8(cs).len() ==> (#[trigger] encode_utf8(stripped(cs))[i] == 0x0au8
                <==> encode_utf8(cs)[i] == 0x0au8) && (encode_utf8(stripped(cs))[i] == 0x0du8
                <==> encode_utf8(cs)[i] == 0x0du8),
        forall|i: int|
            0 <= i < encode_utf8(cs).len() && encode_utf8(stripped(cs))[i] != 0x20u8 ==> #[trigger] encode_utf8(
                stripped(cs),
            )[i] == encode_utf8(cs)[i],
{
    lemma_stripped_bytes(cs);
    let b = encode_utf8(cs);
    let s = encode_utf8(stripped(cs));
    if let Some(end) = frontmatter_end(b) {
        lemma_frontmatter_end_boundary(b);
        assert forall|i: int| 0 <= i < b.len() implies (#[trigger] s[i] == 0x0au8 <==> b[i] == 0x0au8)
            && (s[i] == 0x0du8 <==> b[i] == 0x0du8) && (s[i] != 0x20u8 ==> s[i] == b[i]) by {
            if i < end {
                assert(s[i] == blank_bytes(b.subrange(0, end))[i]);
            } else {
                assert(s[i] == b.subrange(end, b.len() as int)[i - end]);
            }
        }
    }
}

/// Number of `\n` characters in `cs`.
pub open spec fn newline_count(cs: Seq<char>) -> nat
    decreases cs.len(),
{
    if cs.len() == 0 {
        0
    } else {
        (if cs[0] == '\n' {
            1nat
        } else {
            0nat
        }) + newline_count(cs.drop_first())
    }
}

proof fn lemma_newline_count_add(a: Seq<char>, b: Seq<char>)
    ensures
        newline_count(a + b) == newline_count(a) + newline_count(b),
    decreases a.len(),
{
    if a.len() == 0 {
        assert(a + b =~= b);
    } else {
        lemma_newline_count_add(a.drop_first(), b);
        assert((a + b).drop_first() =~= a.drop_first() + b);
    }
}

/// Blanking keeps the line breaks and leaves only spaces and line breaks.
proof fn lemma_blank_lines(cs: Seq<char>)
    ensures
        newline_count(blank(cs)) == newline_count(cs),
        forall|i: int|
            0 <= i < blank(cs).len() ==> #[trigger] blank(cs)[i] == ' ' || blank(cs)[i] == '\n'
                || blank(cs)[i] == '\r',
    decreases cs.len(),
{
    if cs.len() > 0 {
        let c = cs[0];
        vstd::utf8::char_is_scalar(c);
        reveal_with_fuel(newline_count, 2);
        let rest = blank(cs.drop_first());
        lemma_blank_lines(cs.drop_first());
        lemma_newline_count_add(blank_char(c), rest);
        if c == '\n' || c == '\r' {
            assert(blank_char(c) =~= seq![c]);
            assert(blank_char(c).drop_first() =~= Seq::<char>::empty());
        } else {
            lemma_no_newlines(vstd::utf8::encode_scalar(c as u32).len());
        }
        assert forall|i: int| 0 <= i < blank(cs).len() implies #[trigger] blank(cs)[i] == ' '
            || blank(cs)[i] == '\n' || blank(cs)[i] == '\r' by {
            if i >= blank_char(c).len() {
                assert(blank(cs)[i] == rest[i - blank_char(c).len()]);
            }
        }
    }
}

proof fn lemma_no_newlines(n: nat)
    ensures
        newline_count(Seq::new(n, |i: int| ' ')) == 0,
    decreases n,
{
    if n > 0 {
        lemma_no_newlines((n - 1) as nat);
        assert(Seq::new(n, |i: int| ' ').drop_first() =~= Seq::new((n - 1) as nat, |i: int| ' '));
    }
}

/// Stripping front matter keeps the lines: the text splits into a blanked
/// part of only spaces and line breaks, with as many line breaks as the
/// front matter had, followed by the rest of the text unchanged.
pub proof fn lemma_strip_keeps_lines(cs: Seq<char>)
    ensures
        newline_count(stripped(cs)) == newline_count(cs),
        exists|h: int, k: int|
            0 <= h <= cs.len() && 0 <= k <= stripped(cs).len() && stripped(cs).skip(k) == cs.skip(h)
                && newline_count(stripped(cs).take(k)) == newline_count(cs.take(h)) && forall|i: int|
                0 <= i < k ==> #[trigger] stripped(cs)[i] == ' ' || stripped(cs)[i] == '\n'
                    || stripped(cs)[i] == '\r',
{
    let b = encode_utf8(cs);
    vstd::utf8::encode_utf8_decode_utf8(cs);
    if let Some(end) = frontmatter_end(b) {
        lemma_frontmatter_end_boundary(b);
        vstd::utf8::decode_utf8_split(b, end);
        let head = decode_utf8(b.subrange(0, end));
        let tail = decode_utf8(b.subrange(end, b.len() as int));
        assert(cs == head + tail);
        lemma_blank_lines(head);
        lemma_newline_count_add(blank(head), tail);
        lemma_newline_count_add(head, tail);
        let s = stripped(cs);
        let k = blank(head).len() as int;
        let h = head.len() as int;
        assert(s.skip(k) =~= cs.skip(h));
        assert(s.take(k) =~= blank(head));
        assert(cs.take(h) =~= head);
        assert forall|i: int| 0 <= i < k implies #[trigger] s[i] == ' ' || s[i] == '\n' || s[i] == '\r' by {
            assert(s[i] == blank(head)[i]);
        }
    } else {
        assert(stripped(cs).skip(0) =~= cs.skip(0));
        assert(stripped(cs).take(0) =~= Seq::<char>::empty());
        assert(cs.take(0) =~= Seq::<char>::empty());
    }
}

// ---- lines as `str::lines` gives them, over bytes ----

/// The first `\n` at or after `s`, or the length.
pub open spec fn newline_from(b: Seq<u8>, s: int) -> int
    decreases b.len() - s,
{
    if s < 0 || s >= b.len() || b[s] == 0x0au8 {
        s
    } else {
        newline_from(b, s + 1)
    }
}

/// A line without the `\r` of its `\r\n` ending.
pub open spec fn trim_cr(l: Seq<u8>) -> Seq<u8> {
    if l.len() > 0 && l.last() == 0x0du8 {
        l.drop_last()
    } else {
        l
    }
}

/// The lines from `s` on, as `str::lines` splits them: at each `\n`, with
/// the `\r` of a `\r\n` ending removed, and no empty line after a final
/// line break.
pub open spec fn lines_from(b: Seq<u8>, s: int) -> Seq<Seq<u8>>
    decreases b.len() - s,
{
    if s < 0 || s >= b.len() {
        seq![]
    } else {
        let e = newline_from(b, s);
        if s <= e < b.len() {
            seq![trim_cr(b.subrange(s, e))] + lines_from(b, e + 1)
        } else {
            seq![b.subrange(s, b.len() as int)]
        }
    }
}

/// The lines of a text, given by its bytes.
pub open spec fn text_lines(b: Seq<u8>) -> Seq<Seq<u8>> {
    lines_from(b, 0)
}

/// A line of spaces only.
pub open spec fn all_spaces(l: Seq<u8>) -> bool {
    forall|j: int| 0 <= j < l.len() ==> l[j] == 0x20u8
}

/// Every `\r` of `b` is followed by `\n`.
pub open spec fn no_lone_cr(b: Seq<u8>) -> bool {
    forall|i: int| 0 <= i < b.len() && #[trigger] b[i] == 0x0du8 ==> i + 1 < b.len() && b[i + 1] == 0x0au8
}

/// Number of the lines from `s` on that start before `h`.
pub open spec fn lines_before(b: Seq<u8>, s: int, h: int) -> int
    decreases b.len() - s,
{
    if s < 0 || s >= b.len() || s >= h {
        0
    } else {
        let e = newline_from(b, s);
        if s <= e < b.len() {
            1 + lines_before(b, e + 1, h)
        } else {
            1
        }
    }
}

proof fn lemma_newline_from(b: Seq<u8>, s: int)
    requires
        0 <= s <= b.len(),
    ensures
        s <= newline_from(b, s) <= b.len(),
        newline_from(b, s) < b.len() ==> b[newline_from(b, s)] == 0x0au8,
        forall|i: int| s <= i < newline_from(b, s) ==> b[i] != 0x0au8,
    decreases b.len() - s,
{
    if s < b.len() && b[s] != 0x0au8 {
        lemma_newline_from(b, s + 1);
    }
}

proof fn lemma_newline_from_same(x: Seq<u8>, y: Seq<u8>, s: int)
    requires
        x.len() == y.len(),
        forall|i: int| 0 <= i < x.len() ==> (x[i] == 0x0au8 <==> y[i] == 0x0au8),
    ensures
        newline_from(x, s) == newline_from(y, s),
    decreases x.len() - s,
{
    if 0 <= s < x.len() && x[s] != 0x0au8 {
        lemma_newline_from_same(x, y, s + 1);
    }
}

/// Two texts with line breaks at the same places, equal from `h` on, where
/// the first has only spaces, `\r` and `\n` before `h` and `h` starts a
/// line: their lines from `s` on pair up, the ones that start before `h`
/// being spaces only and the others equal.
proof fn lemma_lines_pair(x: Seq<u8>, y: Seq<u8>, h: int, s: int)
    requires
        x.len() == y.len(),
        0 <= h <= x.len(),
        h == 0 || h == x.len() || x[h - 1] == 0x0au8,
        forall|i: int| 0 <= i < x.len() ==> (x[i] == 0x0au8 <==> y[i] == 0x0au8),
        forall|i: int| h <= i < x.len() ==> x[i] == y[i],
        forall|i: int| 0 <= i < h ==> x[i] == 0x20u8 || x[i] == 0x0au8 || x[i] == 0x0du8,
        no_lone_cr(x),
        0 <= s <= x.len(),
    ensures
        lines_from(x, s).len() == lines_from(y, s).len(),
        0 <= lines_before(y, s, h) <= lines_from(y, s).len(),
        forall|i: int| 0 <= i < lines_before(y, s, h) ==> all_spaces(#[trigger] lines_from(x, s)[i]),
        forall|i: int|
            lines_before(y, s, h) <= i < lines_from(y, s).len() ==> #[trigger] lines_from(x, s)[i]
                == lines_from(y, s)[i],
    decreases x.len() - s,
{
    if s < x.len() {
        lemma_newline_from_same(x, y, s);
        lemma_newline_from(x, s);
        lemma_newline_from(y, s);
        let e = newline_from(x, s);
        let lx = lines_from(x, s);
        let ly = lines_from(y, s);
        if e < x.len() {
            lemma_lines_pair(x, y, h, e + 1);
            let rx = lines_from(x, e + 1);
            let ry = lines_from(y, e + 1);
            assert(lx == seq![trim_cr(x.subrange(s, e))] + rx);
            assert(ly == seq![trim_cr(y.subrange(s, e))] + ry);
            if s >= h {
                assert(x.subrange(s, e) =~= y.subrange(s, e));
                assert(lines_before(y, e + 1, h) == 0);
                assert forall|i: int| 0 <= i < ly.len() implies #[trigger] lx[i] == ly[i] by {
                    if i > 0 {
                        assert(lx[i] == rx[i - 1]);
                        assert(ly[i] == ry[i - 1]);
                    }
                }
            } else {
                assert(e < h) by {
                    if e >= h {
                        assert(x[h - 1] == 0x0au8);
                    }
                }
                let p = x.subrange(s, e);
                assert(all_spaces(trim_cr(p))) by {
                    assert forall|j: int| 0 <= j < trim_cr(p).len() implies trim_cr(p)[j] == 0x20u8 by {
                        let i = s + j;
                        assert(x[i] != 0x0au8);
                        if x[i] == 0x0du8 {
                            assert(x[i + 1] == 0x0au8);
                            assert(i + 1 == e);
                            assert(p.last() == 0x0du8);
                        }
                    }
                }
                assert forall|i: int| 0 <= i < lines_before(y, s, h) implies all_spaces(
                    #[trigger] lx[i],
                ) by {
                    if i > 0 {
                        assert(lx[i] == rx[i - 1]);
                    }
                }
                assert forall|i: int| lines_before(y, s, h) <= i < ly.len() implies #[trigger] lx[i]
                    == ly[i] by {
                    assert(lx[i] == rx[i - 1]);
                    assert(ly[i] == ry[i - 1]);
                }
            }
        } else {
            let p = x.subrange(s, x.len() as int);
            if s >= h {
                assert(p =~= y.subrange(s, y.len() as int));
            } else {
                assert(all_spaces(p)) by {
                    assert forall|j: int| 0 <= j < p.len() implies p[j] == 0x20u8 by {
                        let i = s + j;
                        assert(x[i] != 0x0au8);
                        if x[i] == 0x0du8 {
                            assert(x[i + 1] == 0x0au8);
                        }
                    }
                }
            }
        }
    }
}

/// Number of lines that the front matter of a text takes.
pub open spec fn frontmatter_lines(b: Seq<u8>) -> int {
    match frontmatter_end(b) {
        Some(end) => lines_before(b, 0, end),
        None => 0,
    }
}

/// Where no `\r` stands alone, stripping front matter keeps the lines as
/// `str::lines` gives them: as many lines as before, the first ones (those
/// of the front matter) spaces only, and every later one unchanged.
pub proof fn lemma_strip_keeps_str_lines(cs: Seq<char>)
    requires
        no_lone_cr(encode_utf8(cs)),
    ensures
        text_lines(encode_utf8(stripped(cs))).len() == text_lines(encode_utf8(cs)).len(),
        0 <= frontmatter_lines(encode_utf8(cs)) <= text_lines(encode_utf8(cs)).len(),
        forall|i: int|
            0 <= i < frontmatter_lines(encode_utf8(cs)) ==> all_spaces(
                #[trigger] text_lines(encode_utf8(stripped(cs)))[i],
            ),
        forall|i: int|
            frontmatter_lines(encode_utf8(cs)) <= i < text_lines(encode_utf8(cs)).len()
                ==> #[trigger] text_lines(encode_utf8(stripped(cs)))[i] == text_lines(
                encode_utf8(cs),
            )[i],
{
    lemma_stripped_bytes(cs);
    let y = encode_utf8(cs);
    let x = encode_utf8(stripped(cs));
    let h = match frontmatter_end(y) {
        Some(end) => end,
        None => 0,
    };
    if let Some(end) = frontmatter_end(y) {
        lemma_frontmatter_end_boundary(y);
        lemma_find_close(y, after_open(y));
        assert(x == blank_bytes(y.subrange(0, end)) + y.subrange(end, y.len() as int));
        assert forall|i: int| 0 <= i < x.len() implies (x[i] == 0x0au8 <==> y[i] == 0x0au8) && (
        x[i] == 0x0du8 <==> y[i] == 0x0du8) by {
            if i < end {
                assert(x[i] == blank_bytes(y.subrange(0, end))[i]);
            } else {
                assert(x[i] == y.subrange(end, y.len() as int)[i - end]);
            }
        }
        assert forall|i: int| end <= i < x.len() implies x[i] == y[i] by {
            assert(x[i] == y.subrange(end, y.len() as int)[i - end]);
        }
        assert forall|i: int| 0 <= i < end implies x[i] == 0x20u8 || x[i] == 0x0au8 || x[i] == 0x0du8 by {
            assert(x[i] == blank_bytes(y.subrange(0, end))[i]);
        }
        assert(end == 0 || end == x.len() || x[end - 1] == 0x0au8);
    } else {
        assert(x == y);
    }
    lemma_lines_pair(x, y, h, 0);
    if h == 0 {
        assert(lines_before(y, 0, h) == 0);
    }
}

/// Stripping front matter twice is the same as stripping it once: the
/// first pass leaves no `---` at the start of the text.
pub proof fn lemma_strip_idempotent(cs: Seq<char>)
    ensures
        stripped(stripped(cs)) == stripped(cs),
{
    let b = encode_utf8(cs);
    vstd::utf8::encode_utf8_decode_utf8(cs);
    if let Some(end) = frontmatter_end(b) {
        lemma_frontmatter_end_boundary(b);
        lemma_find_close(b, after_open(b));
        vstd::utf8::decode_utf8_split(b, end);
        vstd::utf8::valid_utf8_split(b, end);
        let sub = b.subrange(0, end);
        let head = decode_utf8(sub);
        let tail = decode_utf8(b.subrange(end, b.len() as int));
        assert(cs == head + tail);
        assert(sub.len() > 0);
        assert(head.len() > 0);
        vstd::utf8::encode_utf8_first_scalar(cs);
        assert(b[0] == 0x2du8);
        assert((0x2du8 & 0x7fu8) as u32 == 0x2du32) by (bit_vector);
        assert(cs[0] as u32 == 0x2d);
        assert(head[0] == cs[0]);
        let s = stripped(cs);
        assert(s[0] == blank(head)[0]);
        assert(s[0] == ' ');
        let sb = encode_utf8(s);
        vstd::utf8::encode_utf8_first_scalar(s);
        if sb.len() >= 1 && sb[0] == 0x2du8 {
            assert((0x2du8 & 0x7fu8) as u32 == 0x2du32) by (bit_vector);
            assert(s[0] as u32 == 0x2d);
        }
        assert(!opens_frontmatter(sb));
    }
}


// ---- file extensions ----

/// What `std::path::Path::extension` gives for `path`, as text: the part of
/// the file name after its last `.`, or nothing.
pub uninterp spec fn path_extension(path: Seq<char>) -> Option<Seq<char>>;

/// The extension of `path` as `std::path::Path::extension` finds it
/// (`None` also where it is not valid UTF-8, which a `&str` path never is).
/// Its contract only names the result: the rules for the file name are std's.
#[verifier::external_body]
fn extension_of(path: &str) -> (r: Option<String>)
    ensures
        r matches Some(e) ==> path_extension(path@) == Some(e@),
        r is None ==> path_extension(path@) is None,
{
    match std::path::Path::new(path).extension() {
        Some(e) => e.to_str().map(|s| s.to_string()),
        None => None,
    }
}

/// The view of an extension, where there is one.
pub open spec fn ext_view(ext: Option<String>) -> Option<Seq<char>> {
    match ext {
        Some(e) => Some(e@),
        None => None,
    }
}

/// An extension of a format that may open with front matter.
pub open spec fn frontmatter_ext_spec(ext: Option<Seq<char>>) -> bool {
    match ext {
        Some(e) => e == "md"@ || e == "mdx"@ || e == "markdown"@,
        None => false,
    }
}

/// Whether an extension (as `extension_of` gives it) marks a Markdown file.
pub fn frontmatter_ext(ext: &Option<String>) -> (r: bool)
    ensures
        r == frontmatter_ext_spec(ext_view(*ext)),
{
    match ext {
        Some(e) => {
            let md = String::from_str("md");
            let mdx = String::from_str("mdx");
            let markdown = String::from_str("markdown");
            *e == md || *e == mdx || *e == markdown
        },
        None => false,
    }
}

/// Whether the file at `path` may open with front matter.
pub fn has_frontmatter_extension(path: &str) -> (r: bool)
    ensures
        r == frontmatter_ext_spec(path_extension(path@)),
{
    let ext = extension_of(path);
    frontmatter_ext(&ext)
}

/// The metrics run on a file when no extensions are listed, or when its
/// extension is one of them.
pub open spec fn metrics_ext_spec(ext: Option<Seq<char>>, extensions: Seq<String>) -> bool {
    extensions.len() == 0 || match ext {
        Some(e) => exists|i: int| 0 <= i < extensions.len() && (#[trigger] extensions[i])@ == e,
        None => false,
    }
}

/// Whether a file with extension `ext` gets the metrics, given the listed
/// `extensions`.
pub fn metrics_ext(ext: &Option<String>, extensions: &Vec<String>) -> (r: bool)
    ensures
        r == metrics_ext_spec(ext_view(*ext), extensions@),
{
    if extensions.len() == 0 {
        return true;
    }
    match ext {
        Some(e) => {
            let mut i: usize = 0;
            while i < extensions.len()
                invariant
                    ext_view(*ext) == Some(e@),
                    extensions@.len() > 0,
                    i <= extensions@.len(),
                    forall|j: int| 0 <= j < i ==> (#[trigger] extensions@[j])@ != e@,
                decreases extensions@.len() - i,
            {
                if extensions[i] == *e {
                    assert(extensions@[i as int]@ == e@);
                    return true;
                }
                i = i + 1;
            }
            false
        },
        None => false,
    }
}

/// Whether the file at `path` gets the metrics, given the listed `extensions`.
pub fn should_run_metrics(path: &str, extensions: &Vec<String>) -> (r: bool)
    ensures
        r == metrics_ext_spec(path_extension(path@), extensions@),
{
    let ext = extension_of(path);
    metrics_ext(&ext, extensions)
}

} // verus!
