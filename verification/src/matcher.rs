//! Regular-expression search through `regex_lite`, and the line-by-line
//! detectors built on it.
use vstd::prelude::*;
use vstd::utf8::{decode_utf8, encode_utf8, is_char_boundary};

use crate::text::{
    Match, bytes_of, char_starts, lemma_ascii_boundaries, lemma_char_starts_bound,
    lemma_ends_are_boundaries, match_positions, sub_str, count_char_starts,
};

verus! {

broadcast use vstd::utf8::encode_utf8_valid_utf8;

/// The byte spans `(start, end)` of the successive non-overlapping matches
/// that `regex_lite` reports for `pattern` in `haystack`, or `None` when the
/// pattern does not compile.
pub uninterp spec fn regex_spans(pattern: Seq<char>, haystack: Seq<char>) -> Option<Seq<(usize, usize)>>;

/// Spans as `regex_lite` documents them: each lies within the haystack's
/// bytes, starts and ends on character boundaries, and each one ends no
/// later than the next one starts.
pub open spec fn spans_well_formed(spans: Seq<(usize, usize)>, hay: Seq<u8>) -> bool {
    &&& forall|k: int|
        0 <= k < spans.len() ==> #[trigger] spans[k].0 <= spans[k].1 && spans[k].1 <= hay.len()
    &&& forall|k: int|
        0 <= k < spans.len() ==> is_char_boundary(hay, #[trigger] spans[k].0 as int)
            && is_char_boundary(hay, spans[k].1 as int)
    &&& forall|k: int, l: int| 0 <= k < l < spans.len() ==> #[trigger] spans[k].1 <= #[trigger] spans[l].0
}

/// Searches `haystack` for `pattern` with `regex_lite`: compiles the pattern
/// with `Regex::new` and collects the start and end offsets of the matches
/// that `Regex::find_iter` yields. The contract names the spans
/// (`regex_spans`) and states what the crate documents of them: `Match::start`
/// and `Match::end` lie on character boundaries of the haystack with
/// `start <= end`, and `find_iter` yields successive non-overlapping matches.
/// Which spans a pattern matches is left to the name.
#[verifier::external_body]
pub(crate) fn find_spans(pattern: &str, haystack: &str) -> (r: Option<Vec<(usize, usize)>>)
    ensures
        match r {
            Some(v) => regex_spans(pattern@, haystack@) == Some(v@),
            None => regex_spans(pattern@, haystack@) is None,
        },
        r matches Some(v) ==> spans_well_formed(v@, encode_utf8(haystack@)),
{
    match regex_lite::Regex::new(pattern) {
        Ok(re) => Some(re.find_iter(haystack).map(|m| (m.start(), m.end())).collect()),
        Err(_) => None,
    }
}

/// Offset of the first `\n` at or after `s`, or the length of `b`.
pub open spec fn next_newline(b: Seq<u8>, s: int) -> int
    decreases b.len() - s,
{
    if s >= b.len() {
        b.len() as int
    } else if b[s] == 10u8 {
        s
    } else {
        next_newline(b, s + 1)
    }
}

/// End of the content of the line that begins at `s`: its `\n`, or the `\r`
/// right before that `\n`, or the end of the text.
pub open spec fn line_content_end(b: Seq<u8>, s: int) -> int {
    let q = next_newline(b, s);
    if q < b.len() && q > s && b[q - 1] == 13u8 {
        q - 1
    } else {
        q
    }
}

/// The characters of the line that begins at `s`.
pub open spec fn line_text(b: Seq<u8>, s: int) -> Seq<char> {
    decode_utf8(b.subrange(s, line_content_end(b, s)))
}

/// Line and column of a match span in the line that begins at `s`.
pub open spec fn span_pos(b: Seq<u8>, s: int, line: int, m: (usize, usize)) -> (int, int) {
    (line, char_starts(b, s, s + m.0) + 1int)
}

/// Positions of the matches of `pattern` in the line that begins at `s`.
pub open spec fn line_regex_positions(pattern: Seq<char>, b: Seq<u8>, s: int, line: int) -> Seq<
    (int, int),
> {
    match regex_spans(pattern, line_text(b, s)) {
        Some(sp) => sp.map_values(|m: (usize, usize)| span_pos(b, s, line, m)),
        None => seq![],
    }
}

pub proof fn lemma_next_newline(b: Seq<u8>, s: int)
    requires
        0 <= s,
    ensures
        s <= b.len() ==> s <= next_newline(b, s) <= b.len(),
        next_newline(b, s) < b.len() ==> b[next_newline(b, s)] == 10u8,
        forall|t: int| s <= t < next_newline(b, s) ==> b[t] != 10u8,
    decreases b.len() - s,
{
    if s < b.len() && b[s] != 10u8 {
        lemma_next_newline(b, s + 1);
    }
}

/// Positions of the matches of `pattern` in every line from the one that
/// begins at `s` (numbered `line`) to the end of the text.
pub open spec fn regex_lines_from(pattern: Seq<char>, b: Seq<u8>, s: int, line: int) -> Seq<
    (int, int),
>
    decreases b.len() - s,
{
    let q = next_newline(b, s);
    if s < 0 || s >= b.len() {
        seq![]
    } else if q < s || q >= b.len() {
        line_regex_positions(pattern, b, s, line)
    } else {
        line_regex_positions(pattern, b, s, line) + regex_lines_from(pattern, b, q + 1, line + 1)
    }
}

/// Positions of the matches of `pattern`, searched one line at a time as
/// `str::lines` splits the text.
pub open spec fn regex_line_positions(pattern: Seq<char>, b: Seq<u8>) -> Seq<(int, int)> {
    regex_lines_from(pattern, b, 0, 1)
}

/// Number of matches of `pattern` in a line whose bytes are `l`.
pub open spec fn line_match_count(pattern: Seq<char>, l: Seq<u8>) -> int {
    match regex_spans(pattern, decode_utf8(l)) {
        Some(sp) => sp.len() as int,
        None => 0,
    }
}

proof fn lemma_next_newline_shift(b: Seq<u8>, t: Seq<u8>, off: int, s: int)
    requires
        0 <= off,
        b.len() == off + t.len(),
        forall|i: int| 0 <= i < t.len() ==> b[off + i] == t[i],
        0 <= s <= t.len(),
    ensures
        next_newline(b, off + s) == off + next_newline(t, s),
    decreases t.len() - s,
{
    if s < t.len() {
        assert(b[off + s] == t[s]);
        if t[s] != 10u8 {
            lemma_next_newline_shift(b, t, off, s + 1);
        }
    }
}

/// The lines of `t` placed at offset `off` of `b` give as many positions,
/// with line numbers raised by `d` when counting starts `d` higher.
proof fn lemma_lines_shift(
    pattern: Seq<char>,
    b: Seq<u8>,
    t: Seq<u8>,
    off: int,
    s: int,
    line: int,
    d: int,
)
    requires
        0 <= off,
        b.len() == off + t.len(),
        forall|i: int| 0 <= i < t.len() ==> b[off + i] == t[i],
        0 <= s <= t.len(),
    ensures
        regex_lines_from(pattern, b, off + s, line + d).len() == regex_lines_from(pattern, t, s, line).len(),
        forall|i: int|
            0 <= i < regex_lines_from(pattern, t, s, line).len() ==> (#[trigger] regex_lines_from(
                pattern,
                b,
                off + s,
                line + d,
            )[i]).0 == regex_lines_from(pattern, t, s, line)[i].0 + d,
    decreases t.len() - s,
{
    if s < t.len() {
        lemma_next_newline_shift(b, t, off, s);
        lemma_next_newline(t, s);
        let qt = next_newline(t, s);
        let ce = line_content_end(t, s);
        assert(line_content_end(b, off + s) == off + ce) by {
            if qt < t.len() && qt > s {
                assert(b[off + qt - 1] == t[qt - 1]);
            }
        }
        assert(b.subrange(off + s, off + ce) =~= t.subrange(s, ce));
        assert(line_text(b, off + s) == line_text(t, s));
        let lx = line_regex_positions(pattern, b, off + s, line + d);
        let ly = line_regex_positions(pattern, t, s, line);
        assert(lx.len() == ly.len());
        assert(forall|i: int| 0 <= i < ly.len() ==> lx[i].0 == ly[i].0 + d);
        if qt < t.len() {
            lemma_lines_shift(pattern, b, t, off, qt + 1, line + 1, d);
            let rx = regex_lines_from(pattern, b, off + qt + 1, line + 1 + d);
            let ry = regex_lines_from(pattern, t, qt + 1, line + 1);
            let x = regex_lines_from(pattern, b, off + s, line + d);
            let y = regex_lines_from(pattern, t, s, line);
            assert(x == lx + rx);
            assert(y == ly + ry);
            assert forall|i: int| 0 <= i < y.len() implies (#[trigger] x[i]).0 == y[i].0 + d by {
                if i >= ly.len() {
                    assert(x[i] == rx[i - lx.len()]);
                    assert(y[i] == ry[i - ly.len()]);
                }
            }
        }
    }
}

/// Each line is searched on its own, and an empty line does not stop the
/// search: for a line `l` (without `\n`, not ending in `\r`) and any text
/// `t`, the positions in `l`, a line break, then `t` are the matches of `l`
/// on line 1 followed by the positions in `t`, one line further down.
pub proof fn lemma_line_break_splits_positions(pattern: Seq<char>, l: Seq<u8>, t: Seq<u8>)
    requires
        forall|i: int| 0 <= i < l.len() ==> l[i] != 10u8,
        l.len() == 0 || l.last() != 13u8,
    ensures
        regex_line_positions(pattern, l + seq![10u8] + t).len() == line_match_count(pattern, l)
            + regex_line_positions(pattern, t).len(),
        forall|i: int|
            0 <= i < line_match_count(pattern, l) ==> (#[trigger] regex_line_positions(
                pattern,
                l + seq![10u8] + t,
            )[i]).0 == 1,
        forall|i: int|
            0 <= i < regex_line_positions(pattern, t).len() ==> (#[trigger] regex_line_positions(
                pattern,
                l + seq![10u8] + t,
            )[line_match_count(pattern, l) + i]).0 == regex_line_positions(pattern, t)[i].0 + 1,
{
    let b = l + seq![10u8] + t;
    let n = l.len() as int;
    assert(b[n] == 10u8);
    assert(forall|i: int| 0 <= i < n ==> b[i] == l[i]);
    lemma_next_newline(b, 0);
    let q = next_newline(b, 0);
    assert(q == n) by {
        if q < n {
            assert(b[q] == l[q]);
        }
    }
    assert(line_content_end(b, 0) == n) by {
        if n > 0 {
            assert(b[n - 1] == l.last());
        }
    }
    assert(b.subrange(0, n) =~= l);
    assert(line_text(b, 0) == decode_utf8(l));
    let first = line_regex_positions(pattern, b, 0, 1);
    assert(first.len() == line_match_count(pattern, l));
    lemma_lines_shift(pattern, b, t, n + 1, 0, 1, 1);
    let rest = regex_lines_from(pattern, b, n + 1, 2);
    let q2 = regex_line_positions(pattern, t);
    let all = regex_line_positions(pattern, b);
    assert(all == first + rest);
    assert forall|i: int| 0 <= i < line_match_count(pattern, l) implies (#[trigger] all[i]).0 == 1 by {
        assert(all[i] == first[i]);
    }
    assert forall|i: int| 0 <= i < q2.len() implies (#[trigger] all[line_match_count(pattern, l) + i]).0
        == q2[i].0 + 1 by {
        assert(all[first.len() + i] == rest[i]);
    }
}

/// Every match of `pattern` within each line of `contents`, as line and
/// column, in text order.
pub fn detect_regex_lines(pattern: &str, contents: &str) -> (r: Vec<Match>)
    requires
        bytes_of(contents).len() < usize::MAX,
    ensures
        match_positions(r@) == regex_line_positions(pattern@, bytes_of(contents)),
{
    let b = contents.as_bytes();
    let ghost bs = b@;
    let mut out: Vec<Match> = Vec::new();
    let mut s: usize = 0;
    let mut line: usize = 1;
    while s < b.len()
        invariant
            b@ == bs,
            bs == bytes_of(contents),
            bs.len() < usize::MAX,
            s <= bs.len() + 1,
            1 <= line <= s + 1,
            s == 0 || (s <= bs.len() ==> bs[s - 1] == 10u8),
            regex_line_positions(pattern@, bs) == match_positions(out@) + regex_lines_from(
                pattern@,
                bs,
                s as int,
                line as int,
            ),
        decreases bs.len() + 1 - s,
    {
        let mut q = s;
        while q < b.len() && b[q] != 10u8
            invariant
                b@ == bs,
                s <= q <= bs.len(),
                next_newline(bs, s as int) == next_newline(bs, q as int),
            decreases bs.len() - q,
        {
            q = q + 1;
        }
        proof {
            lemma_next_newline(bs, s as int);
        }
        let e = if q < b.len() && q > s && b[q - 1] == 13u8 {
            q - 1
        } else {
            q
        };
        assert(e == line_content_end(bs, s as int));
        proof {
            lemma_ends_are_boundaries(bs);
            if s > 0 {
                lemma_ascii_boundaries(bs, s - 1);
            }
            if e < bs.len() {
                lemma_ascii_boundaries(bs, e as int);
            }
        }
        let text = sub_str(contents, s, e);
        let ghost before = match_positions(out@);
        match find_spans(pattern, text) {
            Some(v) => {
                let ghost sp = v@;
                assert(bytes_of(text).len() == e - s);
                let mut k: usize = 0;
                while k < v.len()
                    invariant
                        b@ == bs,
                        bs.len() < usize::MAX,
                        sp == v@,
                        spans_well_formed(sp, bytes_of(text)),
                        bytes_of(text).len() == e - s,
                        s <= e <= bs.len(),
                        1 <= line <= s + 1,
                        k <= sp.len(),
                        match_positions(out@) == before + sp.take(k as int).map_values(
                            |m: (usize, usize)| span_pos(bs, s as int, line as int, m),
                        ),
                    decreases sp.len() - k,
                {
                    let start = v[k].0;
                    assert(sp[k as int].0 <= sp[k as int].1);
                    let c = count_char_starts(b, s, s + start);
                    proof {
                        lemma_char_starts_bound(bs, s as int, s + start);
                    }
                    let ghost prev = out@;
                    out.push(Match { line_number: line, column: c + 1 });
                    assert(sp.take(k + 1) =~= sp.take(k as int).push(sp[k as int]));
                    assert(match_positions(out@) =~= match_positions(prev).push(
                        (line as int, c + 1),
                    ));
                    assert(match_positions(out@) =~= before + sp.take(k + 1).map_values(
                        |m: (usize, usize)| span_pos(bs, s as int, line as int, m),
                    ));
                    k = k + 1;
                }
                assert(sp.take(sp.len() as int) =~= sp);
                assert(text@ == line_text(bs, s as int));
                assert(match_positions(out@) =~= before + line_regex_positions(
                    pattern@,
                    bs,
                    s as int,
                    line as int,
                ));
            },
            None => {
                assert(text@ == line_text(bs, s as int));
                assert(match_positions(out@) =~= before + line_regex_positions(
                    pattern@,
                    bs,
                    s as int,
                    line as int,
                ));
            },
        }
        s = q + 1;
        line = line + 1;
    }
    assert(regex_lines_from(pattern@, bs, s as int, line as int) =~= seq![]);
    assert(match_positions(out@) =~= regex_line_positions(pattern@, bs));
    out
}

} // verus!
