//! Sentence and paragraph splitting (naive, prose-targeted).
use vstd::prelude::*;
use vstd::utf8::{decode_utf8, encode_utf8, is_char_boundary};

use crate::chars::{all_white, is_blank};
use crate::matcher::{find_spans, regex_spans, spans_well_formed};
use crate::text::{bytes_of, lemma_ascii_boundaries, lemma_ends_are_boundaries, sub_str};

verus! {

broadcast use vstd::utf8::encode_utf8_valid_utf8;

/// A sentence: the byte range `[start, end)` of the text.
pub struct Sentence {
    pub start: usize,
    pub end: usize,
}

/// A paragraph: the byte range `[start, end)` of the text.
pub struct Paragraph {
    pub start: usize,
    pub end: usize,
}

/// A byte range `[start, end)` of `b` that begins and ends on character boundaries.
pub open spec fn range_ok(start: usize, end: usize, b: Seq<u8>) -> bool {
    &&& start <= end <= b.len()
    &&& is_char_boundary(b, start as int)
    &&& is_char_boundary(b, end as int)
}

pub open spec fn sentence_range(s: Sentence) -> (int, int) {
    (s.start as int, s.end as int)
}

pub open spec fn paragraph_range(p: Paragraph) -> (int, int) {
    (p.start as int, p.end as int)
}

/// `.`, `!` or `?`.
pub open spec fn is_terminal(x: u8) -> bool {
    x == 0x2eu8 || x == 0x21u8 || x == 0x3fu8
}

/// Space, newline, tab or carriage return.
pub open spec fn is_gap(x: u8) -> bool {
    x == 0x20u8 || x == 0x0au8 || x == 0x09u8 || x == 0x0du8
}

/// A sentence ends at `j` (exclusive) within a text that ends at `hi`:
/// the byte before `j` is terminal punctuation and `j` is the end of the
/// text or a gap byte.
pub open spec fn ends_sentence(b: Seq<u8>, hi: int, j: int) -> bool {
    &&& 1 <= j <= hi
    &&& is_terminal(b[j - 1])
    &&& (j == hi || is_gap(b[j]))
}

/// The first sentence end at or after `t`, or `hi + 1` when there is none.
pub open spec fn first_end(b: Seq<u8>, hi: int, t: int) -> int
    decreases hi + 1 - t,
{
    if t > hi {
        hi + 1
    } else if ends_sentence(b, hi, t) {
        t
    } else {
        first_end(b, hi, t + 1)
    }
}

/// The first byte at or after `j` that is not a gap, or `hi`.
pub open spec fn skip_gaps(b: Seq<u8>, hi: int, j: int) -> int
    decreases hi - j,
{
    if j >= hi || !is_gap(b[j]) {
        j
    } else {
        skip_gaps(b, hi, j + 1)
    }
}

pub proof fn lemma_first_end(b: Seq<u8>, hi: int, t: int)
    ensures
        t <= hi + 1 ==> t <= first_end(b, hi, t) <= hi + 1,
        first_end(b, hi, t) <= hi ==> ends_sentence(b, hi, first_end(b, hi, t)),
        forall|u: int| t <= u < first_end(b, hi, t) && u <= hi ==> !ends_sentence(b, hi, u),
    decreases hi + 1 - t,
{
    if t <= hi && !ends_sentence(b, hi, t) {
        lemma_first_end(b, hi, t + 1);
    }
}

pub proof fn lemma_first_end_skip(b: Seq<u8>, hi: int, t: int, u: int)
    requires
        t <= u,
        forall|v: int| t <= v < u ==> !ends_sentence(b, hi, v),
    ensures
        first_end(b, hi, t) == first_end(b, hi, u),
    decreases u - t,
{
    if t < u {
        lemma_first_end_skip(b, hi, t + 1, u);
    }
}

/// The sentences of the text `b[s..hi)`: each runs from its start to the
/// next sentence end; the next one starts after the gap bytes that follow.
/// A remainder without a sentence end counts as a sentence unless it is all
/// whitespace.
pub open spec fn sentences_from(b: Seq<u8>, hi: int, s: int) -> Seq<(int, int)>
    decreases hi - s,
{
    if s >= hi {
        seq![]
    } else {
        let j = first_end(b, hi, s + 1);
        if j <= hi && j > s {
            let k = skip_gaps(b, hi, j);
            if k >= j && k <= hi {
                seq![(s, j)] + sentences_from(b, hi, k)
            } else {
                seq![(s, j)]
            }
        } else if all_white(decode_utf8(b.subrange(s, hi))) {
            seq![]
        } else {
            seq![(s, hi)]
        }
    }
}

/// Non-empty ranges within `[lo, hi]`, in order and without overlap.
pub open spec fn ordered_within(rs: Seq<(int, int)>, lo: int, hi: int) -> bool {
    &&& forall|i: int| 0 <= i < rs.len() ==> lo <= (#[trigger] rs[i]).0 < rs[i].1 <= hi
    &&& forall|i: int, j: int| 0 <= i < j < rs.len() ==> (#[trigger] rs[i]).1 <= (#[trigger] rs[j]).0
}

/// Sentences are non-empty, come in text order and do not overlap.
pub proof fn lemma_sentences_ordered(b: Seq<u8>, hi: int, s: int)
    ensures
        ordered_within(sentences_from(b, hi, s), s, hi),
    decreases hi - s,
{
    if s < hi {
        let j = first_end(b, hi, s + 1);
        lemma_first_end(b, hi, s + 1);
        if j <= hi && j > s {
            let k = skip_gaps(b, hi, j);
            if k >= j && k <= hi {
                lemma_sentences_ordered(b, hi, k);
                let rest = sentences_from(b, hi, k);
                let all = seq![(s, j)] + rest;
                assert forall|i: int| 0 <= i < all.len() implies s <= (#[trigger] all[i]).0 < all[i].1 <= hi by {
                    if i > 0 {
                        assert(all[i] == rest[i - 1]);
                    }
                }
                assert forall|i: int, m: int| 0 <= i < m < all.len() implies (#[trigger] all[i]).1
                    <= (#[trigger] all[m]).0 by {
                    assert(all[m] == rest[m - 1]);
                    if i > 0 {
                        assert(all[i] == rest[i - 1]);
                    }
                }
            }
        }
    }
}

/// A `.`, `!` or `?` followed by a space, line feed, tab, carriage return
/// or the end of the range ends a sentence: the first sentence from `s`
/// ends there or earlier.
pub proof fn lemma_terminator_ends_sentence(b: Seq<u8>, hi: int, s: int, j: int)
    requires
        0 <= s < j <= hi <= b.len(),
        b[j - 1] == 0x2eu8 || b[j - 1] == 0x21u8 || b[j - 1] == 0x3fu8,
        j == hi || b[j] == 0x20u8 || b[j] == 0x0au8 || b[j] == 0x09u8 || b[j] == 0x0du8,
    ensures
        sentences_from(b, hi, s).len() > 0,
        sentences_from(b, hi, s)[0].0 == s,
        sentences_from(b, hi, s)[0].1 <= j,
{
    assert(ends_sentence(b, hi, j));
    lemma_first_end(b, hi, s + 1);
    let e = first_end(b, hi, s + 1);
    assert(e <= j);
    if skip_gaps(b, hi, e) >= e && skip_gaps(b, hi, e) <= hi {
        assert(sentences_from(b, hi, s)[0] == (s, e));
    }
}

/// The sentences of the byte range `[lo, hi)` of a text.
pub open spec fn sentences_in(b: Seq<u8>, lo: int, hi: int) -> Seq<(int, int)> {
    sentences_from(b, hi, lo)
}

fn is_terminal_byte(x: u8) -> (r: bool)
    ensures
        r == is_terminal(x),
{
    x == 0x2eu8 || x == 0x21u8 || x == 0x3fu8
}

fn is_gap_byte(x: u8) -> (r: bool)
    ensures
        r == is_gap(x),
{
    x == 0x20u8 || x == 0x0au8 || x == 0x09u8 || x == 0x0du8
}

/// Split the byte range `[lo, hi)` of `contents` into sentences: a sentence
/// ends at terminal punctuation followed by whitespace or the end of the
/// range, and keeps its terminator.
pub fn sentences(contents: &str, lo: usize, hi: usize) -> (r: Vec<Sentence>)
    requires
        lo <= hi <= bytes_of(contents).len(),
        is_char_boundary(bytes_of(contents), lo as int),
        is_char_boundary(bytes_of(contents), hi as int),
    ensures
        r@.map_values(|x: Sentence| sentence_range(x)) == sentences_in(
            bytes_of(contents),
            lo as int,
            hi as int,
        ),
        forall|k: int|
            #![trigger r@[k]]
            0 <= k < r@.len() ==> lo <= r@[k].start && r@[k].end <= hi && range_ok(
                r@[k].start,
                r@[k].end,
                bytes_of(contents),
            ),
{
    let b = contents.as_bytes();
    let ghost bs = b@;
    let mut out: Vec<Sentence> = Vec::new();
    let mut start = lo;
    let mut i = lo;
    proof {
        lemma_ends_are_boundaries(bs);
    }
    while i < hi
        invariant
            b@ == bs,
            bs == bytes_of(contents),
            lo <= start <= i <= hi <= bs.len(),
            is_char_boundary(bs, lo as int),
            is_char_boundary(bs, hi as int),
            is_char_boundary(bs, start as int),
            sentences_in(bs, lo as int, hi as int) == out@.map_values(
                |x: Sentence| sentence_range(x),
            ) + sentences_from(bs, hi as int, start as int),
            forall|u: int| start < u <= i ==> !ends_sentence(bs, hi as int, u),
            (i < hi && is_terminal(bs[i as int]) && i > start) ==> !is_terminal(bs[i - 1]),
            forall|k: int|
                #![trigger out@[k]]
                0 <= k < out@.len() ==> lo <= out@[k].start && out@[k].end <= start
                    && range_ok(out@[k].start, out@[k].end, bs),
        decreases hi - i,
    {
        if is_terminal_byte(b[i]) {
            let mut j = i + 1;
            while j < hi && is_terminal_byte(b[j])
                invariant
                    b@ == bs,
                    i < j <= hi <= bs.len(),
                    forall|u: int| i < u < j ==> is_terminal(bs[u]),
                    is_terminal(bs[j - 1]),
                decreases hi - j,
            {
                j = j + 1;
            }
            assert(forall|u: int| i < u < j ==> !ends_sentence(bs, hi as int, u));
            if j == hi || is_gap_byte(b[j]) {
                proof {
                    assert(ends_sentence(bs, hi as int, j as int));
                    lemma_first_end_skip(bs, hi as int, start + 1, j as int);
                    lemma_ascii_boundaries(bs, j - 1);
                }
                let ghost before = out@;
                out.push(Sentence { start, end: j });
                assert(out@.map_values(|x: Sentence| sentence_range(x)) =~= before.map_values(
                    |x: Sentence| sentence_range(x),
                ).push((start as int, j as int)));
                let mut k = j;
                while k < hi && is_gap_byte(b[k])
                    invariant
                        b@ == bs,
                        bs == bytes_of(contents),
                        j <= k <= hi <= bs.len(),
                        skip_gaps(bs, hi as int, j as int) == skip_gaps(bs, hi as int, k as int),
                        is_char_boundary(bs, k as int),
                        k > j ==> is_gap(bs[k - 1]),
                    decreases hi - k,
                {
                    proof {
                        lemma_ascii_boundaries(bs, k as int);
                    }
                    k = k + 1;
                }
                assert(sentences_from(bs, hi as int, start as int) =~= seq![
                    (start as int, j as int),
                ] + sentences_from(bs, hi as int, k as int));
                start = k;
                i = k;
            } else {
                i = j;
            }
        } else {
            i = i + 1;
        }
    }
    proof {
        lemma_first_end_skip(bs, hi as int, start + 1, hi + 1);
        lemma_first_end(bs, hi as int, hi + 1);
    }
    if start < hi {
        let rest = sub_str(contents, start, hi);
        if !is_blank(rest) {
            let ghost before = out@;
            out.push(Sentence { start, end: hi });
            assert(out@.map_values(|x: Sentence| sentence_range(x)) =~= before.map_values(
                |x: Sentence| sentence_range(x),
            ).push((start as int, hi as int)));
        }
    }
    assert(sentences_in(bs, lo as int, hi as int) =~= out@.map_values(
        |x: Sentence| sentence_range(x),
    ));
    out
}


/// The pattern that separates paragraphs: a line break, optional spaces or
/// tabs, and another line break.
pub const PARAGRAPH_BREAK: &'static str = "\\n[ \\t]*\\n";

/// Paragraphs of `b` that follow the separator spans from index `k` on,
/// the current paragraph starting at `start`. Blank paragraphs are dropped.
pub open spec fn paragraphs_from(b: Seq<u8>, sp: Seq<(usize, usize)>, k: int, start: int) -> Seq<
    (int, int),
>
    decreases sp.len() - k,
{
    if k < 0 || k >= sp.len() {
        if all_white(decode_utf8(b.subrange(start, b.len() as int))) {
            seq![]
        } else {
            seq![(start, b.len() as int)]
        }
    } else {
        let m = sp[k];
        (if all_white(decode_utf8(b.subrange(start, m.0 as int))) {
            seq![]
        } else {
            seq![(start, m.0 as int)]
        }) + paragraphs_from(b, sp, k + 1, m.1 as int)
    }
}

/// The paragraphs of a text: the non-blank pieces between the separators
/// that `regex_lite` finds (none when the separator pattern fails to compile).
pub open spec fn paragraphs_of(text: Seq<char>) -> Seq<(int, int)> {
    match regex_spans(PARAGRAPH_BREAK@, text) {
        Some(sp) => paragraphs_from(encode_utf8(text), sp, 0, 0),
        None => seq![],
    }
}

/// Split `contents` into paragraphs at blank lines.
pub fn paragraphs(contents: &str) -> (r: Vec<Paragraph>)
    ensures
        r@.map_values(|x: Paragraph| paragraph_range(x)) == paragraphs_of(contents@),
        forall|k: int|
            0 <= k < r@.len() ==> range_ok(#[trigger] r@[k].start, r@[k].end, bytes_of(contents)),
        forall|k: int| 0 <= k < r@.len() ==> (#[trigger] r@[k]).start < r@[k].end,
        forall|k: int, l: int| 0 <= k < l < r@.len() ==> (#[trigger] r@[k]).end <= (#[trigger] r@[l]).start,
{
    let ghost bs = bytes_of(contents);
    let len = contents.as_bytes().len();
    let mut out: Vec<Paragraph> = Vec::new();
    proof {
        lemma_ends_are_boundaries(bs);
    }
    match find_spans(PARAGRAPH_BREAK, contents) {
        None => {
            assert(out@.map_values(|x: Paragraph| paragraph_range(x)) =~= paragraphs_of(contents@));
            out
        },
        Some(v) => {
            let ghost sp = v@;
            let mut start: usize = 0;
            let mut k: usize = 0;
            while k < v.len()
                invariant
                    sp == v@,
                    bs == bytes_of(contents),
                    len == bs.len(),
                    spans_well_formed(sp, bs),
                    k <= sp.len(),
                    k == 0 ==> start == 0,
                    k > 0 ==> start == sp[k - 1].1,
                    is_char_boundary(bs, start as int),
                    is_char_boundary(bs, len as int),
                    start <= len,
                    paragraphs_from(bs, sp, 0, 0) == out@.map_values(
                        |x: Paragraph| paragraph_range(x),
                    ) + paragraphs_from(bs, sp, k as int, start as int),
                    forall|i: int|
                        0 <= i < out@.len() ==> range_ok(#[trigger] out@[i].start, out@[i].end, bs),
                    forall|i: int| 0 <= i < out@.len() ==> (#[trigger] out@[i]).start < out@[i].end <= start,
                    forall|i: int, j: int|
                        0 <= i < j < out@.len() ==> (#[trigger] out@[i]).end <= (#[trigger] out@[j]).start,
                decreases sp.len() - k,
            {
                let m = v[k];
                assert(sp[k as int] == m);
                assert(start <= m.0) by {
                    if k > 0 {
                        assert(sp[k - 1].1 <= sp[k as int].0);
                    }
                }
                let piece = sub_str(contents, start, m.0);
                let ghost before = out@.map_values(|x: Paragraph| paragraph_range(x));
                if !is_blank(piece) {
                    assert(start < m.0) by {
                        if start == m.0 {
                            assert(bytes_of(piece) =~= Seq::<u8>::empty());
                            vstd::utf8::encode_utf8_decode_utf8(piece@);
                            assert(piece@ =~= Seq::<char>::empty());
                        }
                    }
                    out.push(Paragraph { start, end: m.0 });
                }
                assert(out@.map_values(|x: Paragraph| paragraph_range(x)) =~= before + (
                if all_white(decode_utf8(bs.subrange(start as int, m.0 as int))) {
                    seq![]
                } else {
                    seq![(start as int, m.0 as int)]
                }));
                start = m.1;
                k = k + 1;
            }
            let piece = sub_str(contents, start, len);
            let ghost before = out@.map_values(|x: Paragraph| paragraph_range(x));
            if !is_blank(piece) {
                assert(start < len) by {
                    if start == len {
                        assert(bytes_of(piece) =~= Seq::<u8>::empty());
                        vstd::utf8::encode_utf8_decode_utf8(piece@);
                        assert(piece@ =~= Seq::<char>::empty());
                    }
                }
                out.push(Paragraph { start, end: len });
            }
            assert(out@.map_values(|x: Paragraph| paragraph_range(x)) =~= before + (
            if all_white(decode_utf8(bs.subrange(start as int, len as int))) {
                seq![]
            } else {
                seq![(start as int, len as int)]
            }));
            assert(out@.map_values(|x: Paragraph| paragraph_range(x)) =~= paragraphs_of(contents@));
            out
        },
    }
}

} // verus!
