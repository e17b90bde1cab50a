//! Detectors that look for a fixed byte shape anywhere in the text:
//! the em-dash and the spaced double hyphen.
use vstd::prelude::*;

use crate::text::{Match, bytes_of, line_col, line_start_of, lemma_line_start_bound, match_positions};
use vstd::utf8::{encode_utf8, is_continuation_byte};

verus! {

/// The byte shapes that these detectors search for.
pub enum ByteShape {
    /// The em-dash character U+2014 (bytes E2 80 94).
    EmDash,
    /// `--` standing alone between spaces or line edges.
    DoubleHyphen,
}

/// An em-dash begins at byte `p`.
pub open spec fn em_dash_at(b: Seq<u8>, p: int) -> bool {
    &&& 0 <= p
    &&& p + 3 <= b.len()
    &&& b[p] == 0xe2u8
    &&& b[p + 1] == 0x80u8
    &&& b[p + 2] == 0x94u8
}

/// A `--` begins at byte `p`, preceded by a space or the start of its line
/// and followed by a space or the end of its line (a `\r` just before the
/// `\n` does not belong to the line).
pub open spec fn double_hyphen_at(b: Seq<u8>, p: int) -> bool {
    &&& 0 <= p
    &&& p + 2 <= b.len()
    &&& b[p] == 0x2du8
    &&& b[p + 1] == 0x2du8
    &&& (p == 0 || b[p - 1] == 0x20u8 || b[p - 1] == 0x0au8)
    &&& (p + 2 == b.len() || b[p + 2] == 0x20u8 || b[p + 2] == 0x0au8 || (b[p + 2] == 0x0du8 && p
        + 3 < b.len() && b[p + 3] == 0x0au8))
}

pub open spec fn shape_at(shape: ByteShape, b: Seq<u8>, p: int) -> bool {
    match shape {
        ByteShape::EmDash => em_dash_at(b, p),
        ByteShape::DoubleHyphen => double_hyphen_at(b, p),
    }
}

/// Offsets below `n` at which the shape begins, in increasing order.
pub open spec fn shape_hits(shape: ByteShape, b: Seq<u8>, n: int) -> Seq<int>
    decreases n,
{
    if n <= 0 {
        seq![]
    } else if shape_at(shape, b, n - 1) {
        shape_hits(shape, b, n - 1).push(n - 1)
    } else {
        shape_hits(shape, b, n - 1)
    }
}

/// The (line, column) of every occurrence of the shape in `b`.
pub open spec fn shape_positions(shape: ByteShape, b: Seq<u8>) -> Seq<(int, int)> {
    shape_hits(shape, b, b.len() as int).map_values(|p: int| line_col(b, p))
}

fn shape_at_exec(shape: &ByteShape, b: &[u8], p: usize) -> (r: bool)
    requires
        p < b@.len(),
    ensures
        r == shape_at(*shape, b@, p as int),
{
    let n = b.len();
    match shape {
        ByteShape::EmDash => { n - p >= 3 && b[p] == 0xe2u8 && b[p + 1] == 0x80u8 && b[p + 2] == 0x94u8 },
        ByteShape::DoubleHyphen => {
            if !(n - p >= 2 && b[p] == 0x2du8 && b[p + 1] == 0x2du8) {
                return false;
            }
            let before_ok = p == 0 || b[p - 1] == 0x20u8 || b[p - 1] == 0x0au8;
            let after_ok = p + 2 == n || b[p + 2] == 0x20u8 || b[p + 2] == 0x0au8 || (b[p + 2]
                == 0x0du8 && p + 3 < n && b[p + 3] == 0x0au8);
            before_ok && after_ok
        },
    }
}

proof fn lemma_line_col_step(b: Seq<u8>, i: int)
    requires
        0 <= i < b.len(),
    ensures
        b[i] == 10u8 ==> line_col(b, i + 1) == (line_col(b, i).0 + 1, 1int),
        b[i] != 10u8 ==> line_col(b, i + 1).0 == line_col(b, i).0,
        b[i] != 10u8 ==> line_start_of(b, i + 1) == line_start_of(b, i),
        b[i] != 10u8 ==> line_col(b, i + 1).1 == line_col(b, i).1 + if is_continuation_byte(b[i]) { 0int } else { 1int },
{
    lemma_line_start_bound(b, i);
}

/// Every occurrence of the shape, as line and column, in text order.
pub fn detect_shape(shape: ByteShape, contents: &str) -> (r: Vec<Match>)
    requires
        bytes_of(contents).len() < usize::MAX,
    ensures
        match_positions(r@) == shape_positions(shape, bytes_of(contents)),
{
    let b = contents.as_bytes();
    let ghost bs = b@;
    let mut out: Vec<Match> = Vec::new();
    let mut line: usize = 1;
    let mut col: usize = 1;
    let mut i: usize = 0;
    proof {
        assert(line_col(bs, 0) == (1int, 1int));
    }
    while i < b.len()
        invariant
            i <= bs.len() < usize::MAX,
            b@ == bs,
            bs == bytes_of(contents),
            (line as int, col as int) == line_col(bs, i as int),
            line <= i + 1,
            col <= i + 1,
            match_positions(out@) == shape_hits(shape, bs, i as int).map_values(
                |p: int| line_col(bs, p),
            ),
        decreases bs.len() - i,
    {
        proof {
            lemma_line_col_step(bs, i as int);
        }
        if shape_at_exec(&shape, b, i) {
            let ghost before = out@;
            out.push(Match { line_number: line, column: col });
            assert(match_positions(out@) =~= match_positions(before).push((line as int, col as int)));
            assert(shape_hits(shape, bs, i + 1) == shape_hits(shape, bs, i as int).push(i as int));
            assert(match_positions(out@) =~= shape_hits(shape, bs, i + 1).map_values(
                |p: int| line_col(bs, p),
            ));
        }
        if b[i] == 10u8 {
            line = line + 1;
            col = 1;
        } else if !(0x80u8 <= b[i] && b[i] <= 0xbfu8) {
            col = col + 1;
        }
        i = i + 1;
    }
    out
}


// ---- what the em-dash detector finds ----

proof fn lemma_shape_hits_member(shape: ByteShape, b: Seq<u8>, n: int, p: int)
    ensures
        shape_hits(shape, b, n).contains(p) <==> (0 <= p < n && shape_at(shape, b, p)),
    decreases n,
{
    if n > 0 {
        lemma_shape_hits_member(shape, b, n - 1, p);
        let prev = shape_hits(shape, b, n - 1);
        if shape_at(shape, b, n - 1) {
            let cur = prev.push(n - 1);
            if cur.contains(p) {
                let k = choose|k: int| 0 <= k < cur.len() && cur[k] == p;
                if k < prev.len() {
                    assert(prev[k] == p);
                }
            }
            if prev.contains(p) {
                let k = choose|k: int| 0 <= k < prev.len() && prev[k] == p;
                assert(cur[k] == p);
            }
            if p == n - 1 {
                assert(cur[prev.len() as int] == p);
            }
        }
    }
}

/// The UTF-8 encoding of the em-dash U+2014.
proof fn lemma_em_dash_encoding()
    ensures
        encode_utf8(seq!['\u{2014}']) == seq![0xe2u8, 0x80u8, 0x94u8],
{
    let v: u32 = 0x2014;
    assert(('\u{2014}' as u32) == v);
    assert(vstd::utf8::has_width_3_encoding(v));
    assert((0xE0u8 | ((v >> 12) & 0x0F) as u8) == 0xe2u8) by (bit_vector)
        requires
            v == 0x2014u32,
    ;
    assert((0x80u8 | ((v >> 6) & 0x3F) as u8) == 0x80u8) by (bit_vector)
        requires
            v == 0x2014u32,
    ;
    assert((0x80u8 | (v & 0x3F) as u8) == 0x94u8) by (bit_vector)
        requires
            v == 0x2014u32,
    ;
    reveal_with_fuel(encode_utf8, 2);
    assert(seq!['\u{2014}'].drop_first() =~= Seq::<char>::empty());
    assert(encode_utf8(seq!['\u{2014}']) =~= seq![0xe2u8, 0x80u8, 0x94u8]);
}

/// The em-dash detector reports exactly the offsets where the UTF-8 encoding
/// of U+2014 begins, and no others: an en-dash (U+2013) or any other
/// character is never reported.
pub proof fn lemma_em_dash_hits(b: Seq<u8>, p: int)
    ensures
        shape_hits(ByteShape::EmDash, b, b.len() as int).contains(p) <==> (0 <= p && p + 3
            <= b.len() && b.subrange(p, p + 3) == encode_utf8(seq!['\u{2014}'])),
{
    lemma_shape_hits_member(ByteShape::EmDash, b, b.len() as int, p);
    lemma_em_dash_encoding();
    if 0 <= p && p + 3 <= b.len() {
        let w = b.subrange(p, p + 3);
        assert(w[0] == b[p] && w[1] == b[p + 1] && w[2] == b[p + 2]);
        if em_dash_at(b, p) {
            assert(w =~= seq![0xe2u8, 0x80u8, 0x94u8]);
        }
    }
}

} // verus!
