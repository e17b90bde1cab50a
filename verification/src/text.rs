//! Byte-level text model: character boundaries, line numbers and columns.
use vstd::prelude::*;
use vstd::utf8::*;

verus! {

broadcast use vstd::utf8::encode_utf8_valid_utf8;

/// A position in a text, as reported to the user.
pub struct Match {
    pub line_number: usize,
    pub column: usize,
}

/// The (line, column) pair of a match, as mathematical integers.
pub open spec fn match_pos(m: Match) -> (int, int) {
    (m.line_number as int, m.column as int)
}

/// The (line, column) pairs of a sequence of matches.
pub open spec fn match_positions(ms: Seq<Match>) -> Seq<(int, int)> {
    ms.map_values(|m: Match| match_pos(m))
}

/// The UTF-8 bytes of a string slice.
pub open spec fn bytes_of(s: &str) -> Seq<u8> {
    encode_utf8(s@)
}

/// Number of `\n` bytes in `b[0..p)`.
pub open spec fn newlines_before(b: Seq<u8>, p: int) -> nat
    decreases p,
{
    if p <= 0 {
        0
    } else {
        newlines_before(b, p - 1) + if b[p - 1] == 10u8 {
            1nat
        } else {
            0nat
        }
    }
}

/// Offset of the first byte of the line that holds position `p`:
/// one past the last `\n` before `p`, or 0.
pub open spec fn line_start_of(b: Seq<u8>, p: int) -> int
    decreases p,
{
    if p <= 0 {
        0
    } else if b[p - 1] == 10u8 {
        p
    } else {
        line_start_of(b, p - 1)
    }
}

/// Number of characters that begin in `b[lo..hi)`: the bytes there that
/// are not UTF-8 continuation bytes.
pub open spec fn char_starts(b: Seq<u8>, lo: int, hi: int) -> nat
    decreases hi - lo,
{
    if hi <= lo {
        0
    } else {
        char_starts(b, lo, hi - 1) + if is_continuation_byte(b[hi - 1]) {
            0nat
        } else {
            1nat
        }
    }
}

/// The 1-based line and column of byte offset `p` in `b`.
pub open spec fn line_col(b: Seq<u8>, p: int) -> (int, int) {
    (newlines_before(b, p) + 1int, char_starts(b, line_start_of(b, p), p) + 1int)
}

/// Offsets at which lines begin: 0, then one past each `\n` in `b[0..n)`.
pub open spec fn starts_upto(b: Seq<u8>, n: int) -> Seq<usize>
    decreases n,
{
    if n <= 0 {
        seq![0usize]
    } else if b[n - 1] == 10u8 {
        starts_upto(b, n - 1).push(n as usize)
    } else {
        starts_upto(b, n - 1)
    }
}

/// Offsets at which the lines of `b` begin.
pub open spec fn line_starts_spec(b: Seq<u8>) -> Seq<usize> {
    starts_upto(b, b.len() as int)
}

// ---- lemmas on character boundaries ----

/// In valid UTF-8, the position just after an ASCII byte that starts a
/// character is again a character boundary.
pub proof fn lemma_boundary_step(b: Seq<u8>, i: int)
    requires
        valid_utf8(b),
        is_char_boundary(b, i),
        0 <= i < b.len(),
        b[i] < 0x80u8,
    ensures
        is_char_boundary(b, i + 1),
    decreases b.len(),
{
    let len1 = length_of_first_scalar(b);
    if i == 0 {
        reveal_with_fuel(is_char_boundary, 2);
        assert(len1 == 1);
    } else {
        let rest = pop_first_scalar(b);
        assert(valid_utf8(rest));
        assert(is_char_boundary(rest, i - len1));
        assert(rest[i - len1] == b[i]);
        lemma_boundary_step(rest, i - len1);
    }
}

/// In valid UTF-8 an ASCII byte begins a character, and so does the byte after it.
pub proof fn lemma_ascii_boundaries(b: Seq<u8>, i: int)
    requires
        valid_utf8(b),
        0 <= i < b.len(),
        b[i] < 0x80u8,
    ensures
        is_char_boundary(b, i),
        is_char_boundary(b, i + 1),
{
    is_char_boundary_iff_not_is_continuation_byte(b, i);
    lemma_boundary_step(b, i);
}

/// The ends of a valid UTF-8 sequence are character boundaries.
pub proof fn lemma_ends_are_boundaries(b: Seq<u8>)
    requires
        valid_utf8(b),
    ensures
        is_char_boundary(b, 0),
        is_char_boundary(b, b.len() as int),
{
    is_char_boundary_start_end_of_seq(b);
}

/// A boundary of `b` at or after `start` is a boundary of the suffix from `start`.
pub proof fn lemma_boundary_in_suffix(b: Seq<u8>, start: int, end: int)
    requires
        valid_utf8(b),
        is_char_boundary(b, start),
        is_char_boundary(b, end),
        0 <= start <= end <= b.len(),
    ensures
        valid_utf8(b.subrange(start, b.len() as int)),
        is_char_boundary(b.subrange(start, b.len() as int), end - start),
{
    let rest = b.subrange(start, b.len() as int);
    valid_utf8_split(b, start);
    is_char_boundary_start_end_of_seq(rest);
    if end < b.len() {
        is_char_boundary_iff_not_is_continuation_byte(b, end);
        is_char_boundary_iff_not_is_continuation_byte(rest, end - start);
        assert(rest[end - start] == b[end]);
    } else {
        assert(rest.len() == end - start);
    }
}

/// The string slice of `s` between two character boundaries.
pub fn sub_str(s: &str, start: usize, end: usize) -> (r: &str)
    requires
        start <= end <= bytes_of(s).len(),
        is_char_boundary(bytes_of(s), start as int),
        is_char_boundary(bytes_of(s), end as int),
    ensures
        bytes_of(r) == bytes_of(s).subrange(start as int, end as int),
        r@ == decode_utf8(bytes_of(s).subrange(start as int, end as int)),
{
    let ghost b = bytes_of(s);
    proof {
        lemma_boundary_in_suffix(b, start as int, end as int);
    }
    let (_, rest) = s.split_at(start);
    assert(bytes_of(rest) =~= b.subrange(start as int, b.len() as int));
    let (piece, _) = rest.split_at(end - start);
    assert(bytes_of(piece) =~= b.subrange(start as int, end as int));
    proof {
        encode_utf8_decode_utf8(piece@);
    }
    piece
}


// ---- lemmas on line starts ----

/// Shape of the line-start table of a prefix.
pub proof fn lemma_starts_upto(b: Seq<u8>, n: int)
    requires
        0 <= n <= b.len(),
        n <= usize::MAX,
    ensures
        starts_upto(b, n).len() == newlines_before(b, n) + 1,
        starts_upto(b, n)[0] == 0,
        starts_upto(b, n).last() == line_start_of(b, n),
        forall|i: int, j: int|
            0 <= i < j < starts_upto(b, n).len() ==> starts_upto(b, n)[i] < starts_upto(b, n)[j],
        forall|i: int| 0 <= i < starts_upto(b, n).len() ==> starts_upto(b, n)[i] <= n,
    decreases n,
{
    if n > 0 {
        lemma_starts_upto(b, n - 1);
    }
}

/// The line-start table of a prefix is a prefix of the table of a longer
/// prefix, and the entries that follow it lie beyond the shorter prefix.
pub proof fn lemma_starts_prefix(b: Seq<u8>, m: int, n: int)
    requires
        0 <= m <= n <= b.len(),
        n <= usize::MAX,
    ensures
        starts_upto(b, m).len() <= starts_upto(b, n).len(),
        forall|i: int| 0 <= i < starts_upto(b, m).len() ==> starts_upto(b, n)[i] == starts_upto(b, m)[i],
        forall|i: int|
            starts_upto(b, m).len() <= i < starts_upto(b, n).len() ==> starts_upto(b, n)[i] > m,
    decreases n - m,
{
    if m < n {
        lemma_starts_prefix(b, m, n - 1);
        lemma_starts_upto(b, n - 1);
    }
}

/// Every character count is bounded by the byte count.
pub proof fn lemma_char_starts_bound(b: Seq<u8>, lo: int, hi: int)
    ensures
        lo <= hi ==> char_starts(b, lo, hi) <= hi - lo,
    decreases hi - lo,
{
    if hi > lo {
        lemma_char_starts_bound(b, lo, hi - 1);
    }
}

/// The newline count is bounded by the byte count.
pub proof fn lemma_newlines_bound(b: Seq<u8>, p: int)
    ensures
        0 <= p ==> newlines_before(b, p) <= p,
    decreases p,
{
    if p > 0 {
        lemma_newlines_bound(b, p - 1);
    }
}

/// The line start of `p` lies in `[0, p]`.
pub proof fn lemma_line_start_bound(b: Seq<u8>, p: int)
    requires
        0 <= p,
    ensures
        0 <= line_start_of(b, p) <= p,
    decreases p,
{
    if p > 0 {
        lemma_line_start_bound(b, p - 1);
    }
}

// ---- executable helpers ----

/// Number of characters that begin in `b[lo..hi)`.
pub fn count_char_starts(b: &[u8], lo: usize, hi: usize) -> (r: usize)
    requires
        lo <= hi <= b@.len(),
    ensures
        r == char_starts(b@, lo as int, hi as int),
{
    let mut i = lo;
    let mut n: usize = 0;
    while i < hi
        invariant
            lo <= i <= hi <= b@.len(),
            n == char_starts(b@, lo as int, i as int),
            n <= i - lo,
        decreases hi - i,
    {
        if !(0x80u8 <= b[i] && b[i] <= 0xbfu8) {
            n = n + 1;
        }
        i = i + 1;
    }
    n
}

/// Byte offsets of each line start in `contents` (1-indexed line i at index i-1).
pub fn line_starts(contents: &str) -> (r: Vec<usize>)
    ensures
        r@ == line_starts_spec(bytes_of(contents)),
{
    let b = contents.as_bytes();
    let mut starts: Vec<usize> = Vec::new();
    starts.push(0);
    let mut i: usize = 0;
    while i < b.len()
        invariant
            i <= b@.len(),
            b@ == bytes_of(contents),
            starts@ == starts_upto(b@, i as int),
        decreases b@.len() - i,
    {
        if b[i] == 10u8 {
            starts.push(i + 1);
        }
        i = i + 1;
    }
    starts
}

/// The 1-based line and column of byte `offset` (clamped to the text's end),
/// given the text's line-start table. The offset must fall on a character
/// boundary, where the text can be sliced.
pub fn byte_to_line_col(contents: &str, starts: &[usize], offset: usize) -> (r: (usize, usize))
    requires
        starts@ == line_starts_spec(bytes_of(contents)),
        bytes_of(contents).len() < usize::MAX,
        is_char_boundary(
            bytes_of(contents),
            if offset <= bytes_of(contents).len() { offset as int } else { bytes_of(contents).len() as int },
        ),
    ensures
        r.0 as int == line_col(
            bytes_of(contents),
            if offset <= bytes_of(contents).len() { offset as int } else { bytes_of(contents).len() as int },
        ).0,
        r.1 as int == line_col(
            bytes_of(contents),
            if offset <= bytes_of(contents).len() { offset as int } else { bytes_of(contents).len() as int },
        ).1,
{
    let b = contents.as_bytes();
    let p = if offset <= b.len() { offset } else { b.len() };
    proof {
        lemma_starts_upto(b@, b@.len() as int);
        lemma_starts_upto(b@, p as int);
        lemma_starts_prefix(b@, p as int, b@.len() as int);
        lemma_newlines_bound(b@, p as int);
    }
    // Binary search: number of starts that are <= offset.
    let mut lo: usize = 0;
    let mut hi: usize = starts.len();
    while lo < hi
        invariant
            0 <= lo <= hi <= starts@.len(),
            starts@ == line_starts_spec(b@),
            forall|i: int, j: int| 0 <= i < j < starts@.len() ==> starts@[i] < starts@[j],
            forall|i: int| 0 <= i < lo ==> starts@[i] <= offset,
            forall|i: int| hi <= i < starts@.len() ==> starts@[i] > offset,
        decreases hi - lo,
    {
        let mid = lo + (hi - lo) / 2;
        if starts[mid] <= offset {
            lo = mid + 1;
        } else {
            hi = mid;
        }
    }
    let ghost pre = starts_upto(b@, p as int);
    assert(lo == pre.len()) by {
        if lo < pre.len() {
            assert(starts@[lo as int] == pre[lo as int]);
            assert(pre[lo as int] <= p);
        }
        if lo > pre.len() {
            assert(starts@[pre.len() as int] <= offset);
            assert(starts@[pre.len() as int] > p);
            assert(p == b@.len());
        }
    }
    let line_idx = lo - 1;
    let line_start = starts[line_idx];
    assert(line_start == line_start_of(b@, p as int));
    proof {
        lemma_line_start_bound(b@, p as int);
    }
    let col = count_char_starts(b, line_start, p);
    proof {
        lemma_char_starts_bound(b@, line_start as int, p as int);
    }
    (line_idx + 1, col + 1)
}

} // verus!
