//! Character-level helpers: Unicode whitespace, word counts and leading
//! whitespace.
use vstd::prelude::*;
use vstd::utf8::{encode_utf8, encode_scalar, is_char_boundary, valid_utf8, has_width_1_encoding, has_width_2_encoding, has_width_3_encoding, has_width_4_encoding};

verus! {

broadcast use vstd::string::group_string_axioms;

/// The characters with the Unicode `White_Space` property, which is what
/// `char::is_whitespace` tests.
pub open spec fn is_white_space(c: char) -> bool {
    let u = c as u32;
    ||| (0x09 <= u && u <= 0x0d)
    ||| u == 0x20
    ||| u == 0x85
    ||| u == 0xa0
    ||| u == 0x1680
    ||| (0x2000 <= u && u <= 0x200a)
    ||| u == 0x2028
    ||| u == 0x2029
    ||| u == 0x202f
    ||| u == 0x205f
    ||| u == 0x3000
}

/// `char::is_whitespace`.
pub fn is_whitespace_char(c: char) -> (r: bool)
    ensures
        r == is_white_space(c),
{
    let u = c as u32;
    (0x09 <= u && u <= 0x0d) || u == 0x20 || u == 0x85 || u == 0xa0 || u == 0x1680 || (0x2000 <= u
        && u <= 0x200a) || u == 0x2028 || u == 0x2029 || u == 0x202f || u == 0x205f || u == 0x3000
}

/// The characters of a string slice, in order.
pub fn chars_of(s: &str) -> (r: Vec<char>)
    ensures
        r@ == s@,
{
    let mut v: Vec<char> = Vec::new();
    for c in it: s.chars()
        invariant
            it.seq() == s@,
            v@ == it.seq().take(it.index()),
    {
        assert(it.seq().take(it.index() + 1) =~= v@.push(c));
        v.push(c);
    }
    assert(s@.take(s@.len() as int) =~= s@);
    v
}

/// Number of words in the first `n` characters: a word begins at a
/// character that is not whitespace and follows whitespace or the start.
pub open spec fn word_starts(cs: Seq<char>, n: int) -> nat
    decreases n,
{
    if n <= 0 {
        0
    } else {
        word_starts(cs, n - 1) + if !is_white_space(cs[n - 1]) && (n - 1 == 0 || is_white_space(
            cs[n - 2],
        )) {
            1nat
        } else {
            0nat
        }
    }
}

/// Number of whitespace-separated words, as `str::split_whitespace` counts them.
pub open spec fn words_in(cs: Seq<char>) -> nat {
    word_starts(cs, cs.len() as int)
}

/// Number of words in a character sequence.
pub fn count_words(cs: &Vec<char>) -> (r: usize)
    ensures
        r == words_in(cs@),
{
    let mut n: usize = 0;
    let mut i: usize = 0;
    while i < cs.len()
        invariant
            i <= cs@.len(),
            n == word_starts(cs@, i as int),
            n <= i,
        decreases cs@.len() - i,
    {
        if !is_whitespace_char(cs[i]) && (i == 0 || is_whitespace_char(cs[i - 1])) {
            n = n + 1;
        }
        i = i + 1;
    }
    n
}

/// Number of whitespace-separated words in `text` (`split_whitespace().count()`).
pub fn word_count(text: &str) -> (r: usize)
    ensures
        r == words_in(text@),
{
    let cs = chars_of(text);
    count_words(&cs)
}

/// Every character is whitespace (`trim()` leaves nothing).
pub open spec fn all_white(cs: Seq<char>) -> bool {
    forall|i: int| 0 <= i < cs.len() ==> is_white_space(#[trigger] cs[i])
}

/// True when `text` is empty or all whitespace.
pub fn is_blank(text: &str) -> (r: bool)
    ensures
        r == all_white(text@),
{
    let cs = chars_of(text);
    let mut i: usize = 0;
    while i < cs.len()
        invariant
            i <= cs@.len(),
            cs@ == text@,
            forall|k: int| 0 <= k < i ==> is_white_space(#[trigger] cs@[k]),
        decreases cs@.len() - i,
    {
        if !is_whitespace_char(cs[i]) {
            return false;
        }
        i = i + 1;
    }
    true
}

/// Number of leading whitespace characters among the first `n`.
pub open spec fn lead_white_upto(cs: Seq<char>, n: int) -> int
    decreases n,
{
    if n <= 0 {
        0
    } else if lead_white_upto(cs, n - 1) == n - 1 && is_white_space(cs[n - 1]) {
        n
    } else {
        lead_white_upto(cs, n - 1)
    }
}

/// Number of leading whitespace characters (what `trim_start` removes).
pub open spec fn lead_white(cs: Seq<char>) -> int {
    lead_white_upto(cs, cs.len() as int)
}

/// Number of bytes that the leading whitespace of `cs` takes in UTF-8.
pub open spec fn lead_white_bytes(cs: Seq<char>) -> int {
    encode_utf8(cs.take(lead_white(cs))).len() as int
}

/// Length in bytes of the UTF-8 encoding of `c` (`char::len_utf8`).
pub fn utf8_len(c: char) -> (r: usize)
    ensures
        r == encode_scalar(c as u32).len(),
        1 <= r <= 4,
{
    proof {
        vstd::utf8::char_is_scalar(c);
    }
    let u = c as u32;
    if u <= 0x7f {
        1
    } else if u <= 0x7ff {
        2
    } else if u <= 0xffff {
        3
    } else {
        4
    }
}

/// UTF-8 encoding distributes over concatenation.
pub proof fn lemma_encode_utf8_add(a: Seq<char>, b: Seq<char>)
    ensures
        encode_utf8(a + b) == encode_utf8(a) + encode_utf8(b),
    decreases a.len(),
{
    if a.len() == 0 {
        assert(a + b =~= b);
    } else {
        lemma_encode_utf8_add(a.drop_first(), b);
        assert((a + b).drop_first() =~= a.drop_first() + b);
        assert((a + b)[0] == a[0]);
        assert(encode_utf8(a) + encode_utf8(b) =~= encode_scalar(a[0] as u32) + (encode_utf8(a.drop_first()) + encode_utf8(b)));
    }
}

/// Encoding one more character adds its width.
pub proof fn lemma_encode_take_step(cs: Seq<char>, n: int)
    requires
        0 <= n < cs.len(),
    ensures
        encode_utf8(cs.take(n + 1)).len() == encode_utf8(cs.take(n)).len() + encode_scalar(
            cs[n] as u32,
        ).len(),
{
    assert(cs.take(n + 1) =~= cs.take(n) + seq![cs[n]]);
    lemma_encode_utf8_add(cs.take(n), seq![cs[n]]);
    assert(seq![cs[n]].drop_first() =~= Seq::<char>::empty());
    assert(encode_utf8(seq![cs[n]]) =~= encode_scalar(cs[n] as u32) + encode_utf8(Seq::<char>::empty()));
}

/// Where the encoding of `t` lies at `b[start..end)`, the end of the
/// encoding of each prefix of `t` is a character boundary of `b`.
pub proof fn lemma_prefix_boundary(b: Seq<u8>, start: int, end: int, t: Seq<char>, n: int)
    requires
        valid_utf8(b),
        0 <= start <= end <= b.len(),
        is_char_boundary(b, end),
        encode_utf8(t) == b.subrange(start, end),
        0 <= n <= t.len(),
    ensures
        is_char_boundary(b, start + encode_utf8(t.take(n)).len()),
{
    let head = t.take(n);
    let tail = t.skip(n);
    lemma_encode_utf8_add(head, tail);
    assert(head + tail =~= t);
    let k = encode_utf8(head).len() as int;
    if n < t.len() {
        let e = encode_utf8(tail);
        vstd::utf8::encode_utf8_valid_utf8(tail);
        vstd::utf8::encode_utf8_first_scalar(tail);
        assert(e.len() > 0);
        vstd::utf8::is_char_boundary_start_end_of_seq(e);
        vstd::utf8::is_char_boundary_iff_not_is_continuation_byte(e, 0);
        assert(encode_utf8(t) == encode_utf8(head) + e);
        assert(encode_utf8(t)[k] == e[0]);
        assert(b.subrange(start, end).len() == end - start);
        assert((encode_utf8(head) + e).len() == k + e.len());
        assert(k < end - start);
        assert(b.subrange(start, end)[k] == e[0]);
        assert(b[start + k] == e[0]);
        vstd::utf8::is_char_boundary_iff_not_is_continuation_byte(b, start + k);
    } else {
        assert(tail =~= Seq::<char>::empty());
        assert(k == end - start);
    }
}

/// The end of the leading whitespace of a piece of text is a character
/// boundary of the text that holds it.
pub proof fn lemma_lead_white_boundary(b: Seq<u8>, start: int, end: int, t: Seq<char>)
    requires
        valid_utf8(b),
        0 <= start <= end <= b.len(),
        is_char_boundary(b, end),
        encode_utf8(t) == b.subrange(start, end),
    ensures
        is_char_boundary(b, start + lead_white_bytes(t)),
{
    lemma_lead_white_bound(t, t.len() as int);
    lemma_prefix_boundary(b, start, end, t, lead_white(t));
}

/// Length in bytes of the leading whitespace of `text` (`text.len() - text.trim_start().len()`).
pub fn lead_white_len(text: &str) -> (r: usize)
    ensures
        r == lead_white_bytes(text@),
        r <= encode_utf8(text@).len(),
{
    let cs = chars_of(text);
    let total = text.as_bytes().len();
    let mut i: usize = 0;
    let mut bytes: usize = 0;
    proof {
        vstd::utf8::encode_utf8_valid_utf8(text@);
    }
    while i < cs.len() && is_whitespace_char(cs[i])
        invariant
            i <= cs@.len(),
            cs@ == text@,
            lead_white_upto(cs@, i as int) == i,
            bytes == encode_utf8(cs@.take(i as int)).len(),
            encode_utf8(cs@).len() == total,
        decreases cs@.len() - i,
    {
        proof {
            lemma_encode_take_step(cs@, i as int);
            lemma_encode_utf8_add(cs@.take(i + 1), cs@.skip(i + 1));
            assert(cs@.take(i + 1) + cs@.skip(i + 1) =~= cs@);
        }
        bytes = bytes + utf8_len(cs[i]);
        i = i + 1;
    }
    proof {
        lemma_lead_white_stable(cs@, i as int, cs@.len() as int);
        lemma_encode_utf8_add(cs@.take(i as int), cs@.skip(i as int));
        assert(cs@.take(i as int) + cs@.skip(i as int) =~= cs@);
    }
    bytes
}

/// Number of leading whitespace characters of `cs`.
pub fn lead_white_count(cs: &Vec<char>) -> (r: usize)
    ensures
        r == lead_white(cs@),
        r <= cs@.len(),
{
    let mut i: usize = 0;
    while i < cs.len() && is_whitespace_char(cs[i])
        invariant
            i <= cs@.len(),
            lead_white_upto(cs@, i as int) == i,
        decreases cs@.len() - i,
    {
        i = i + 1;
    }
    proof {
        lemma_lead_white_stable(cs@, i as int, cs@.len() as int);
    }
    i
}

/// Number of words in `cs[lo..hi)`.
pub fn count_words_in(cs: &Vec<char>, lo: usize, hi: usize) -> (r: usize)
    requires
        lo <= hi <= cs@.len(),
    ensures
        r == words_in(cs@.subrange(lo as int, hi as int)),
{
    let ghost t = cs@.subrange(lo as int, hi as int);
    let mut n: usize = 0;
    let mut i: usize = lo;
    while i < hi
        invariant
            lo <= i <= hi <= cs@.len(),
            t == cs@.subrange(lo as int, hi as int),
            n == word_starts(t, i - lo),
            n <= i - lo,
        decreases hi - i,
    {
        if !is_whitespace_char(cs[i]) && (i == lo || is_whitespace_char(cs[i - 1])) {
            n = n + 1;
        }
        i = i + 1;
    }
    n
}

/// Number of words in `cs` from index `from` on.
pub fn count_words_from(cs: &Vec<char>, from: usize) -> (r: usize)
    requires
        from <= cs@.len(),
    ensures
        r == words_in(cs@.skip(from as int)),
{
    let ghost t = cs@.skip(from as int);
    let mut n: usize = 0;
    let mut i: usize = from;
    while i < cs.len()
        invariant
            from <= i <= cs@.len(),
            t == cs@.skip(from as int),
            n == word_starts(t, i - from),
            n <= i - from,
        decreases cs@.len() - i,
    {
        if !is_whitespace_char(cs[i]) && (i == from || is_whitespace_char(cs[i - 1])) {
            n = n + 1;
        }
        i = i + 1;
    }
    n
}

/// Once the leading run of whitespace has ended before `i`, it stays the same.
pub proof fn lemma_lead_white_stable(cs: Seq<char>, i: int, n: int)
    requires
        0 <= i <= n <= cs.len(),
        lead_white_upto(cs, i) == i,
        i == cs.len() || !is_white_space(cs[i]),
    ensures
        lead_white_upto(cs, n) == i,
    decreases n - i,
{
    if n > i {
        lemma_lead_white_stable(cs, i, n - 1);
        if n - 1 == i {
        }
        lemma_lead_white_bound(cs, n - 1);
    }
}

pub proof fn lemma_lead_white_bound(cs: Seq<char>, n: int)
    ensures
        0 <= n ==> 0 <= lead_white_upto(cs, n) <= n,
    decreases n,
{
    if n > 0 {
        lemma_lead_white_bound(cs, n - 1);
    }
}

} // verus!
