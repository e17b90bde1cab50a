//! Word frequencies: the most frequent words and their counts per chunk of
//! text, from which the index of dispersion is computed.
use vstd::prelude::*;

use crate::metrics::{MIN_WORDS_FOR_DISPERSION, is_stop, is_stop_word, same_chars, tokenize, tokens};

verus! {

/// The character sequences of a list of words.
pub open spec fn word_views(words: Seq<Vec<char>>) -> Seq<Seq<char>> {
    words.map_values(|v: Vec<char>| v@)
}

/// Number of items of `ws` equal to `w`.
pub open spec fn occurrences(ws: Seq<Seq<char>>, w: Seq<char>) -> nat
    decreases ws.len(),
{
    if ws.len() == 0 {
        0
    } else {
        occurrences(ws.drop_last(), w) + if ws.last() == w {
            1nat
        } else {
            0nat
        }
    }
}

/// A word that the frequency statistic considers: not a stop word, and
/// present in the text.
pub open spec fn candidate(ws: Seq<Seq<char>>, w: Seq<char>) -> bool {
    !is_stop(w) && ws.contains(w)
}

/// `top` is a valid choice of the `top_n` most frequent candidates, ordered
/// by decreasing count (ties in any order).
pub open spec fn is_top(ws: Seq<Seq<char>>, top: Seq<Seq<char>>, top_n: int) -> bool {
    &&& top.len() <= top_n
    &&& forall|i: int, j: int| 0 <= i < j < top.len() ==> top[i] != top[j]
    &&& forall|i: int| 0 <= i < top.len() ==> candidate(ws, #[trigger] top[i])
    &&& forall|i: int, j: int|
        0 <= i < j < top.len() ==> occurrences(ws, #[trigger] top[i]) >= occurrences(
            ws,
            #[trigger] top[j],
        )
    &&& forall|w: Seq<char>, i: int|
        #![trigger candidate(ws, w), top[i]]
        candidate(ws, w) && !top.contains(w) && 0 <= i < top.len() ==> occurrences(ws, w)
            <= occurrences(ws, top[i])
    &&& top.len() < top_n ==> forall|w: Seq<char>| #[trigger] candidate(ws, w) ==> top.contains(w)
}

pub proof fn lemma_occurrences_bound(ws: Seq<Seq<char>>, w: Seq<char>)
    ensures
        occurrences(ws, w) <= ws.len(),
        occurrences(ws, w) > 0 <==> ws.contains(w),
    decreases ws.len(),
{
    if ws.len() > 0 {
        lemma_occurrences_bound(ws.drop_last(), w);
        if ws.drop_last().contains(w) {
            let k = choose|k: int| 0 <= k < ws.drop_last().len() && ws.drop_last()[k] == w;
            assert(ws[k] == w);
        }
        if ws.contains(w) && ws.last() != w {
            let k = choose|k: int| 0 <= k < ws.len() && ws[k] == w;
            assert(ws.drop_last()[k] == w);
        }
    }
}

/// The candidate words of `words` with their counts, in order of first appearance.
fn distinct_counts(words: &Vec<Vec<char>>) -> (r: (Vec<Vec<char>>, Vec<usize>))
    ensures
        r.0@.len() == r.1@.len(),
        forall|i: int, j: int| 0 <= i < j < r.0@.len() ==> r.0@[i]@ != r.0@[j]@,
        forall|i: int|
            0 <= i < r.0@.len() ==> candidate(word_views(words@), #[trigger] r.0@[i]@),
        forall|i: int|
            0 <= i < r.0@.len() ==> #[trigger] r.1@[i] == occurrences(
                word_views(words@),
                r.0@[i]@,
            ),
        forall|w: Seq<char>|
            #[trigger] candidate(word_views(words@), w) ==> exists|i: int|
                0 <= i < r.0@.len() && #[trigger] r.0@[i]@ == w,
{
    let ghost ws = word_views(words@);
    let mut dist: Vec<Vec<char>> = Vec::new();
    let mut counts: Vec<usize> = Vec::new();
    let mut k: usize = 0;
    while k < words.len()
        invariant
            ws == word_views(words@),
            k <= ws.len(),
            dist@.len() == counts@.len(),
            forall|i: int, j: int| 0 <= i < j < dist@.len() ==> dist@[i]@ != dist@[j]@,
            forall|i: int|
                0 <= i < dist@.len() ==> candidate(ws.take(k as int), #[trigger] dist@[i]@),
            forall|i: int|
                0 <= i < dist@.len() ==> #[trigger] counts@[i] == occurrences(
                    ws.take(k as int),
                    dist@[i]@,
                ),
            forall|w: Seq<char>|
                #[trigger] candidate(ws.take(k as int), w) ==> exists|i: int|
                    0 <= i < dist@.len() && #[trigger] dist@[i]@ == w,
        decreases ws.len() - k,
    {
        let w = &words[k];
        let ghost old_dist = dist@;
        let ghost pre = ws.take(k as int);
        let ghost post = ws.take(k + 1);
        assert(post.drop_last() =~= pre);
        assert(post.last() == w@);
        assert(forall|u: Seq<char>| post.contains(u) <==> (pre.contains(u) || u == w@)) by {
            assert forall|u: Seq<char>| post.contains(u) implies (pre.contains(u) || u == w@) by {
                let j = choose|j: int| 0 <= j < post.len() && post[j] == u;
                if j < k {
                    assert(pre[j] == u);
                }
            }
            assert forall|u: Seq<char>| pre.contains(u) implies post.contains(u) by {
                let j = choose|j: int| 0 <= j < pre.len() && pre[j] == u;
                assert(post[j] == u);
            }
            assert(post[k as int] == w@);
        }
        if !is_stop_word(w.as_slice()) {
            let mut m: usize = 0;
            while m < dist.len() && !same_chars(dist[m].as_slice(), w.as_slice())
                invariant
                    m <= dist@.len(),
                    forall|i: int| 0 <= i < m ==> dist@[i]@ != w@,
                decreases dist@.len() - m,
            {
                m = m + 1;
            }
            let found = m < dist.len();
            if found {
                proof {
                    lemma_occurrences_bound(pre, w@);
                }
                let c = counts[m] + 1;
                counts.set(m, c);
                assert(dist@[m as int]@ == w@);
            } else {
                proof {
                    lemma_occurrences_bound(pre, w@);
                    if pre.contains(w@) {
                        assert(candidate(pre, w@));
                    }
                }
                dist.push(w.clone());
                counts.push(1);
                assert(dist@[dist@.len() - 1]@ == w@);
            }
        }
        proof {
            assert forall|u: Seq<char>|
                #![trigger occurrences(post, u)]
                true implies occurrences(post, u) == occurrences(pre, u) + if u == w@ {
                    1nat
                } else {
                    0nat
                } by {}
            assert forall|i: int| 0 <= i < dist@.len() implies #[trigger] counts@[i] == occurrences(
                post,
                dist@[i]@,
            ) by {
                assert(occurrences(post, dist@[i]@) == occurrences(pre, dist@[i]@) + if dist@[i]@
                    == w@ {
                    1nat
                } else {
                    0nat
                });
            }
            assert forall|w2: Seq<char>| #[trigger] candidate(post, w2) implies exists|i: int|
                0 <= i < dist@.len() && #[trigger] dist@[i]@ == w2 by {
                if w2 != w@ {
                    assert(candidate(pre, w2));
                    let i = choose|i: int| 0 <= i < old_dist.len() && #[trigger] old_dist[i]@ == w2;
                    assert(dist@[i]@ == w2);
                } else {
                    let i = choose|i: int| 0 <= i < dist@.len() && #[trigger] dist@[i]@ == w@;
                }
            }
        }
        k = k + 1;
    }
    assert(ws.take(ws.len() as int) =~= ws);
    (dist, counts)
}

/// The `top_n` most frequent non-stop words of `words`, most frequent first.
pub fn top_words(words: &Vec<Vec<char>>, top_n: usize) -> (r: Vec<Vec<char>>)
    ensures
        is_top(word_views(words@), word_views(r@), top_n as int),
{
    let ghost ws = word_views(words@);
    let (dist, counts) = distinct_counts(words);
    let d = dist.len();
    let mut chosen: Vec<bool> = Vec::new();
    let mut i: usize = 0;
    while i < d
        invariant
            i <= d,
            chosen@.len() == i,
            forall|m: int| 0 <= m < i ==> !chosen@[m],
        decreases d - i,
    {
        chosen.push(false);
        i = i + 1;
    }
    let mut top: Vec<Vec<char>> = Vec::new();
    let ghost mut idx: Seq<int> = seq![];
    while top.len() < top_n && top.len() < d
        invariant
            ws == word_views(words@),
            d == dist@.len() == counts@.len() == chosen@.len(),
            forall|a: int, b: int| 0 <= a < b < dist@.len() ==> dist@[a]@ != dist@[b]@,
            forall|a: int| 0 <= a < dist@.len() ==> candidate(ws, #[trigger] dist@[a]@),
            forall|a: int|
                0 <= a < dist@.len() ==> #[trigger] counts@[a] == occurrences(ws, dist@[a]@),
            forall|w: Seq<char>|
                #[trigger] candidate(ws, w) ==> exists|a: int| 0 <= a < dist@.len() && #[trigger] dist@[a]@ == w,
            idx.len() == top@.len(),
            top@.len() <= top_n,
            top@.len() <= d,
            forall|t: int| 0 <= t < idx.len() ==> 0 <= #[trigger] idx[t] < d,
            forall|t: int| 0 <= t < idx.len() ==> #[trigger] top@[t]@ == dist@[idx[t]]@,
            forall|t: int, u: int| 0 <= t < u < idx.len() ==> idx[t] != idx[u],
            forall|a: int| 0 <= a < d ==> (#[trigger] chosen@[a] <==> idx.contains(a)),
            forall|t: int, u: int|
                0 <= t < u < idx.len() ==> counts@[#[trigger] idx[t]] >= counts@[#[trigger] idx[u]],
            forall|a: int, t: int|
                #![trigger chosen@[a], idx[t]]
                0 <= a < d && !chosen@[a] && 0 <= t < idx.len() ==> counts@[a] <= counts@[idx[t]],
        decreases d - top@.len(),
    {
        // The first unchosen entry with the largest count.
        let mut best: usize = d;
        let mut m: usize = 0;
        while m < d
            invariant
                d == counts@.len() == chosen@.len(),
                forall|a: int| 0 <= a < d ==> (#[trigger] chosen@[a] <==> idx.contains(a)),
                m <= d,
                best == d || (best < m && !chosen@[best as int]),
                best == d ==> forall|a: int| 0 <= a < m ==> chosen@[a],
                best < d ==> forall|a: int|
                    0 <= a < m && !chosen@[a] ==> counts@[a] <= counts@[best as int],
            decreases d - m,
        {
            if !chosen[m] && (best == d || counts[m] > counts[best]) {
                best = m;
            }
            m = m + 1;
        }
        assert(best < d) by {
            if best == d {
                // Every entry is chosen, so every index of `dist` is in `idx`,
                // which is impossible while `idx` is shorter than `dist`.
                assert forall|a: int| 0 <= a < d implies idx.contains(a) by {
                    assert(chosen@[a]);
                }
                lemma_injective_cover(idx, d as int);
            }
        }
        let ghost old_idx = idx;
        proof {
            idx = idx.push(best as int);
        }
        top.push(dist[best].clone());
        chosen.set(best, true);
        assert forall|a: int| 0 <= a < d implies (#[trigger] chosen@[a] <==> idx.contains(a)) by {
            if a == best as int {
                assert(idx[idx.len() - 1] == a);
            } else {
                if idx.contains(a) {
                    let t = choose|t: int| 0 <= t < idx.len() && idx[t] == a;
                    assert(t < old_idx.len());
                    assert(old_idx[t] == a);
                }
                if old_idx.contains(a) {
                    let t = choose|t: int| 0 <= t < old_idx.len() && old_idx[t] == a;
                    assert(idx[t] == a);
                }
            }
        }
        assert forall|t: int, u: int| 0 <= t < u < idx.len() implies idx[t] != idx[u] by {
            if u == idx.len() - 1 {
                assert(old_idx.contains(idx[t]));
            }
        }
    }
    proof {
        let tw = word_views(top@);
        assert forall|t: int, u: int| 0 <= t < u < tw.len() implies tw[t] != tw[u] by {
            assert(tw[t] == dist@[idx[t]]@);
            assert(tw[u] == dist@[idx[u]]@);
        }
        assert forall|t: int| 0 <= t < tw.len() implies candidate(ws, #[trigger] tw[t]) by {
            assert(tw[t] == dist@[idx[t]]@);
        }
        assert forall|t: int, u: int|
            0 <= t < u < tw.len() implies occurrences(ws, #[trigger] tw[t]) >= occurrences(
            ws,
            #[trigger] tw[u],
        ) by {
            assert(tw[t] == dist@[idx[t]]@);
            assert(tw[u] == dist@[idx[u]]@);
        }
        assert forall|w: Seq<char>, t: int|
            #![trigger candidate(ws, w), tw[t]]
            candidate(ws, w) && !tw.contains(w) && 0 <= t < tw.len() implies occurrences(ws, w)
            <= occurrences(ws, tw[t]) by {
            let a = choose|a: int| 0 <= a < dist@.len() && #[trigger] dist@[a]@ == w;
            assert(tw[t] == dist@[idx[t]]@);
            if chosen@[a] {
                let s = choose|s: int| 0 <= s < idx.len() && idx[s] == a;
                assert(tw[s] == w);
            }
        }
        if tw.len() < top_n {
            assert(top@.len() == d);
            assert forall|w: Seq<char>| candidate(ws, w) implies tw.contains(w) by {
                let a = choose|a: int| 0 <= a < dist@.len() && #[trigger] dist@[a]@ == w;
                lemma_full_cover(idx, d as int, a);
                let s = choose|s: int| 0 <= s < idx.len() && idx[s] == a;
                assert(tw[s] == w);
            }
        }
    }
    top
}

/// A duplicate-free sequence of indices below `d` that covers all of them
/// has length at least `d`.
proof fn lemma_injective_cover(idx: Seq<int>, d: int)
    requires
        0 <= d,
        forall|t: int, u: int| 0 <= t < u < idx.len() ==> idx[t] != idx[u],
        forall|t: int| 0 <= t < idx.len() ==> 0 <= #[trigger] idx[t] < d,
        forall|a: int| 0 <= a < d ==> idx.contains(a),
    ensures
        idx.len() >= d,
{
    let s = idx.to_set();
    assert(idx.no_duplicates());
    assert(s =~= vstd::set_lib::set_int_range(0, d)) by {
        assert forall|a: int| s.contains(a) <==> 0 <= a < d by {
            if s.contains(a) {
                let t = choose|t: int| 0 <= t < idx.len() && idx[t] == a;
            }
        }
    }
    vstd::set_lib::lemma_int_range(0, d);
    idx.unique_seq_to_set();
}

/// A duplicate-free sequence of `d` indices below `d` contains each of them.
proof fn lemma_full_cover(idx: Seq<int>, d: int, a: int)
    requires
        0 <= a < d,
        idx.len() == d,
        forall|t: int, u: int| 0 <= t < u < idx.len() ==> idx[t] != idx[u],
        forall|t: int| 0 <= t < idx.len() ==> 0 <= #[trigger] idx[t] < d,
    ensures
        idx.contains(a),
{
    let s = idx.to_set();
    assert(idx.no_duplicates());
    idx.unique_seq_to_set();
    let full = vstd::set_lib::set_int_range(0, d);
    vstd::set_lib::lemma_int_range(0, d);
    assert(s.subset_of(full)) by {
        assert forall|x: int| s.contains(x) implies full.contains(x) by {
            let t = choose|t: int| 0 <= t < idx.len() && idx[t] == x;
        }
    }
    vstd::set_lib::lemma_subset_equality(s, full);
    assert(full.contains(a));
}


// ---- chunks ----

/// The ranges `[lo, hi)` of the consecutive chunks of `size` items that
/// cover `[lo, n)`; the last one may be shorter.
pub open spec fn chunk_ranges(n: int, size: int, lo: int) -> Seq<(int, int)>
    decreases n - lo,
{
    if size <= 0 || lo >= n {
        seq![]
    } else {
        if lo + size < n {
            seq![(lo, lo + size)] + chunk_ranges(n, size, lo + size)
        } else {
            seq![(lo, n)]
        }
    }
}

/// Occurrences of `w` in each chunk of `size` words.
pub open spec fn per_chunk(ws: Seq<Seq<char>>, w: Seq<char>, size: int) -> Seq<int> {
    chunk_ranges(ws.len() as int, size, 0).map_values(
        |r: (int, int)| occurrences(ws.subrange(r.0, r.1), w) as int,
    )
}

/// Sum of a sequence of integers.
pub open spec fn total(s: Seq<int>) -> int
    decreases s.len(),
{
    if s.len() == 0 {
        0
    } else {
        s[0] + total(s.drop_first())
    }
}

/// Occurrences over two sequences add up.
pub proof fn lemma_occurrences_concat(a: Seq<Seq<char>>, b: Seq<Seq<char>>, w: Seq<char>)
    ensures
        occurrences(a + b, w) == occurrences(a, w) + occurrences(b, w),
    decreases b.len(),
{
    if b.len() > 0 {
        assert((a + b).drop_last() =~= a + b.drop_last());
        lemma_occurrences_concat(a, b.drop_last(), w);
    } else {
        assert(a + b =~= a);
    }
}

/// Occurrences of `w` in the chunks that start at `lo` add up to its
/// occurrences in `ws[lo..]`.
proof fn lemma_chunk_counts_from(ws: Seq<Seq<char>>, w: Seq<char>, size: int, lo: int)
    requires
        size > 0,
        0 <= lo <= ws.len(),
    ensures
        total(
            chunk_ranges(ws.len() as int, size, lo).map_values(
                |r: (int, int)| occurrences(ws.subrange(r.0, r.1), w) as int,
            ),
        ) == occurrences(ws.subrange(lo, ws.len() as int), w),
    decreases ws.len() - lo,
{
    let n = ws.len() as int;
    let f = |r: (int, int)| occurrences(ws.subrange(r.0, r.1), w) as int;
    let counts = chunk_ranges(n, size, lo).map_values(f);
    if lo >= n {
        assert(ws.subrange(lo, n) =~= Seq::<Seq<char>>::empty());
    } else if lo + size < n {
        let rest = chunk_ranges(n, size, lo + size);
        lemma_chunk_counts_from(ws, w, size, lo + size);
        assert(counts.drop_first() =~= rest.map_values(f));
        assert(ws.subrange(lo, n) =~= ws.subrange(lo, lo + size) + ws.subrange(lo + size, n));
        lemma_occurrences_concat(ws.subrange(lo, lo + size), ws.subrange(lo + size, n), w);
        assert(counts[0] == occurrences(ws.subrange(lo, lo + size), w));
        assert(total(counts) == counts[0] + total(counts.drop_first()));
        assert(total(counts) == occurrences(ws.subrange(lo, n), w));
    } else {
        assert(counts.drop_first() =~= Seq::<int>::empty());
        assert(counts[0] == occurrences(ws.subrange(lo, n), w));
        assert(total(counts) == counts[0] + total(counts.drop_first()));
        assert(total(counts) == occurrences(ws.subrange(lo, n), w));
    }
}

/// The chunks split the words without loss: for a positive chunk size, the
/// per-chunk counts of a word add up to its count in the whole text.
pub proof fn lemma_per_chunk_total(ws: Seq<Seq<char>>, w: Seq<char>, size: int)
    requires
        size > 0,
    ensures
        total(per_chunk(ws, w, size)) == occurrences(ws, w),
{
    lemma_chunk_counts_from(ws, w, size, 0);
    assert(ws.subrange(0, ws.len() as int) =~= ws);
}

/// The chunk ranges of `n` items.
fn chunk_bounds(n: usize, size: usize) -> (r: Vec<(usize, usize)>)
    requires
        size > 0,
    ensures
        r@.map_values(|x: (usize, usize)| (x.0 as int, x.1 as int)) == chunk_ranges(
            n as int,
            size as int,
            0,
        ),
        forall|k: int| 0 <= k < r@.len() ==> #[trigger] r@[k].0 <= r@[k].1 <= n,
{
    let mut out: Vec<(usize, usize)> = Vec::new();
    let mut lo: usize = 0;
    while lo < n
        invariant
            size > 0,
            lo <= n,
            chunk_ranges(n as int, size as int, 0) == out@.map_values(
                |x: (usize, usize)| (x.0 as int, x.1 as int),
            ) + chunk_ranges(n as int, size as int, lo as int),
            forall|k: int| 0 <= k < out@.len() ==> #[trigger] out@[k].0 <= out@[k].1 <= n,
        decreases n - lo,
    {
        let hi = if n - lo > size {
            lo + size
        } else {
            n
        };
        let ghost before = out@.map_values(|x: (usize, usize)| (x.0 as int, x.1 as int));
        out.push((lo, hi));
        assert(out@.map_values(|x: (usize, usize)| (x.0 as int, x.1 as int)) =~= before.push(
            (lo as int, hi as int),
        ));
        lo = hi;
    }
    assert(chunk_ranges(n as int, size as int, 0) =~= out@.map_values(
        |x: (usize, usize)| (x.0 as int, x.1 as int),
    ));
    out
}

/// Occurrences of `w` among `words[lo..hi)`.
fn count_in(words: &Vec<Vec<char>>, w: &Vec<char>, lo: usize, hi: usize) -> (r: usize)
    requires
        lo <= hi <= words@.len(),
    ensures
        r == occurrences(word_views(words@).subrange(lo as int, hi as int), w@),
{
    let ghost ws = word_views(words@);
    let mut n: usize = 0;
    let mut i = lo;
    while i < hi
        invariant
            ws == word_views(words@),
            lo <= i <= hi <= ws.len(),
            n == occurrences(ws.subrange(lo as int, i as int), w@),
            n <= i - lo,
        decreases hi - i,
    {
        assert(ws.subrange(lo as int, i + 1).drop_last() =~= ws.subrange(lo as int, i as int));
        if same_chars(words[i].as_slice(), w.as_slice()) {
            n = n + 1;
        }
        i = i + 1;
    }
    n
}

/// A frequent word and its number of occurrences in each chunk.
pub struct WordSpread {
    pub word: Vec<char>,
    pub per_chunk: Vec<usize>,
}

pub open spec fn spread_words(v: Seq<WordSpread>) -> Seq<Seq<char>> {
    v.map_values(|x: WordSpread| x.word@)
}

/// The text is too short, or no word qualifies, so the statistic stops
/// before it splits the words into chunks.
pub open spec fn stops_early(cs: Seq<char>, top_n: int) -> bool {
    let ws = tokens(cs);
    ws.len() < MIN_WORDS_FOR_DISPERSION || top_n == 0 || !exists|w: Seq<char>|
        #[trigger] candidate(ws, w)
}

/// Whether the word-frequency statistic stops before chunking `text`.
pub fn stops_before_chunking(text: &str, top_n: usize) -> (r: bool)
    ensures
        r == stops_early(text@, top_n as int),
{
    let words = tokenize(text);
    let ghost ws = word_views(words@);
    assert(ws == tokens(text@));
    if words.len() < MIN_WORDS_FOR_DISPERSION || top_n == 0 {
        return true;
    }
    let mut k: usize = 0;
    while k < words.len()
        invariant
            ws == word_views(words@),
            ws == tokens(text@),
            ws.len() >= MIN_WORDS_FOR_DISPERSION,
            top_n > 0,
            k <= ws.len(),
            forall|j: int| 0 <= j < k ==> is_stop(#[trigger] ws[j]),
        decreases ws.len() - k,
    {
        if !is_stop_word(words[k].as_slice()) {
            assert(ws.contains(ws[k as int]));
            assert(candidate(ws, ws[k as int]));
            assert(!stops_early(text@, top_n as int));
            return false;
        }
        k = k + 1;
    }
    assert forall|w: Seq<char>| !(#[trigger] candidate(ws, w)) by {
        if candidate(ws, w) {
            let j = choose|j: int| 0 <= j < ws.len() && ws[j] == w;
        }
    }
    true
}

/// For the `top_n` most frequent non-stop words of `text`, the number of
/// times each occurs in each chunk of `chunk_size` words. `None` when the
/// text has fewer than 100 words, when no word qualifies, or when the words
/// fill fewer than two chunks.
pub fn dispersion_counts(text: &str, chunk_size: usize, top_n: usize) -> (r: Option<Vec<WordSpread>>)
    requires
        chunk_size > 0 || stops_early(text@, top_n as int),
    ensures
        r is None <==> (stops_early(text@, top_n as int) || chunk_ranges(
            tokens(text@).len() as int,
            chunk_size as int,
            0,
        ).len() < 2),
        r matches Some(v) ==> {
            &&& is_top(tokens(text@), spread_words(v@), top_n as int)
            &&& forall|k: int|
                0 <= k < v@.len() ==> (#[trigger] v@[k]).per_chunk@.map_values(|c: usize| c as int)
                    == per_chunk(tokens(text@), v@[k].word@, chunk_size as int)
        },
{
    let words = tokenize(text);
    let ghost ws = word_views(words@);
    assert(ws == tokens(text@));
    if words.len() < MIN_WORDS_FOR_DISPERSION {
        return None;
    }
    let top = top_words(&words, top_n);
    let ghost tw = word_views(top@);
    if top.len() == 0 {
        proof {
            if top_n > 0 {
                assert forall|w: Seq<char>| !(#[trigger] candidate(ws, w)) by {
                    if candidate(ws, w) {
                        assert(tw.contains(w));
                    }
                }
            }
        }
        return None;
    }
    proof {
        assert(candidate(ws, tw[0]));
    }
    let bounds = chunk_bounds(words.len(), chunk_size);
    if bounds.len() < 2 {
        return None;
    }
    let mut out: Vec<WordSpread> = Vec::new();
    let mut k: usize = 0;
    while k < top.len()
        invariant
            ws == word_views(words@),
            tw == word_views(top@),
            chunk_size > 0,
            bounds@.map_values(|x: (usize, usize)| (x.0 as int, x.1 as int)) == chunk_ranges(
                ws.len() as int,
                chunk_size as int,
                0,
            ),
            forall|j: int| 0 <= j < bounds@.len() ==> #[trigger] bounds@[j].0 <= bounds@[j].1 <= ws.len(),
            k <= top@.len(),
            out@.len() == k,
            forall|j: int| 0 <= j < k ==> (#[trigger] out@[j]).word@ == tw[j],
            forall|j: int|
                0 <= j < k ==> (#[trigger] out@[j]).per_chunk@.map_values(|c: usize| c as int)
                    == per_chunk(ws, tw[j], chunk_size as int),
        decreases top@.len() - k,
    {
        let w = &top[k];
        let mut counts: Vec<usize> = Vec::new();
        let mut j: usize = 0;
        while j < bounds.len()
            invariant
                ws == word_views(words@),
                forall|q: int|
                    0 <= q < bounds@.len() ==> #[trigger] bounds@[q].0 <= bounds@[q].1 <= ws.len(),
                j <= bounds@.len(),
                counts@.len() == j,
                forall|q: int|
                    0 <= q < j ==> #[trigger] counts@[q] == occurrences(
                        ws.subrange(bounds@[q].0 as int, bounds@[q].1 as int),
                        w@,
                    ),
            decreases bounds@.len() - j,
        {
            let (lo, hi) = bounds[j];
            let c = count_in(&words, w, lo, hi);
            counts.push(c);
            j = j + 1;
        }
        assert(counts@.map_values(|c: usize| c as int) =~= per_chunk(ws, tw[k as int], chunk_size as int));
        out.push(WordSpread { word: w.clone(), per_chunk: counts });
        k = k + 1;
    }
    assert(spread_words(out@) =~= tw);
    Some(out)
}


/// `dispersion_counts` for any chunk size: `None` where the chunk size is
/// zero and the statistic would have to chunk the words, else what
/// `dispersion_counts` gives.
pub fn checked_dispersion_counts(text: &str, chunk_size: usize, top_n: usize) -> (r: Option<
    Option<Vec<WordSpread>>,
>)
    ensures
        r is None <==> (chunk_size == 0 && !stops_early(text@, top_n as int)),
        r matches Some(o) ==> {
            &&& o is None <==> (stops_early(text@, top_n as int) || chunk_ranges(
                tokens(text@).len() as int,
                chunk_size as int,
                0,
            ).len() < 2)
            &&& o matches Some(v) ==> {
                &&& is_top(tokens(text@), spread_words(v@), top_n as int)
                &&& forall|k: int|
                    0 <= k < v@.len() ==> (#[trigger] v@[k]).per_chunk@.map_values(
                        |c: usize| c as int,
                    ) == per_chunk(tokens(text@), v@[k].word@, chunk_size as int)
            }
        },
{
    if chunk_size == 0 && !stops_before_chunking(text, top_n) {
        None
    } else {
        Some(dispersion_counts(text, chunk_size, top_n))
    }
}

} // verus!
