//! The integer side of the file-level statistics: sentence word counts,
//! tokens, and per-chunk counts of the most frequent words. The
//! floating-point statistics over these counts are computed by the caller.
use vstd::prelude::*;

use crate::chars::{chars_of, count_words_in, utf8_len, words_in};
use vstd::utf8::{encode_utf8, encode_scalar};

verus! {

/// Minimum number of sentences for sentence-length statistics.
pub const MIN_SENTENCES: usize = 5;

/// Minimum number of words for the word-frequency statistic.
pub const MIN_WORDS_FOR_DISPERSION: usize = 100;

/// Whether `char::is_alphanumeric` holds of `c` (the Unicode `Alphabetic`
/// or `Numeric` property).
pub uninterp spec fn alphanumeric(c: char) -> bool;

/// `char::is_alphanumeric`. The contract names the result and states the
/// ASCII case (letters and digits); the Unicode tables that decide the rest
/// are left to the name.
#[verifier::external_body]
pub(crate) fn is_alphanumeric(c: char) -> (r: bool)
    ensures
        r == alphanumeric(c),
        (c as u32) < 0x80 ==> (r <==> (('a' <= c && c <= 'z') || ('A' <= c && c <= 'Z') || ('0' <= c
            && c <= '9'))),
{
    c.is_alphanumeric()
}

// ---- sentence splitting for statistics ----

/// `.`, `!` or `?`.
pub open spec fn terminal(c: char) -> bool {
    c == '.' || c == '!' || c == '?'
}

/// `u8::is_ascii_whitespace` on a character: space, tab, line feed, form
/// feed or carriage return.
pub open spec fn ascii_space(c: char) -> bool {
    c == ' ' || c == '\t' || c == '\n' || c == '\x0C' || c == '\r'
}

/// Index of the last character of the run of terminal punctuation that
/// contains index `i`, scanning forward.
pub open spec fn run_end(cs: Seq<char>, i: int) -> int
    decreases cs.len() - i,
{
    if 0 <= i && i + 1 < cs.len() && terminal(cs[i + 1]) {
        run_end(cs, i + 1)
    } else {
        i
    }
}

/// The character after index `e` is a break: end of text, ASCII
/// whitespace, a double or single quote, or a closing parenthesis.
pub open spec fn followed_by_break(cs: Seq<char>, e: int) -> bool {
    e + 1 >= cs.len() || ascii_space(cs[e + 1]) || cs[e + 1] == '"' || cs[e + 1] == '\''
        || cs[e + 1] == ')'
}

/// A run of terminal punctuation begins at `i`.
pub open spec fn run_starts(cs: Seq<char>, i: int) -> bool {
    0 <= i < cs.len() && terminal(cs[i]) && (i == 0 || !terminal(cs[i - 1]))
}

/// Index where the word that ends right before `i` begins: just after the
/// last character before `i` that is not alphanumeric, or 0.
pub open spec fn word_start(cs: Seq<char>, i: int) -> int
    decreases i,
{
    if i <= 0 {
        0
    } else if !alphanumeric(cs[i - 1]) {
        i
    } else {
        word_start(cs, i - 1)
    }
}

proof fn lemma_word_start_bound(cs: Seq<char>, i: int)
    requires
        0 <= i,
    ensures
        0 <= word_start(cs, i) <= i,
    decreases i,
{
    if i > 0 && alphanumeric(cs[i - 1]) {
        lemma_word_start_bound(cs, i - 1);
    }
}

/// `c`, lower-cased the ASCII way, is `l`.
pub open spec fn lower_is(c: char, l: char) -> bool {
    if 'A' <= c && c <= 'Z' {
        (c as u32) + 32 == (l as u32)
    } else {
        c == l
    }
}

/// The ASCII lower-casing of `w` is `lit`.
pub open spec fn lower_equals(w: Seq<char>, lit: Seq<char>) -> bool {
    w.len() == lit.len() && forall|i: int| 0 <= i < w.len() ==> lower_is(#[trigger] w[i], lit[i])
}

/// Abbreviations after which a period does not end a sentence.
pub open spec fn abbreviations() -> Seq<Seq<char>> {
    seq![
        "mr"@, "mrs"@, "ms"@, "dr"@, "prof"@, "sr"@, "jr"@, "vs"@, "etc"@, "approx"@, "dept"@,
        "est"@, "vol"@, "no"@, "fig"@, "eq"@, "ref"@, "sec"@, "ch"@, "st"@, "ave"@, "blvd"@,
    ]
}

/// `w` is one of the abbreviations, ignoring ASCII case.
pub open spec fn is_abbrev(w: Seq<char>) -> bool {
    exists|k: int| 0 <= k < abbreviations().len() && lower_equals(w, #[trigger] abbreviations()[k])
}

/// `w` is a single ASCII capital letter (an initial such as "J.").
pub open spec fn is_initial(w: Seq<char>) -> bool {
    w.len() == 1 && 'A' <= w[0] && w[0] <= 'Z'
}

/// An ASCII letter.
pub open spec fn ascii_letter(c: char) -> bool {
    ('a' <= c && c <= 'z') || ('A' <= c && c <= 'Z')
}

/// The word `cs[j..i)` is the last letter of a dotted abbreviation such as
/// "e.g." or "i.e.": a single ASCII letter right after a `.` that follows
/// another one-letter word.
pub open spec fn dotted_letter(cs: Seq<char>, j: int, i: int) -> bool {
    &&& i == j + 1
    &&& ascii_letter(cs[j])
    &&& j >= 2
    &&& cs[j - 1] == '.'
    &&& ascii_letter(cs[j - 2])
    &&& (j == 2 || !alphanumeric(cs[j - 3]))
}

/// A period at `i` (starting a run) that stays inside its sentence: after
/// an abbreviation, an initial, or the last letter of "e.g."-style
/// abbreviation.
pub open spec fn period_kept(cs: Seq<char>, i: int) -> bool {
    let j = word_start(cs, i);
    let w = cs.subrange(j, i);
    cs[i] == '.' && (is_abbrev(w) || is_initial(w) || dotted_letter(cs, j, i))
}

/// The run of terminal punctuation that begins at `i` ends a sentence.
pub open spec fn breaks_at(cs: Seq<char>, i: int) -> bool {
    &&& run_starts(cs, i)
    &&& followed_by_break(cs, run_end(cs, i))
    &&& !period_kept(cs, i)
}

/// The first index at or after `t` where a sentence ends, or the length.
pub open spec fn first_break(cs: Seq<char>, t: int) -> int
    decreases cs.len() - t,
{
    if t < 0 || t >= cs.len() {
        cs.len() as int
    } else if breaks_at(cs, t) {
        t
    } else {
        first_break(cs, t + 1)
    }
}

/// Word counts of the sentences of `cs` from index `start` on, keeping
/// only sentences of three or more words.
pub open spec fn counts_from(cs: Seq<char>, start: int) -> Seq<int>
    decreases cs.len() - start,
{
    if start < 0 || start >= cs.len() {
        seq![]
    } else {
        let i = first_break(cs, start);
        if i < cs.len() && start <= i <= run_end(cs, i) < cs.len() {
            let e = run_end(cs, i);
            let wc = words_in(cs.subrange(start, e + 1)) as int;
            (if wc >= 3 {
                seq![wc]
            } else {
                seq![]
            }) + counts_from(cs, e + 1)
        } else {
            let wc = words_in(cs.subrange(start, cs.len() as int)) as int;
            if wc >= 3 {
                seq![wc]
            } else {
                seq![]
            }
        }
    }
}

/// The word counts (three or more) of the sentences of `cs`.
pub open spec fn sentence_counts(cs: Seq<char>) -> Seq<int> {
    counts_from(cs, 0)
}

/// The word immediately before index `dot_pos` (the dot).
pub fn word_ending_at(text: &[char], dot_pos: usize) -> (r: &[char])
    requires
        dot_pos <= text@.len(),
    ensures
        r@ == text@.subrange(word_start(text@, dot_pos as int), dot_pos as int),
{
    let mut j = dot_pos;
    while j > 0 && is_alphanumeric(text[j - 1])
        invariant
            j <= dot_pos <= text@.len(),
            word_start(text@, dot_pos as int) == word_start(text@, j as int),
        decreases j,
    {
        j = j - 1;
    }
    vstd::slice::slice_subrange(text, j, dot_pos)
}

/// The ASCII lower-casing of `w` is the ASCII lower-case word `lit`.
fn lower_matches(w: &[char], lit: &str) -> (r: bool)
    ensures
        r == lower_equals(w@, lit@),
{
    let l = chars_of(lit);
    if w.len() != l.len() {
        return false;
    }
    let mut i: usize = 0;
    while i < w.len()
        invariant
            i <= w@.len() == l@.len(),
            l@ == lit@,
            forall|k: int| 0 <= k < i ==> lower_is(#[trigger] w@[k], l@[k]),
        decreases w@.len() - i,
    {
        let c = w[i];
        let ok = if 'A' <= c && c <= 'Z' {
            (c as u32) + 32 == (l[i] as u32)
        } else {
            c == l[i]
        };
        if !ok {
            return false;
        }
        i = i + 1;
    }
    true
}

/// Common abbreviations that should not end a sentence.
pub fn is_abbreviation(word: &[char]) -> (r: bool)
    ensures
        r == is_abbrev(word@),
{
    let list: [&str; 22] = [
        "mr", "mrs", "ms", "dr", "prof", "sr", "jr", "vs", "etc", "approx", "dept", "est", "vol",
        "no", "fig", "eq", "ref", "sec", "ch", "st", "ave", "blvd",
    ];
    let ghost abbrevs = abbreviations();
    assert(abbrevs.len() == 22);
    let mut k: usize = 0;
    while k < 22
        invariant
            k <= 22,
            abbrevs == abbreviations(),
            forall|m: int| 0 <= m < 22 ==> #[trigger] list@[m]@ == abbrevs[m],
            forall|m: int| 0 <= m < k ==> !lower_equals(word@, #[trigger] abbrevs[m]),
        decreases 22 - k,
    {
        if lower_matches(word, list[k]) {
            return true;
        }
        k = k + 1;
    }
    false
}


fn is_terminal_char(c: char) -> (r: bool)
    ensures
        r == terminal(c),
{
    c == '.' || c == '!' || c == '?'
}

fn is_ascii_letter_char(c: char) -> (r: bool)
    ensures
        r == ascii_letter(c),
{
    ('a' <= c && c <= 'z') || ('A' <= c && c <= 'Z')
}

fn is_ascii_space_char(c: char) -> (r: bool)
    ensures
        r == ascii_space(c),
{
    c == ' ' || c == '\t' || c == '\n' || c == '\x0C' || c == '\r'
}

pub proof fn lemma_first_break_skip(cs: Seq<char>, t: int, u: int)
    requires
        0 <= t <= u <= cs.len(),
        forall|v: int| t <= v < u ==> !breaks_at(cs, v),
    ensures
        first_break(cs, t) == first_break(cs, u),
    decreases u - t,
{
    if t < u {
        lemma_first_break_skip(cs, t + 1, u);
    }
}

proof fn lemma_run_end_bound(cs: Seq<char>, i: int)
    requires
        0 <= i < cs.len(),
    ensures
        i <= run_end(cs, i) < cs.len(),
        forall|t: int| i < t <= run_end(cs, i) ==> terminal(cs[t]),
        run_end(cs, i) + 1 < cs.len() ==> !terminal(cs[run_end(cs, i) + 1]),
    decreases cs.len() - i,
{
    if i + 1 < cs.len() && terminal(cs[i + 1]) {
        lemma_run_end_bound(cs, i + 1);
    }
}

proof fn lemma_run_end_update(cs: Seq<char>, i: int, k: int, c: char)
    requires
        0 <= i < cs.len(),
        run_end(cs, i) < k < cs.len(),
        !terminal(c),
        !terminal(cs[k]),
    ensures
        run_end(cs.update(k, c), i) == run_end(cs, i),
    decreases cs.len() - i,
{
    let cs2 = cs.update(k, c);
    lemma_run_end_bound(cs, i);
    if i + 1 < cs.len() {
        if i + 1 == k {
            assert(cs2[i + 1] == c);
        } else {
            assert(cs2[i + 1] == cs[i + 1]);
        }
        assert(terminal(cs2[i + 1]) == terminal(cs[i + 1]));
    }
    if i + 1 < cs.len() && terminal(cs[i + 1]) {
        lemma_run_end_update(cs, i + 1, k, c);
    }
}

proof fn lemma_word_start_update(cs: Seq<char>, i: int, k: int, c: char)
    requires
        0 <= i <= k < cs.len(),
    ensures
        word_start(cs.update(k, c), i) == word_start(cs, i),
    decreases i,
{
    if i > 0 {
        lemma_word_start_update(cs, i - 1, k, c);
    }
}

/// A run of terminal punctuation followed by a space ends a sentence unless
/// it is a period kept by an abbreviation; followed by a line feed,
/// carriage return, tab or form feed it ends a sentence exactly when it
/// would if a space followed it: every kind of ASCII whitespace is a
/// sentence break.
pub proof fn lemma_whitespace_breaks_alike(cs: Seq<char>, i: int)
    requires
        0 <= i < cs.len(),
        run_end(cs, i) + 1 < cs.len(),
        cs[run_end(cs, i) + 1] == '\n' || cs[run_end(cs, i) + 1] == '\r' || cs[run_end(cs, i) + 1]
            == '\t' || cs[run_end(cs, i) + 1] == '\x0C',
    ensures
        breaks_at(cs.update(run_end(cs, i) + 1, ' '), i) == (run_starts(cs, i) && !period_kept(
            cs,
            i,
        )),
        breaks_at(cs, i) == breaks_at(cs.update(run_end(cs, i) + 1, ' '), i),
{
    let e = run_end(cs, i);
    let k = e + 1;
    let cs2 = cs.update(k, ' ');
    lemma_run_end_bound(cs, i);
    lemma_run_end_update(cs, i, k, ' ');
    lemma_word_start_update(cs, i, k, ' ');
    let j = word_start(cs, i);
    lemma_word_start_bound(cs, i);
    assert(cs2.subrange(j, i) =~= cs.subrange(j, i));
    assert(forall|t: int| 0 <= t < k ==> cs2[t] == cs[t]);
    assert(cs2[k] == ' ');
}

/// Split text into sentences and return the word count of each sentence
/// of three or more words.
///
/// A sentence ends at a run of `.`, `!` or `?` that is followed by
/// whitespace, a quote, a closing parenthesis or the end of the text,
/// except a period after a common abbreviation (Mr., Dr., etc., vs., ...),
/// after a single capital letter (initials), or closing a dotted
/// abbreviation such as e.g. or i.e. A period inside a word or
/// number (3.14) does not end a sentence; text after the last sentence end
/// counts as a sentence.
pub fn sentence_word_counts(text: &str) -> (r: Vec<usize>)
    ensures
        r@.map_values(|x: usize| x as int) == sentence_counts(text@),
{
    let cs = chars_of(text);
    let ghost s = cs@;
    let len = cs.len();
    let mut counts: Vec<usize> = Vec::new();
    let mut start: usize = 0;
    let mut i: usize = 0;
    while i < len
        invariant
            s == cs@,
            s == text@,
            len == s.len(),
            start <= i <= len,
            sentence_counts(s) == counts@.map_values(|x: usize| x as int) + counts_from(
                s,
                start as int,
            ),
            forall|t: int| start <= t < i ==> !breaks_at(s, t),
            i < len && terminal(s[i as int]) ==> run_starts(s, i as int),
            start > 0 && start < len ==> !terminal(s[start as int]),
        decreases len - i,
    {
        let c = cs[i];
        if is_terminal_char(c) {
            let mut end = i;
            while end + 1 < len && is_terminal_char(cs[end + 1])
                invariant
                    s == cs@,
                    len == s.len(),
                    i <= end < len,
                    run_end(s, i as int) == run_end(s, end as int),
                    forall|t: int| i < t <= end ==> terminal(s[t]),
                decreases len - end,
            {
                end = end + 1;
            }
            assert(run_end(s, end as int) == end);
            assert(forall|t: int| i < t <= end ==> !run_starts(s, t));
            let fb = end + 1 >= len || is_ascii_space_char(cs[end + 1]) || cs[end + 1] == '"'
                || cs[end + 1] == '\'' || cs[end + 1] == ')';
            assert(fb == followed_by_break(s, end as int));
            let mut kept = false;
            if c == '.' && fb {
                let w = word_ending_at(cs.as_slice(), i);
                proof {
                    lemma_word_start_bound(s, i as int);
                }
                let j = i - w.len();
                assert(j == word_start(s, i as int));
                let dotted = w.len() == 1 && is_ascii_letter_char(w[0]) && j >= 2 && cs[j - 1] == '.'
                    && is_ascii_letter_char(cs[j - 2]) && (j == 2 || !is_alphanumeric(cs[j - 3]));
                assert(dotted == dotted_letter(s, j as int, i as int));
                kept = is_abbreviation(w) || (w.len() == 1 && 'A' <= w[0] && w[0] <= 'Z') || dotted;
            }
            assert(kept == (fb && period_kept(s, i as int)));
            if fb && !kept {
                assert(breaks_at(s, i as int));
                proof {
                    lemma_first_break_skip(s, start as int, i as int);
                }
                let wc = count_words_in(&cs, start, end + 1);
                let ghost before = counts@.map_values(|x: usize| x as int);
                if wc >= 3 {
                    counts.push(wc);
                }
                assert(counts@.map_values(|x: usize| x as int) =~= before + (if wc >= 3 {
                    seq![wc as int]
                } else {
                    seq![]
                }));
                start = end + 1;
            }
            i = end + 1;
        } else {
            i = i + 1;
        }
    }
    proof {
        lemma_first_break_skip(s, start as int, len as int);
    }
    if start < len {
        let wc = count_words_in(&cs, start, len);
        let ghost before = counts@.map_values(|x: usize| x as int);
        if wc >= 3 {
            counts.push(wc);
        }
        assert(counts@.map_values(|x: usize| x as int) =~= before + (if wc >= 3 {
            seq![wc as int]
        } else {
            seq![]
        }));
    }
    assert(sentence_counts(s) =~= counts@.map_values(|x: usize| x as int));
    counts
}



/// The sentence word counts of a text, where there are enough sentences
/// for the sentence-length statistics.
pub open spec fn measurable_counts(cs: Seq<char>) -> Option<Seq<int>> {
    if sentence_counts(cs).len() < MIN_SENTENCES {
        None
    } else {
        Some(sentence_counts(cs))
    }
}

/// The sentence word counts that the sentence-length statistics are taken
/// over, or `None` when the text has fewer than `MIN_SENTENCES` sentences.
pub fn sentence_lengths(text: &str) -> (r: Option<Vec<usize>>)
    ensures
        match r {
            Some(v) => measurable_counts(text@) == Some(v@.map_values(|x: usize| x as int)),
            None => measurable_counts(text@) is None,
        },
{
    let counts = sentence_word_counts(text);
    assert(counts@.map_values(|x: usize| x as int).len() == counts@.len());
    if counts.len() < MIN_SENTENCES {
        None
    } else {
        Some(counts)
    }
}


// ---- tokens ----

/// Characters at which the tokenizer splits: neither alphanumeric nor `'`.
pub open spec fn separates(c: char) -> bool {
    !alphanumeric(c) && c != '\''
}

/// End of the piece that starts at `s`: the next separator, or the length.
pub open spec fn piece_end(cs: Seq<char>, s: int) -> int
    decreases cs.len() - s,
{
    if s < 0 || s >= cs.len() {
        cs.len() as int
    } else if separates(cs[s]) {
        s
    } else {
        piece_end(cs, s + 1)
    }
}

/// A piece is kept as a token when its UTF-8 encoding is longer than one byte.
pub open spec fn token_kept(p: Seq<char>) -> bool {
    encode_utf8(p).len() > 1
}

/// What `str::to_lowercase` gives for a word.
pub uninterp spec fn lowercased(word: Seq<char>) -> Seq<char>;

/// `str::to_lowercase` on a word held as characters. The contract names the
/// result; the Unicode case tables (and the final-sigma rule) that decide it
/// are left to the name.
#[verifier::external_body]
fn lowercase(word: &[char]) -> (r: Vec<char>)
    ensures
        r@ == lowercased(word@),
{
    let s: String = word.iter().collect();
    s.to_lowercase().chars().collect()
}

/// Tokens of `cs` from the piece that starts at `s` on.
pub open spec fn tokens_from(cs: Seq<char>, s: int) -> Seq<Seq<char>>
    decreases cs.len() + 1 - s,
{
    if s < 0 || s > cs.len() {
        seq![]
    } else {
        let e = piece_end(cs, s);
        let p = cs.subrange(s, e);
        let here = if token_kept(p) {
            seq![lowercased(p)]
        } else {
            seq![]
        };
        if s <= e < cs.len() {
            here + tokens_from(cs, e + 1)
        } else {
            here
        }
    }
}

/// The word tokens of a text: the pieces between separators whose
/// encoding is longer than one byte, in lower case.
pub open spec fn tokens(cs: Seq<char>) -> Seq<Seq<char>> {
    tokens_from(cs, 0)
}

/// Each character takes at least one byte, and one character takes the
/// width of its scalar.
pub proof fn lemma_encode_len(p: Seq<char>)
    ensures
        encode_utf8(p).len() >= p.len(),
        p.len() == 1 ==> encode_utf8(p).len() == encode_scalar(p[0] as u32).len(),
    decreases p.len(),
{
    if p.len() > 0 {
        vstd::utf8::char_is_scalar(p[0]);
        lemma_encode_len(p.drop_first());
        if p.len() == 1 {
            assert(p.drop_first() =~= Seq::<char>::empty());
        }
    }
}

/// Split text into lowercase word tokens: maximal runs of alphanumeric
/// characters and apostrophes, keeping those longer than one byte.
pub fn tokenize(text: &str) -> (r: Vec<Vec<char>>)
    ensures
        r@.map_values(|v: Vec<char>| v@) == tokens(text@),
{
    let cs = chars_of(text);
    let ghost s = cs@;
    let len = cs.len();
    let mut out: Vec<Vec<char>> = Vec::new();
    let mut start: usize = 0;
    loop
        invariant
            s == cs@,
            s == text@,
            len == s.len(),
            start <= len,
            tokens(s) == out@.map_values(|v: Vec<char>| v@) + tokens_from(s, start as int),
        decreases len - start,
    {
        let mut e = start;
        while e < len && !(!is_alphanumeric(cs[e]) && cs[e] != '\'')
            invariant
                s == cs@,
                len == s.len(),
                start <= e <= len,
                piece_end(s, start as int) == piece_end(s, e as int),
            decreases len - e,
        {
            e = e + 1;
        }
        let ghost p = s.subrange(start as int, e as int);
        let n = e - start;
        proof {
            lemma_encode_len(p);
        }
        let keep = n >= 2 || (n == 1 && utf8_len(cs[start]) > 1);
        assert(keep == token_kept(p));
        let ghost before = out@.map_values(|v: Vec<char>| v@);
        if keep {
            let piece = lowercase(vstd::slice::slice_subrange(cs.as_slice(), start, e));
            out.push(piece);
        }
        assert(out@.map_values(|v: Vec<char>| v@) =~= before + (if token_kept(p) {
            seq![lowercased(p)]
        } else {
            seq![]
        }));
        if e >= len {
            assert(tokens(s) =~= out@.map_values(|v: Vec<char>| v@));
            return out;
        }
        start = e + 1;
    }
}

/// Words too common to say anything about style.
pub open spec fn stop_words() -> Seq<Seq<char>> {
    seq![
        "the"@, "a"@, "an"@, "and"@, "or"@, "but"@, "in"@, "on"@, "at"@, "to"@, "for"@, "of"@,
        "with"@, "by"@, "from"@, "is"@, "it"@, "its"@, "as"@, "are"@, "was"@, "were"@, "be"@,
        "been"@, "being"@, "have"@, "has"@, "had"@, "do"@, "does"@, "did"@, "will"@, "would"@,
        "could"@, "should"@, "may"@, "might"@, "shall"@, "can"@, "this"@, "that"@, "these"@,
        "those"@, "i"@, "you"@, "he"@, "she"@, "we"@, "they"@, "me"@, "him"@, "her"@, "us"@,
        "them"@, "my"@, "your"@, "his"@, "our"@, "their"@, "not"@, "no"@, "if"@, "so"@, "than"@,
    ]
}

/// `w` is a stop word (compared exactly, case included).
pub open spec fn is_stop(w: Seq<char>) -> bool {
    stop_words().contains(w)
}

/// Two character sequences are equal.
pub fn same_chars(a: &[char], b: &[char]) -> (r: bool)
    ensures
        r == (a@ == b@),
{
    if a.len() != b.len() {
        return false;
    }
    let mut i: usize = 0;
    while i < a.len()
        invariant
            i <= a@.len() == b@.len(),
            forall|k: int| 0 <= k < i ==> a@[k] == b@[k],
        decreases a@.len() - i,
    {
        if a[i] != b[i] {
            return false;
        }
        i = i + 1;
    }
    assert(a@ =~= b@);
    true
}

/// Common words that the word-frequency statistic ignores.
pub fn is_stop_word(w: &[char]) -> (r: bool)
    ensures
        r == is_stop(w@),
{
    let list: [&str; 64] = [
        "the", "a", "an", "and", "or", "but", "in", "on", "at", "to", "for", "of", "with", "by",
        "from", "is", "it", "its", "as", "are", "was", "were", "be", "been", "being", "have", "has",
        "had", "do", "does", "did", "will", "would", "could", "should", "may", "might", "shall",
        "can", "this", "that", "these", "those", "i", "you", "he", "she", "we", "they", "me", "him",
        "her", "us", "them", "my", "your", "his", "our", "their", "not", "no", "if", "so", "than",
    ];
    let ghost words = stop_words();
    assert(words.len() == 64);
    let mut k: usize = 0;
    while k < 64
        invariant
            k <= 64,
            words == stop_words(),
            forall|m: int| 0 <= m < 64 ==> #[trigger] list@[m]@ == words[m],
            forall|m: int| 0 <= m < k ==> w@ != #[trigger] words[m],
        decreases 64 - k,
    {
        let lit = chars_of(list[k]);
        if same_chars(w, lit.as_slice()) {
            assert(words[k as int] == w@);
            return true;
        }
        k = k + 1;
    }
    false
}

} // verus!
