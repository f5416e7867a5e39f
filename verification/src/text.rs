//! Byte-level text utilities: ASCII case folding, tokenisation into word
//! runs, whole-word matching, substring containment and lexicographic
//! ordering of byte strings.
//!
//! Every specification here is stated over `Seq<u8>`, the byte view of a
//! string (`str::as_bytes`); for ASCII text this coincides with its
//! character view.

use vstd::prelude::*;

verus! {

/// A byte that is part of a word: an ASCII letter or digit.
pub open spec fn is_word_byte(b: u8) -> bool {
    (0x30 <= b && b <= 0x39) || (0x41 <= b && b <= 0x5a) || (0x61 <= b && b <= 0x7a)
}

/// ASCII case folding of one byte: upper-case letters map to lower case,
/// everything else is unchanged.
pub open spec fn fold_byte(b: u8) -> u8 {
    if 0x41 <= b && b <= 0x5a {
        (b + 0x20) as u8
    } else {
        b
    }
}

/// Case folding of a whole byte string.
pub open spec fn fold_bytes(s: Seq<u8>) -> Seq<u8> {
    s.map_values(|b: u8| fold_byte(b))
}

/// The views of a list of byte vectors.
pub open spec fn views_of(ts: Seq<Vec<u8>>) -> Seq<Seq<u8>> {
    ts.map_values(|t: Vec<u8>| t@)
}

pub fn word_byte(b: u8) -> (r: bool)
    ensures
        r == is_word_byte(b),
{
    (0x30 <= b && b <= 0x39) || (0x41 <= b && b <= 0x5a) || (0x61 <= b && b <= 0x7a)
}

pub fn lower_byte(b: u8) -> (r: u8)
    ensures
        r == fold_byte(b),
{
    if 0x41 <= b && b <= 0x5a {
        b + 0x20
    } else {
        b
    }
}

/// The end of the word run that starts at `i`: the first position at or
/// after `i` that is past the end or holds a non-word byte.
pub open spec fn run_end(s: Seq<u8>, i: int) -> int
    decreases s.len() - i
        when 0 <= i <= s.len()
{
    if i < s.len() && is_word_byte(s[i]) {
        run_end(s, i + 1)
    } else {
        i
    }
}

pub proof fn lemma_run_end(s: Seq<u8>, i: int)
    requires
        0 <= i <= s.len(),
    ensures
        i <= run_end(s, i) <= s.len(),
        forall|k: int| i <= k < run_end(s, i) ==> is_word_byte(s[k]),
        run_end(s, i) == s.len() || !is_word_byte(s[run_end(s, i)]),
    decreases s.len() - i,
{
    if i < s.len() && is_word_byte(s[i]) {
        lemma_run_end(s, i + 1);
    }
}

/// If every byte in `[i, j)` is a word byte and `j` is a boundary, then the
/// word run starting at `i` ends exactly at `j`.
pub proof fn lemma_run_end_exact(s: Seq<u8>, i: int, j: int)
    requires
        0 <= i <= j <= s.len(),
        forall|k: int| i <= k < j ==> is_word_byte(s[k]),
        j == s.len() || !is_word_byte(s[j]),
    ensures
        run_end(s, i) == j,
    decreases j - i,
{
    if i < j {
        lemma_run_end_exact(s, i + 1, j);
    }
}

/// The case-folded word tokens of `s`, read from position `i` on.
pub open spec fn tokens_from(s: Seq<u8>, i: int) -> Seq<Seq<u8>>
    decreases s.len() - i
        when 0 <= i <= s.len() via tokens_from_dec
{
    if i >= s.len() {
        Seq::empty()
    } else if !is_word_byte(s[i]) {
        tokens_from(s, i + 1)
    } else {
        seq![fold_bytes(s.subrange(i, run_end(s, i)))] + tokens_from(s, run_end(s, i))
    }
}

#[via_fn]
proof fn tokens_from_dec(s: Seq<u8>, i: int) {
    if 0 <= i < s.len() && is_word_byte(s[i]) {
        lemma_run_end(s, i);
        assert(run_end(s, i) == run_end(s, i + 1));
    }
}

/// The case-folded word tokens of a byte string: maximal runs of ASCII
/// letters and digits, each folded to lower case.
pub open spec fn spec_tokens(s: Seq<u8>) -> Seq<Seq<u8>> {
    tokens_from(s, 0)
}

/// There are never more tokens than bytes left.
pub proof fn lemma_tokens_from_len(s: Seq<u8>, i: int)
    requires
        0 <= i <= s.len(),
    ensures
        tokens_from(s, i).len() <= s.len() - i,
    decreases s.len() - i,
{
    if i >= s.len() {
    } else if !is_word_byte(s[i]) {
        lemma_tokens_from_len(s, i + 1);
    } else {
        lemma_run_end(s, i);
        lemma_tokens_from_len(s, run_end(s, i));
    }
}

/// Splits a byte string into its case-folded word tokens.
pub fn tokenize(s: &[u8]) -> (toks: Vec<Vec<u8>>)
    ensures
        views_of(toks@) == spec_tokens(s@),
        toks@.len() <= s@.len(),
{
    let mut toks: Vec<Vec<u8>> = Vec::new();
    let mut i: usize = 0;
    proof {
        assert(views_of(toks@) =~= Seq::<Seq<u8>>::empty());
    }
    while i < s.len()
        invariant
            i <= s.len(),
            views_of(toks@) + tokens_from(s@, i as int) == spec_tokens(s@),
        decreases s.len() - i,
    {
        if !word_byte(s[i]) {
            i = i + 1;
        } else {
            let start: usize = i;
            let mut j: usize = i + 1;
            while j < s.len() && word_byte(s[j])
                invariant
                    start < j <= s.len(),
                    forall|k: int| start <= k < j ==> is_word_byte(s@[k]),
                decreases s.len() - j,
            {
                j = j + 1;
            }
            proof {
                lemma_run_end_exact(s@, start as int, j as int);
            }
            let mut tok: Vec<u8> = Vec::new();
            let mut k: usize = start;
            while k < j
                invariant
                    start <= k <= j <= s.len(),
                    tok@.len() == k - start,
                    forall|m: int| 0 <= m < tok@.len() ==> tok@[m] == fold_byte(s@[start + m]),
                decreases j - k,
            {
                tok.push(lower_byte(s[k]));
                k = k + 1;
            }
            proof {
                assert(tok@ =~= fold_bytes(s@.subrange(start as int, j as int)));
                let ghost old_views = views_of(toks@);
                assert(views_of(toks@.push(tok)) =~= old_views.push(tok@));
            }
            toks.push(tok);
            proof {
                assert(views_of(toks@) + tokens_from(s@, j as int) =~= spec_tokens(s@));
            }
            i = j;
        }
    }
    proof {
        assert(views_of(toks@) =~= spec_tokens(s@));
        lemma_tokens_from_len(s@, 0);
        assert(toks@.len() == views_of(toks@).len());
    }
    toks
}

/// The token `tok` occurs in `s` at position `i` as a whole word: the bytes
/// match after case folding and both neighbours are word boundaries.
pub open spec fn word_at(s: Seq<u8>, tok: Seq<u8>, i: int) -> bool {
    &&& tok.len() > 0
    &&& 0 <= i
    &&& i + tok.len() <= s.len()
    &&& (forall|k: int| 0 <= k < tok.len() ==> fold_byte(s[i + k]) == tok[k])
    &&& (i == 0 || !is_word_byte(s[i - 1]))
    &&& (i + tok.len() == s.len() || !is_word_byte(s[i + tok.len()]))
}

/// The token occurs somewhere in `s` as a whole word, case-insensitively.
pub open spec fn has_word(s: Seq<u8>, tok: Seq<u8>) -> bool {
    exists|i: int| word_at(s, tok, i)
}

/// Do the bytes of `s` starting at `i` spell `tok` after case folding?
fn folded_match_at(s: &[u8], tok: &[u8], i: usize) -> (r: bool)
    requires
        i + tok@.len() <= s@.len(),
    ensures
        r == (forall|k: int| 0 <= k < tok@.len() ==> fold_byte(s@[i + k]) == tok@[k]),
{
    let slen: usize = s.len();
    let mut k: usize = 0;
    while k < tok.len()
        invariant
            k <= tok@.len(),
            slen == s@.len(),
            i + tok@.len() <= slen,
            forall|m: int| 0 <= m < k ==> fold_byte(s@[i + m]) == tok@[m],
        decreases tok@.len() - k,
    {
        if lower_byte(s[i + k]) != tok[k] {
            return false;
        }
        k = k + 1;
    }
    true
}

/// Whole-word search: does the (already folded) token occur in `s`?
pub fn contains_word(s: &[u8], tok: &[u8]) -> (r: bool)
    ensures
        r == has_word(s@, tok@),
{
    if tok.len() == 0 || tok.len() > s.len() {
        proof {
            assert(forall|i: int| !word_at(s@, tok@, i));
        }
        return false;
    }
    let last_start: usize = s.len() - tok.len();
    let mut i: usize = 0;
    while i <= last_start
        invariant
            tok@.len() > 0,
            i <= last_start + 1,
            last_start < usize::MAX,
            last_start + tok@.len() == s@.len(),
            forall|p: int| 0 <= p < i ==> !word_at(s@, tok@, p),
        decreases last_start - i + 1,
    {
        let left_ok: bool = i == 0 || !word_byte(s[i - 1]);
        let right_ok: bool = i + tok.len() == s.len() || !word_byte(s[i + tok.len()]);
        if left_ok && right_ok && folded_match_at(s, tok, i) {
            proof {
                assert(word_at(s@, tok@, i as int));
            }
            return true;
        }
        proof {
            assert(!word_at(s@, tok@, i as int));
        }
        i = i + 1;
    }
    proof {
        assert forall|p: int| !word_at(s@, tok@, p) by {
            if 0 <= p <= last_start {
                assert(!word_at(s@, tok@, p));
            }
        }
    }
    false
}

/// The pattern `p` occurs in `s` as a contiguous byte substring at `i`.
pub open spec fn sub_at(s: Seq<u8>, p: Seq<u8>, i: int) -> bool {
    &&& 0 <= i
    &&& i + p.len() <= s.len()
    &&& (forall|k: int| 0 <= k < p.len() ==> s[i + k] == p[k])
}

/// `s` contains `p` as a contiguous byte substring. The empty pattern is
/// contained in every string.
pub open spec fn contains_bytes(s: Seq<u8>, p: Seq<u8>) -> bool {
    exists|i: int| sub_at(s, p, i)
}

/// Do the bytes of `s` starting at `i` spell `p` exactly?
fn bytes_match_at(s: &[u8], p: &[u8], i: usize) -> (r: bool)
    requires
        i + p@.len() <= s@.len(),
    ensures
        r == (forall|k: int| 0 <= k < p@.len() ==> s@[i + k] == p@[k]),
{
    let slen: usize = s.len();
    let mut k: usize = 0;
    while k < p.len()
        invariant
            k <= p@.len(),
            slen == s@.len(),
            i + p@.len() <= slen,
            forall|m: int| 0 <= m < k ==> s@[i + m] == p@[m],
        decreases p@.len() - k,
    {
        if s[i + k] != p[k] {
            return false;
        }
        k = k + 1;
    }
    true
}

/// Substring search over bytes.
pub fn contains_sub(s: &[u8], p: &[u8]) -> (r: bool)
    ensures
        r == contains_bytes(s@, p@),
{
    if p.len() > s.len() {
        proof {
            assert(forall|i: int| !sub_at(s@, p@, i));
        }
        return false;
    }
    if p.len() == 0 {
        proof {
            assert(sub_at(s@, p@, 0));
        }
        return true;
    }
    let last_start: usize = s.len() - p.len();
    let mut i: usize = 0;
    while i <= last_start
        invariant
            p@.len() > 0,
            i <= last_start + 1,
            last_start < usize::MAX,
            last_start + p@.len() == s@.len(),
            forall|q: int| 0 <= q < i ==> !sub_at(s@, p@, q),
        decreases last_start - i + 1,
    {
        if bytes_match_at(s, p, i) {
            proof {
                assert(sub_at(s@, p@, i as int));
            }
            return true;
        }
        proof {
            assert(!sub_at(s@, p@, i as int));
        }
        i = i + 1;
    }
    proof {
        assert forall|q: int| !sub_at(s@, p@, q) by {
            if 0 <= q <= last_start {
                assert(!sub_at(s@, p@, q));
            }
        }
    }
    false
}

/// Strict lexicographic order on byte strings.
pub open spec fn lex_lt(a: Seq<u8>, b: Seq<u8>) -> bool
    decreases a.len(),
{
    if b.len() == 0 {
        false
    } else if a.len() == 0 {
        true
    } else if a[0] < b[0] {
        true
    } else if a[0] > b[0] {
        false
    } else {
        lex_lt(a.drop_first(), b.drop_first())
    }
}

/// Lexicographic order is total: two byte strings neither of which is
/// smaller are equal.
pub proof fn lemma_lex_total(a: Seq<u8>, b: Seq<u8>)
    requires
        !lex_lt(a, b),
        !lex_lt(b, a),
    ensures
        a == b,
    decreases a.len(),
{
    if b.len() == 0 {
        assert(a.len() == 0);
        assert(a =~= b);
    } else if a.len() == 0 {
    } else {
        lemma_lex_total(a.drop_first(), b.drop_first());
        assert(a =~= seq![a[0]] + a.drop_first());
        assert(b =~= seq![b[0]] + b.drop_first());
    }
}

/// The byte view of an owned string: the UTF-8 encoding of its
/// characters, matching what `str::as_bytes` yields on it.
pub open spec fn string_bytes(s: String) -> Seq<u8> {
    vstd::utf8::encode_utf8(s@)
}

/// A character encodes to at most four bytes, so a string's byte view
/// is at most four times its character count.
pub proof fn lemma_encode_utf8_len(s: Seq<char>)
    ensures
        vstd::utf8::encode_utf8(s).len() <= 4 * s.len(),
    decreases s.len(),
{
    if s.len() > 0 {
        lemma_encode_utf8_len(s.drop_first());
        assert(vstd::utf8::encode_scalar(s[0] as u32).len() <= 4);
    }
}

/// Are two byte strings equal?
pub fn bytes_eq(a: &[u8], b: &[u8]) -> (r: bool)
    ensures
        r == (a@ == b@),
{
    if a.len() != b.len() {
        return false;
    }
    let mut i: usize = 0;
    while i < a.len()
        invariant
            i <= a@.len(),
            a@.len() == b@.len(),
            forall|k: int| 0 <= k < i ==> a@[k] == b@[k],
        decreases a@.len() - i,
    {
        if a[i] != b[i] {
            return false;
        }
        i = i + 1;
    }
    proof {
        assert(a@ =~= b@);
    }
    true
}

/// Lexicographic order is asymmetric.
pub proof fn lemma_lex_asym(a: Seq<u8>, b: Seq<u8>)
    requires
        lex_lt(a, b),
    ensures
        !lex_lt(b, a),
    decreases a.len(),
{
    if b.len() > 0 && a.len() > 0 && a[0] == b[0] {
        lemma_lex_asym(a.drop_first(), b.drop_first());
    }
}

/// Lexicographic order is transitive.
pub proof fn lemma_lex_trans(a: Seq<u8>, b: Seq<u8>, c: Seq<u8>)
    requires
        lex_lt(a, b),
        lex_lt(b, c),
    ensures
        lex_lt(a, c),
    decreases a.len(),
{
    if a.len() > 0 && b.len() > 0 && c.len() > 0 && a[0] == b[0] && b[0] == c[0] {
        lemma_lex_trans(a.drop_first(), b.drop_first(), c.drop_first());
    }
}

/// Compares two byte strings lexicographically.
pub fn bytes_lt(a: &[u8], b: &[u8]) -> (r: bool)
    ensures
        r == lex_lt(a@, b@),
{
    let mut i: usize = 0;
    proof {
        assert(a@.skip(0) =~= a@);
        assert(b@.skip(0) =~= b@);
    }
    while i < a.len() && i < b.len()
        invariant
            i <= a@.len(),
            i <= b@.len(),
            forall|k: int| 0 <= k < i ==> a@[k] == b@[k],
            lex_lt(a@, b@) == lex_lt(a@.skip(i as int), b@.skip(i as int)),
        decreases a.len() - i,
    {
        if a[i] < b[i] {
            proof {
                assert(lex_lt(a@.skip(i as int), b@.skip(i as int)));
            }
            return true;
        }
        if a[i] > b[i] {
            proof {
                assert(!lex_lt(a@.skip(i as int), b@.skip(i as int)));
            }
            return false;
        }
        proof {
            assert(a@.skip(i as int).drop_first() =~= a@.skip(i + 1));
            assert(b@.skip(i as int).drop_first() =~= b@.skip(i + 1));
        }
        i = i + 1;
    }
    proof {
        if i >= b@.len() {
            assert(b@.skip(i as int).len() == 0);
            assert(!lex_lt(a@, b@));
        } else {
            assert(a@.skip(i as int).len() == 0);
            assert(b@.skip(i as int).len() > 0);
            assert(lex_lt(a@, b@));
        }
    }
    i >= a.len() && i < b.len()
}

} // verus!
