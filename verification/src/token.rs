//! Tokenization: splitting a byte stream into delimiter-terminated tokens,
//! and the byte-scanning primitive shared by the encoder and the decoder.

use vstd::prelude::*;
use crate::DELIMITER;

verus! {

/// The first index at or after `i` where `b` occurs in `s`, or `s.len()`.
pub open spec fn find_from(s: Seq<u8>, i: int, b: u8) -> int
    decreases s.len() - i,
{
    if i < 0 || i >= s.len() {
        s.len() as int
    } else if s[i] == b {
        i
    } else {
        find_from(s, i + 1, b)
    }
}

/// What `find_from` returns: the nearest occurrence, with nothing before it.
pub proof fn lemma_find_from(s: Seq<u8>, i: int, b: u8)
    requires
        0 <= i <= s.len(),
    ensures
        i <= find_from(s, i, b) <= s.len(),
        find_from(s, i, b) < s.len() ==> s[find_from(s, i, b)] == b,
        forall|k: int| i <= k < find_from(s, i, b) ==> s[k] != b,
    decreases s.len() - i,
{
    if i < s.len() && s[i] != b {
        lemma_find_from(s, i + 1, b);
    }
}

/// The converse characterization: a `b`-free gap followed by `b` (or by the
/// end of `s`) pins `find_from` down.
pub proof fn lemma_find_from_is(s: Seq<u8>, i: int, b: u8, m: int)
    requires
        0 <= i <= m <= s.len(),
        forall|k: int| i <= k < m ==> s[k] != b,
        m < s.len() ==> s[m] == b,
    ensures
        find_from(s, i, b) == m,
    decreases m - i,
{
    if i < m {
        lemma_find_from_is(s, i + 1, b, m);
    }
}

/// Searching a suffix is searching the whole sequence from that point.
pub proof fn lemma_find_from_skip(s: Seq<u8>, p: int, b: u8)
    requires
        0 <= p <= s.len(),
    ensures
        find_from(s, p, b) == p + find_from(s.skip(p), 0, b),
{
    let t = s.skip(p);
    lemma_find_from(t, 0, b);
    let f = find_from(t, 0, b);
    assert forall|k: int| p <= k < p + f implies s[k] != b by {
        assert(s[k] == t[k - p]);
    }
    if f < t.len() {
        assert(s[p + f] == t[f]);
    }
    lemma_find_from_is(s, p, b, p + f);
}

/// Scan `v` from `from` for the first occurrence of `b`; returns its index,
/// or `v.len()` if `b` does not occur at or after `from`.
pub fn scan_for(v: &Vec<u8>, from: usize, b: u8) -> (j: usize)
    requires
        from <= v@.len(),
    ensures
        j == find_from(v@, from as int, b),
        from <= j <= v@.len(),
        j < v@.len() ==> v@[j as int] == b,
        forall|k: int| from <= k < j ==> v@[k] != b,
{
    let mut j: usize = from;
    while j < v.len()
        invariant
            from <= j <= v@.len(),
            forall|k: int| from <= k < j ==> v@[k] != b,
        decreases v@.len() - j,
    {
        if v[j] == b {
            proof {
                lemma_find_from_is(v@, from as int, b, j as int);
            }
            return j;
        }
        j = j + 1;
    }
    proof {
        lemma_find_from_is(v@, from as int, b, v@.len() as int);
    }
    j
}

/// The length of the first token of `s`: up to and including the first
/// delimiter, or all of `s` when no delimiter remains.
pub open spec fn tok_len(s: Seq<u8>) -> int {
    let f = find_from(s, 0, DELIMITER);
    if 0 <= f < s.len() {
        f + 1
    } else {
        s.len() as int
    }
}

/// The token split of `s`: each token is a maximal delimiter-terminated run;
/// only the final token may lack its delimiter.
pub open spec fn tokenize(s: Seq<u8>) -> Seq<Seq<u8>>
    decreases s.len(),
{
    if s.len() == 0 {
        Seq::empty()
    } else {
        seq![s.take(tok_len(s))] + tokenize(s.skip(tok_len(s)))
    }
}

/// Concatenation of a sequence of byte runs.
pub open spec fn cat(us: Seq<Seq<u8>>) -> Seq<u8>
    decreases us.len(),
{
    if us.len() == 0 {
        Seq::empty()
    } else {
        us[0] + cat(us.drop_first())
    }
}

/// The shape of the first token of a non-empty stream: non-empty, free of
/// interior delimiters, and delimiter-terminated unless it runs to the end.
pub proof fn lemma_tok_shape(s: Seq<u8>)
    requires
        s.len() > 0,
    ensures
        1 <= tok_len(s) <= s.len(),
        forall|k: int| 0 <= k < tok_len(s) - 1 ==> s[k] != DELIMITER,
        tok_len(s) < s.len() ==> s[tok_len(s) - 1] == DELIMITER,
        s[tok_len(s) - 1] != DELIMITER ==> tok_len(s) == s.len(),
{
    lemma_find_from(s, 0, DELIMITER);
}

/// Splitting off the first token and tokenizing the rest tiles the stream.
pub proof fn lemma_tokenize_cat(s: Seq<u8>)
    ensures
        cat(tokenize(s)) == s,
    decreases s.len(),
{
    if s.len() > 0 {
        lemma_tok_shape(s);
        lemma_tokenize_cat(s.skip(tok_len(s)));
        assert(tokenize(s).drop_first() =~= tokenize(s.skip(tok_len(s))));
        assert(cat(tokenize(s)) =~= s.take(tok_len(s)) + s.skip(tok_len(s)));
        assert(s.take(tok_len(s)) + s.skip(tok_len(s)) =~= s);
    }
}

} // verus!
