//! The codec's governing properties, stated and proved over the encoder's
//! and decoder's specification models.

use vstd::prelude::*;
use crate::DELIMITER;
use crate::MIN_LITERAL_LEN;
use crate::SENTINEL;
use crate::decoder::{spec_decode_loop, spec_decompress, spec_ref_token, DecompressError};
use crate::encoder::{cons_unit, no_sentinel, spec_compress, spec_units};
use crate::token::{
    cat, find_from, lemma_find_from, lemma_find_from_is, lemma_tok_shape, tok_len, tokenize,
};
use crate::varint::{
    lemma_vbytes_shape, lemma_vparse_prefix_fails, lemma_vparse_vbytes, vbytes, vparse, vparse64,
};

verus! {

/// The first token of `s.skip(pos)`.
pub open spec fn first_tok(s: Seq<u8>, pos: nat) -> Seq<u8> {
    let u = s.skip(pos as int);
    u.take(tok_len(u))
}

/// Whether the token starting at `pos` is a dictionary hit under `d`.
pub open spec fn is_hit(s: Seq<u8>, pos: nat, d: Map<Seq<u8>, nat>) -> bool {
    let t = first_tok(s, pos);
    t.len() >= MIN_LITERAL_LEN && d.contains_key(t)
}

/// Every entry of the encoder's dictionary at position `pos` records a
/// dictionary-worthy, sentinel-free token that actually occurs at its
/// stored offset, wholly before `pos`, delimiter-free inside and
/// delimiter-terminated unless it runs to the very end of the stream.
pub open spec fn dict_ok(s: Seq<u8>, pos: nat, d: Map<Seq<u8>, nat>) -> bool {
    forall|t: Seq<u8>| #[trigger] d.contains_key(t) ==> {
        &&& t.len() >= MIN_LITERAL_LEN
        &&& !t.contains(SENTINEL)
        &&& d[t] + t.len() <= pos
        &&& s.subrange(d[t] as int, d[t] + t.len() as int) == t
        &&& (forall|k: int| 0 <= k < t.len() - 1 ==> t[k] != DELIMITER)
        &&& (t[t.len() - 1] == DELIMITER || d[t] + t.len() == s.len())
    }
}

/// Run the encoder over the maximal run of literal-emitting tokens from
/// `pos`: returns the position where the run stops (the end of the stream
/// or the first dictionary hit) and the dictionary grown along the way.
pub open spec fn lit_run(s: Seq<u8>, pos: nat, d: Map<Seq<u8>, nat>) -> (nat, Map<Seq<u8>, nat>)
    decreases s.len() - pos,
    when pos <= s.len()
{
    if pos >= s.len() {
        (pos, d)
    } else {
        let t = first_tok(s, pos);
        if is_hit(s, pos, d) {
            (pos, d)
        } else {
            let d2 = if t.len() >= MIN_LITERAL_LEN && !t.contains(SENTINEL)
                && !d.contains_key(t) {
                d.insert(t, pos)
            } else {
                d
            };
            lit_run(s, (pos + t.len()) as nat, d2)
        }
    }
}

/// Unfolding `tokenize` one token at a time, from an absolute position.
pub proof fn lemma_tokenize_step(s: Seq<u8>, pos: nat)
    requires
        pos < s.len(),
    ensures
        1 <= first_tok(s, pos).len() <= s.len() - pos,
        first_tok(s, pos) == s.subrange(pos as int, pos + first_tok(s, pos).len() as int),
        tokenize(s.skip(pos as int)) == seq![first_tok(s, pos)] + tokenize(
            s.skip(pos + first_tok(s, pos).len() as int),
        ),
        tokenize(s.skip(pos as int))[0] == first_tok(s, pos),
        tokenize(s.skip(pos as int)).drop_first() == tokenize(s.skip(pos + first_tok(s, pos).len() as int)),
        forall|k: int| 0 <= k < first_tok(s, pos).len() - 1 ==> first_tok(s, pos)[k] != DELIMITER,
        first_tok(s, pos)[first_tok(s, pos).len() - 1] == DELIMITER || pos + first_tok(s, pos).len()
            == s.len(),
{
    let u = s.skip(pos as int);
    lemma_tok_shape(u);
    let tl = tok_len(u);
    let t = u.take(tl);
    assert(t =~= s.subrange(pos as int, pos + tl as int));
    assert(u.skip(tl) =~= s.skip(pos + tl as int));
    assert((seq![t] + tokenize(s.skip(pos + tl as int)))[0] == t);
    assert((seq![t] + tokenize(s.skip(pos + tl as int))).drop_first() =~= tokenize(s.skip(pos + tl as int)));
}

/// A sentinel-free stream is never rejected, whatever the dictionary.
pub proof fn lemma_units_some(s: Seq<u8>, pos: nat, d: Map<Seq<u8>, nat>)
    requires
        no_sentinel(s),
        pos <= s.len(),
    ensures
        spec_units(tokenize(s.skip(pos as int)), pos, d) is Some,
    decreases s.len() - pos,
{
    if pos < s.len() {
        lemma_tokenize_step(s, pos);
        let t = first_tok(s, pos);
        let tl = t.len();
        assert forall|k: int| 0 <= k < t.len() implies t[k] != SENTINEL by {
            assert(t[k] == s[pos + k]);
        }
        assert(!t.contains(SENTINEL));
        lemma_units_some(s, (pos + tl) as nat, d);
        lemma_units_some(s, (pos + tl) as nat, d.insert(t, pos));
    }
}

/// What the literal run means: the encoder emits exactly the bytes of the
/// run, its dictionary invariant survives, and the run ends either at the
/// end of the stream or at a dictionary hit.
pub proof fn lemma_lit_run(s: Seq<u8>, pos: nat, d: Map<Seq<u8>, nat>)
    requires
        no_sentinel(s),
        pos <= s.len(),
        dict_ok(s, pos, d),
    ensures
        ({
            let (pos2, d2) = lit_run(s, pos, d);
            &&& pos <= pos2 <= s.len()
            &&& dict_ok(s, pos2, d2)
            &&& spec_units(tokenize(s.skip(pos as int)), pos, d) is Some
            &&& spec_units(tokenize(s.skip(pos2 as int)), pos2, d2) is Some
            &&& cat(spec_units(tokenize(s.skip(pos as int)), pos, d).unwrap()) == s.subrange(
                pos as int,
                pos2 as int,
            ) + cat(spec_units(tokenize(s.skip(pos2 as int)), pos2, d2).unwrap())
            &&& (pos2 < s.len() ==> is_hit(s, pos2, d2))
            &&& (pos < s.len() && !is_hit(s, pos, d) ==> pos2 > pos)
        }),
    decreases s.len() - pos,
{
    let (pos2, d2) = lit_run(s, pos, d);
    lemma_units_some(s, pos, d);
    if pos >= s.len() {
        assert(s.skip(pos as int).len() == 0);
        assert(tokenize(s.skip(pos as int)) == Seq::<Seq<u8>>::empty());
        assert(s.subrange(pos as int, pos2 as int) + cat(
            spec_units(tokenize(s.skip(pos2 as int)), pos2, d2).unwrap(),
        ) =~= cat(spec_units(tokenize(s.skip(pos as int)), pos, d).unwrap()));
    } else {
        lemma_tokenize_step(s, pos);
        let t = first_tok(s, pos);
        let tl = t.len();
        let toks = tokenize(s.skip(pos as int));
        assert forall|k: int| 0 <= k < t.len() implies t[k] != SENTINEL by {
            assert(t[k] == s[pos + k]);
        }
        assert(!t.contains(SENTINEL));
        if is_hit(s, pos, d) {
            assert(s.subrange(pos as int, pos2 as int) =~= Seq::<u8>::empty());
            assert(spec_units(toks, pos, d) == cons_unit(
                seq![SENTINEL] + vbytes(d[t]),
                spec_units(toks.drop_first(), pos + tl, d),
            ));
            assert(s.subrange(pos as int, pos2 as int) + cat(
                spec_units(tokenize(s.skip(pos2 as int)), pos2, d2).unwrap(),
            ) =~= cat(spec_units(tokenize(s.skip(pos as int)), pos, d).unwrap()));
        } else {
            let d3 = if tl >= MIN_LITERAL_LEN && !t.contains(SENTINEL) && !d.contains_key(t) {
                d.insert(t, pos)
            } else {
                d
            };
            assert(dict_ok(s, (pos + tl) as nat, d3)) by {
                assert forall|w: Seq<u8>| #[trigger] d3.contains_key(w) implies {
                    &&& w.len() >= MIN_LITERAL_LEN
                    &&& !w.contains(SENTINEL)
                    &&& d3[w] + w.len() <= pos + tl
                    &&& s.subrange(d3[w] as int, d3[w] + w.len() as int) == w
                    &&& (forall|k: int| 0 <= k < w.len() - 1 ==> w[k] != DELIMITER)
                    &&& (w[w.len() - 1] == DELIMITER || d3[w] + w.len() == s.len())
                } by {
                    if w == t && !d.contains_key(t) {
                        assert(d3[w] == pos);
                        assert(s.subrange(pos as int, pos + tl as int) == t);
                    } else {
                        assert(d.contains_key(w));
                    }
                }
            }
            lemma_lit_run(s, (pos + tl) as nat, d3);
            let us_rest = spec_units(tokenize(s.skip(pos + tl as int)), (pos + tl) as nat, d3);
            assert(spec_units(toks, pos, d) == cons_unit(t, us_rest));
            let usr = us_rest.unwrap();
            assert((seq![t] + usr)[0] == t);
            assert((seq![t] + usr).drop_first() =~= usr);
            assert(cat(seq![t] + usr) == t + cat(usr));
            assert(s.subrange(pos as int, pos2 as int) =~= t + s.subrange(
                pos + tl as int,
                pos2 as int,
            ));
            assert(cat(spec_units(toks, pos, d).unwrap()) =~= s.subrange(pos as int, pos2 as int)
                + cat(spec_units(tokenize(s.skip(pos2 as int)), pos2, d2).unwrap()));
        }
    }
}


/// The decoder consumes one reference unit, resynchronizing as needed.
///
/// At entry the candidate holds a proper prefix of the offset's varint
/// (empty at the first attempt), and the stream continues with the rest of
/// that varint, then sentinel-free literal bytes, then either nothing or
/// the next unit's sentinel. However many sentinel bytes the varint itself
/// contains, scanning and re-appending reassembles it: the unit resolves to
/// the referenced token plus the literals, and scanning resumes beyond the
/// terminating sentinel.
#[verifier::rlimit(80)]
pub proof fn lemma_decode_unit(
    stream: Seq<u8>,
    i: int,
    out: Seq<u8>,
    cand: Seq<u8>,
    n: nat,
    vrest: Seq<u8>,
    lits: Seq<u8>,
    tail: Seq<u8>,
)
    requires
        out.len() > 0,
        cand + vrest == vbytes(n),
        vrest.len() > 0,
        n < 0x1_0000_0000_0000_0000,
        n <= out.len(),
        forall|k: int| 0 <= k < lits.len() ==> lits[k] != SENTINEL,
        tail.len() > 0 ==> tail[0] == SENTINEL,
        0 <= i <= stream.len(),
        stream.skip(i) == vrest + lits + tail,
    ensures
        spec_decode_loop(stream, i, out, cand) == spec_decode_loop(
            stream,
            i + vrest.len() + lits.len() + (if tail.len() > 0 {
                1int
            } else {
                0int
            }),
            out + spec_ref_token(out, n as int) + lits,
            Seq::empty(),
        ),
    decreases vrest.len(),
{
    lemma_vbytes_shape(n);
    assert(stream.skip(i).len() == vrest.len() + lits.len() + tail.len());
    assert(i < stream.len());
    assert forall|k: int| 0 <= k < vrest.len() implies vrest[k] == vbytes(n)[cand.len() + k] by {
        assert(vbytes(n)[cand.len() + k] == (cand + vrest)[cand.len() + k]);
    }
    assert forall|k: int| i <= k < stream.len() implies stream[k] == (vrest + lits + tail)[k
        - i] by {
        assert(stream[k] == stream.skip(i)[k - i]);
    }
    let j0 = find_from(vrest, 0, SENTINEL);
    lemma_find_from(vrest, 0, SENTINEL);
    if j0 < vrest.len() {
        assert forall|k: int| i <= k < i + j0 implies stream[k] != SENTINEL by {
            assert(stream[k] == vrest[k - i]);
        }
        assert(stream[i + j0] == vrest[j0]);
        lemma_find_from_is(stream, i, SENTINEL, i + j0);
        let cand2 = cand + stream.subrange(i, i + j0);
        assert(stream.subrange(i, i + j0) =~= vrest.take(j0));
        assert(cand2 =~= vbytes(n).take(cand.len() + j0));
        lemma_vparse_prefix_fails(n, cand.len() + j0);
        assert(vparse64(cand2) is None);
        let cand3 = cand2 + seq![SENTINEL];
        assert(vbytes(n)[cand.len() + j0] == SENTINEL);
        assert(cand3 =~= vbytes(n).take(cand.len() + j0 + 1));
        assert(vrest[vrest.len() - 1] == vbytes(n)[vbytes(n).len() - 1]);
        assert(vrest[vrest.len() - 1] < 128);
        assert(j0 < vrest.len() - 1);
        let vrest2 = vrest.skip(j0 + 1);
        assert(cand3 + vrest2 =~= vbytes(n));
        assert(stream.skip(i + j0 + 1) =~= vrest2 + lits + tail) by {
            assert forall|k: int| 0 <= k < stream.len() - i - j0 - 1 implies stream.skip(
                i + j0 + 1,
            )[k] == (vrest2 + lits + tail)[k] by {
                assert(stream[i + j0 + 1 + k] == (vrest + lits + tail)[j0 + 1 + k]);
            }
        }
        lemma_decode_unit(stream, i + j0 + 1, out, cand3, n, vrest2, lits, tail);
        assert(spec_decode_loop(stream, i, out, cand) == spec_decode_loop(
            stream,
            i + j0 + 1,
            out,
            cand3,
        ));
    } else {
        let jj = i + vrest.len() + lits.len();
        assert forall|k: int| i <= k < jj implies stream[k] != SENTINEL by {
            if k - i < vrest.len() {
                assert(stream[k] == vrest[k - i]);
            } else {
                assert(stream[k] == lits[k - i - vrest.len()]);
            }
        }
        if tail.len() > 0 {
            assert(stream[jj] == tail[0]);
            lemma_find_from_is(stream, i, SENTINEL, jj);
        } else {
            assert(jj == stream.len());
            lemma_find_from_is(stream, i, SENTINEL, jj);
        }
        let cand2 = cand + stream.subrange(i, jj);
        assert(stream.subrange(i, jj) =~= vrest + lits);
        assert(cand2 =~= vbytes(n) + lits);
        lemma_vparse_vbytes(n, lits);
        assert(vparse(cand2) == Some((n, vbytes(n).len())));
        assert(vparse64(cand2) == Some((n as u64, vbytes(n).len())));
        assert((n as u64) <= out.len());
        assert(cand2.skip(vbytes(n).len() as int) =~= lits);
        assert((n as u64) as int == n as int);
        assert(spec_decode_loop(stream, i, out, cand) == spec_decode_loop(
            stream,
            if tail.len() > 0 {
                jj + 1
            } else {
                jj
            },
            out + spec_ref_token(out, n as int) + cand2.skip(vbytes(n).len() as int),
            Seq::empty(),
        ));
    }
}


/// At a dictionary hit the remaining encoding opens with the sentinel.
proof fn lemma_hit_head(s: Seq<u8>, pos: nat, d: Map<Seq<u8>, nat>)
    requires
        no_sentinel(s),
        pos < s.len(),
        is_hit(s, pos, d),
    ensures
        spec_units(tokenize(s.skip(pos as int)), pos, d) is Some,
        cat(spec_units(tokenize(s.skip(pos as int)), pos, d).unwrap()).len() > 0,
        cat(spec_units(tokenize(s.skip(pos as int)), pos, d).unwrap())[0] == SENTINEL,
{
    lemma_tokenize_step(s, pos);
    lemma_units_some(s, pos, d);
    let t = first_tok(s, pos);
    let tl = t.len();
    assert forall|k: int| 0 <= k < t.len() implies t[k] != SENTINEL by {
        assert(t[k] == s[pos + k]);
    }
    assert(!t.contains(SENTINEL));
    let toks = tokenize(s.skip(pos as int));
    let u = seq![SENTINEL] + vbytes(d[t]);
    let us_rest = spec_units(tokenize(s.skip(pos + tl as int)), (pos + tl) as nat, d);
    assert(spec_units(toks, pos, d) == cons_unit(u, us_rest));
    let usr = us_rest.unwrap();
    assert((seq![u] + usr)[0] == u);
    assert((seq![u] + usr).drop_first() =~= usr);
    assert(cat(seq![u] + usr) == u + cat(usr));
    assert((u + cat(usr))[0] == SENTINEL);
}

/// The main induction of the round trip: from a state where the decoder
/// has reconstructed the stream up to a token the encoder replaced by a
/// reference, and scanning stands just past that reference's sentinel,
/// decoding finishes with exactly the original stream.
#[verifier::rlimit(100)]
#[verifier::spinoff_prover]
proof fn lemma_decode_from_ref(s: Seq<u8>, pos: nat, d: Map<Seq<u8>, nat>, stream: Seq<u8>, i: int)
    requires
        no_sentinel(s),
        s.len() < 0x1_0000_0000_0000_0000,
        0 < pos < s.len(),
        dict_ok(s, pos, d),
        is_hit(s, pos, d),
        0 <= i <= stream.len(),
        stream.skip(i) == cat(spec_units(tokenize(s.skip(pos as int)), pos, d).unwrap()).skip(1),
        spec_units(tokenize(s.skip(pos as int)), pos, d) is Some,
    ensures
        spec_decode_loop(stream, i, s.take(pos as int), Seq::empty()) == Ok::<
            Seq<u8>,
            DecompressError,
        >(s),
    decreases s.len() - pos,
{
    lemma_tokenize_step(s, pos);
    let t = first_tok(s, pos);
    let tl = t.len();
    let n = d[t];
    assert forall|k: int| 0 <= k < t.len() implies t[k] != SENTINEL by {
        assert(t[k] == s[pos + k]);
    }
    assert(!t.contains(SENTINEL));
    let toks = tokenize(s.skip(pos as int));
    let u = seq![SENTINEL] + vbytes(n);
    lemma_units_some(s, (pos + tl) as nat, d);
    let us_rest = spec_units(tokenize(s.skip(pos + tl as int)), (pos + tl) as nat, d);
    assert(spec_units(toks, pos, d) == cons_unit(u, us_rest));
    let usr = us_rest.unwrap();
    assert((seq![u] + usr)[0] == u);
    assert((seq![u] + usr).drop_first() =~= usr);
    assert(cat(seq![u] + usr) == u + cat(usr));
    assert(cat(spec_units(toks, pos, d).unwrap()).skip(1) =~= vbytes(n) + cat(usr));
    assert(dict_ok(s, (pos + tl) as nat, d));
    lemma_lit_run(s, (pos + tl) as nat, d);
    let (pos2, d2) = lit_run(s, (pos + tl) as nat, d);
    let lits = s.subrange(pos + tl as int, pos2 as int);
    let tail = cat(spec_units(tokenize(s.skip(pos2 as int)), pos2, d2).unwrap());
    assert(cat(usr) == lits + tail);
    if pos2 < s.len() {
        lemma_hit_head(s, pos2, d2);
        assert(tail[0] == SENTINEL);
    } else {
        assert(s.skip(pos2 as int).len() == 0);
        assert(tokenize(s.skip(pos2 as int)) == Seq::<Seq<u8>>::empty());
        assert(tail.len() == 0);
    }
    // the reference resolves to exactly the repeated token
    let outp = s.take(pos as int);
    assert(n + tl <= pos);
    assert(s.subrange(n as int, n + t.len() as int) == t);
    assert forall|k: int| n <= k < n + tl - 1 implies outp[k] != DELIMITER by {
        assert(outp[k] == s[k]);
        assert(s[k] == t[k - n]);
    }
    assert(t[tl - 1] == DELIMITER) by {
        assert(n + tl <= pos < s.len());
    }
    assert(outp[n + tl - 1] == t[tl - 1]);
    lemma_find_from_is(outp, n as int, DELIMITER, n + tl - 1);
    assert(spec_ref_token(outp, n as int) =~= t);
    // hand the unit to the resynchronizing scanner
    lemma_vbytes_shape(n);
    assert forall|k: int| 0 <= k < lits.len() implies lits[k] != SENTINEL by {
        assert(lits[k] == s[pos + tl + k]);
    }
    assert(Seq::<u8>::empty() + vbytes(n) =~= vbytes(n));
    assert(stream.skip(i) =~= vbytes(n) + lits + tail);
    assert(n < pos);
    lemma_decode_unit(stream, i, outp, Seq::empty(), n, vbytes(n), lits, tail);
    let i2 = i + vbytes(n).len() + lits.len() + (if tail.len() > 0 {
        1int
    } else {
        0int
    });
    assert(outp + spec_ref_token(outp, n as int) + lits =~= s.take(pos2 as int));
    if pos2 == s.len() {
        assert(i2 == stream.len());
        assert(s.take(pos2 as int) =~= s);
        assert(spec_decode_loop(stream, i2, s, Seq::empty()) == Ok::<Seq<u8>, DecompressError>(s));
    } else {
        assert(stream.skip(i2) =~= tail.skip(1)) by {
            assert forall|k: int| 0 <= k < stream.len() - i2 implies stream.skip(i2)[k] == tail.skip(
                1,
            )[k] by {
                assert(stream.skip(i2)[k] == stream[i2 + k]);
                assert(stream[i2 + k] == stream.skip(i)[i2 - i + k]);
                assert((vbytes(n) + lits + tail)[i2 - i + k] == tail[1 + k]);
            }
        }
        lemma_decode_from_ref(s, pos2, d2, stream, i2);
        assert(spec_decode_loop(stream, i2, s.take(pos2 as int), Seq::empty()) == Ok::<
            Seq<u8>,
            DecompressError,
        >(s));
    }
}

/// Round-trip identity: every sentinel-free byte stream the encoder
/// accepts is reproduced exactly by the decoder, byte for byte, including
/// the presence or absence of the final token's trailing delimiter.
pub proof fn lemma_round_trip(s: Seq<u8>)
    requires
        no_sentinel(s),
        s.len() < 0x1_0000_0000_0000_0000,
    ensures
        spec_compress(s) is Some,
        spec_decompress(spec_compress(s).unwrap()) == Ok::<Seq<u8>, DecompressError>(s),
{
    assert(s.skip(0) =~= s);
    lemma_units_some(s, 0, Map::empty());
    assert(dict_ok(s, 0, Map::<Seq<u8>, nat>::empty()));
    lemma_lit_run(s, 0, Map::empty());
    let (pos2, d2) = lit_run(s, 0, Map::empty());
    let stream = cat(spec_units(tokenize(s), 0, Map::empty()).unwrap());
    assert(spec_compress(s) == Some(stream));
    let tail = cat(spec_units(tokenize(s.skip(pos2 as int)), pos2, d2).unwrap());
    assert(stream == s.subrange(0, pos2 as int) + tail);
    if s.len() == 0 {
        assert(stream.len() == 0);
        assert(spec_decode_loop(stream, 0, Seq::empty(), Seq::empty()) == Ok::<
            Seq<u8>,
            DecompressError,
        >(Seq::<u8>::empty()));
        assert(Seq::<u8>::empty() =~= s);
    } else if pos2 == s.len() {
        assert(tail.len() == 0) by {
            assert(s.skip(pos2 as int).len() == 0);
            assert(tokenize(s.skip(pos2 as int)) == Seq::<Seq<u8>>::empty());
        }
        assert(stream =~= s);
        lemma_find_from_is(stream, 0, SENTINEL, stream.len() as int);
        assert(stream.subrange(0, stream.len() as int) =~= stream);
        assert(Seq::<u8>::empty() + stream =~= stream);
        assert(spec_decode_loop(stream, 0, Seq::empty(), Seq::empty()) == spec_decode_loop(
            stream,
            stream.len() as int,
            stream,
            Seq::empty(),
        ));
        assert(spec_decode_loop(stream, stream.len() as int, stream, Seq::empty()) == Ok::<
            Seq<u8>,
            DecompressError,
        >(stream));
    } else {
        assert(!is_hit(s, 0, Map::<Seq<u8>, nat>::empty())) by {
            assert(!Map::<Seq<u8>, nat>::empty().contains_key(first_tok(s, 0)));
        }
        assert(pos2 > 0);
        lemma_hit_head(s, pos2, d2);
        assert(tail.len() > 0 && tail[0] == SENTINEL);
        assert forall|k: int| 0 <= k < pos2 implies stream[k] != SENTINEL by {
            assert(stream[k] == s.subrange(0, pos2 as int)[k]);
            assert(stream[k] == s[k]);
        }
        assert(stream[pos2 as int] == tail[0]);
        lemma_find_from_is(stream, 0, SENTINEL, pos2 as int);
        assert(pos2 < stream.len());
        assert(Seq::<u8>::empty() + stream.subrange(0, pos2 as int) =~= s.take(pos2 as int));
        assert(spec_decode_loop(stream, 0, Seq::empty(), Seq::empty()) == spec_decode_loop(
            stream,
            pos2 + 1 as int,
            s.take(pos2 as int),
            Seq::empty(),
        ));
        assert(stream.skip(pos2 + 1 as int) =~= tail.skip(1)) by {
            assert forall|k: int| 0 <= k < stream.len() - pos2 - 1 implies stream.skip(
                pos2 + 1 as int,
            )[k] == tail.skip(1)[k] by {
                assert(stream.skip(pos2 + 1 as int)[k] == stream[pos2 + 1 + k]);
                assert(stream[pos2 + 1 + k] == tail[1 + k]);
            }
        }
        lemma_decode_from_ref(s, pos2, d2, stream, pos2 + 1 as int);
    }
}


/// Whether some token contains the sentinel byte, which the wire format
/// cannot represent.
pub open spec fn has_bad_token(toks: Seq<Seq<u8>>) -> bool {
    exists|q: int| 0 <= q < toks.len() && toks[q].contains(SENTINEL)
}

/// The encoder fails exactly when some token contains the sentinel byte,
/// whatever the dictionary state.
pub proof fn lemma_units_none_iff(toks: Seq<Seq<u8>>, pos: nat, d: Map<Seq<u8>, nat>)
    ensures
        spec_units(toks, pos, d) is None <==> has_bad_token(toks),
    decreases toks.len(),
{
    if toks.len() > 0 {
        let t = toks[0];
        let rest = toks.drop_first();
        let rest_pos = pos + t.len();
        assert forall|q: int| 0 <= q < rest.len() implies rest[q] == toks[q + 1] by {}
        if t.contains(SENTINEL) {
            assert(has_bad_token(toks));
        } else {
            if t.len() < MIN_LITERAL_LEN {
                lemma_units_none_iff(rest, rest_pos, d);
            } else if d.contains_key(t) {
                lemma_units_none_iff(rest, rest_pos, d);
            } else {
                lemma_units_none_iff(rest, rest_pos, d.insert(t, pos));
            }
            if has_bad_token(rest) {
                let q = choose|q: int| 0 <= q < rest.len() && rest[q].contains(SENTINEL);
                assert(toks[q + 1] == rest[q]);
                assert(has_bad_token(toks));
            }
            if has_bad_token(toks) {
                let q = choose|q: int| 0 <= q < toks.len() && toks[q].contains(SENTINEL);
                assert(q != 0);
                assert(rest[q - 1] == toks[q]);
                assert(has_bad_token(rest));
            }
        }
    }
}

/// The encoder from position `pos` fails exactly when a sentinel byte
/// occurs at or after `pos`, whatever the dictionary state.
proof fn lemma_units_reject(s: Seq<u8>, pos: nat, d: Map<Seq<u8>, nat>)
    requires
        pos <= s.len(),
    ensures
        spec_units(tokenize(s.skip(pos as int)), pos, d) is None <==> exists|k: int|
            pos <= k < s.len() && s[k] == SENTINEL,
    decreases s.len() - pos,
{
    if pos < s.len() {
        lemma_tokenize_step(s, pos);
        let t = first_tok(s, pos);
        let tl = t.len();
        if t.contains(SENTINEL) {
            let j = choose|j: int| 0 <= j < t.len() && t[j] == SENTINEL;
            assert(s[pos + j] == SENTINEL);
        } else {
            lemma_units_reject(s, (pos + tl) as nat, d);
            lemma_units_reject(s, (pos + tl) as nat, d.insert(t, pos));
            if exists|k: int| pos + tl <= k < s.len() && s[k] == SENTINEL {
                let k = choose|k: int| pos + tl <= k < s.len() && s[k] == SENTINEL;
                assert(pos <= k < s.len() && s[k] == SENTINEL);
            }
            if exists|k: int| pos <= k < s.len() && s[k] == SENTINEL {
                let k = choose|k: int| pos <= k < s.len() && s[k] == SENTINEL;
                if k < pos + tl {
                    assert(t[k - pos] == s[k]);
                    assert(t.contains(SENTINEL));
                }
                assert(pos + tl <= k);
            }
        }
    }
}

/// Sentinel rejection: the encoder fails, and produces nothing, exactly
/// when the input holds a raw sentinel byte anywhere.
pub proof fn lemma_sentinel_rejection(s: Seq<u8>)
    ensures
        spec_compress(s) is None <==> !no_sentinel(s),
{
    assert(s.skip(0) =~= s);
    lemma_units_reject(s, 0, Map::empty());
}

/// A successful encoding has one unit per token.
pub proof fn lemma_units_len(toks: Seq<Seq<u8>>, pos: nat, d: Map<Seq<u8>, nat>)
    requires
        spec_units(toks, pos, d) is Some,
    ensures
        spec_units(toks, pos, d).unwrap().len() == toks.len(),
    decreases toks.len(),
{
    if toks.len() > 0 {
        let t = toks[0];
        let rest = toks.drop_first();
        let rest_pos = pos + t.len();
        if t.len() < MIN_LITERAL_LEN {
            lemma_units_len(rest, rest_pos, d);
        } else if d.contains_key(t) {
            lemma_units_len(rest, rest_pos, d);
        } else {
            lemma_units_len(rest, rest_pos, d.insert(t, pos));
        }
    }
}

/// The position of token `q` and the dictionary state just before the
/// encoder reaches it.
pub open spec fn dict_before(toks: Seq<Seq<u8>>, pos: nat, d: Map<Seq<u8>, nat>, q: int) -> (
    nat,
    Map<Seq<u8>, nat>,
)
    decreases q,
{
    if q <= 0 || toks.len() == 0 {
        (pos, d)
    } else {
        let t = toks[0];
        let d2 = if t.len() >= MIN_LITERAL_LEN && !t.contains(SENTINEL) && !d.contains_key(t) {
            d.insert(t, pos)
        } else {
            d
        };
        dict_before(toks.drop_first(), (pos + t.len()) as nat, d2, q - 1)
    }
}

/// What unit the encoder emits for token `q`: short tokens and first
/// occurrences verbatim, repeats as a reference to the stored offset.
pub proof fn lemma_units_at(toks: Seq<Seq<u8>>, pos: nat, d: Map<Seq<u8>, nat>, q: int)
    requires
        spec_units(toks, pos, d) is Some,
        0 <= q < toks.len(),
    ensures
        ({
            let t = toks[q];
            let dq = dict_before(toks, pos, d, q).1;
            let us = spec_units(toks, pos, d).unwrap();
            &&& (t.len() < MIN_LITERAL_LEN ==> us[q] == t)
            &&& (t.len() >= MIN_LITERAL_LEN && dq.contains_key(t) ==> us[q] == seq![SENTINEL]
                + vbytes(dq[t]))
            &&& (t.len() >= MIN_LITERAL_LEN && !dq.contains_key(t) ==> us[q] == t)
        }),
    decreases q,
{
    let t0 = toks[0];
    let rest = toks.drop_first();
    let rest_pos = pos + t0.len();
    let d2 = if t0.len() >= MIN_LITERAL_LEN && !t0.contains(SENTINEL) && !d.contains_key(t0) {
        d.insert(t0, pos)
    } else {
        d
    };
    assert(!t0.contains(SENTINEL));
    let u0 = if t0.len() >= MIN_LITERAL_LEN && d.contains_key(t0) {
        seq![SENTINEL] + vbytes(d[t0])
    } else {
        t0
    };
    let us = spec_units(toks, pos, d).unwrap();
    let us_rest = spec_units(rest, rest_pos as nat, d2);
    assert(spec_units(toks, pos, d) == cons_unit(u0, us_rest));
    let usr = us_rest.unwrap();
    assert(us == seq![u0] + usr);
    if q == 0 {
        assert(us[0] == u0);
        assert(dict_before(toks, pos, d, 0) == (pos, d));
    } else {
        lemma_units_len(rest, rest_pos as nat, d2);
        assert(seq![u0].len() == 1);
        assert(us[q] == (seq![u0] + usr)[q]);
        assert((seq![u0] + usr)[q] == usr[q - 1]);
        lemma_units_at(rest, rest_pos as nat, d2, q - 1);
        assert(rest[q - 1] == toks[q]);
        assert(dict_before(toks, pos, d, q) == dict_before(rest, rest_pos as nat, d2, q - 1));
    }
}


/// The index of the first occurrence of `t` among `toks`, or `toks.len()`.
pub open spec fn first_index_of(toks: Seq<Seq<u8>>, t: Seq<u8>) -> int
    decreases toks.len(),
{
    if toks.len() == 0 {
        0
    } else if toks[0] == t {
        0
    } else {
        1 + first_index_of(toks.drop_first(), t)
    }
}

pub proof fn lemma_first_index(toks: Seq<Seq<u8>>, t: Seq<u8>)
    ensures
        0 <= first_index_of(toks, t) <= toks.len(),
        first_index_of(toks, t) < toks.len() ==> toks[first_index_of(toks, t)] == t,
        forall|j: int| 0 <= j < first_index_of(toks, t) ==> toks[j] != t,
    decreases toks.len(),
{
    if toks.len() > 0 && toks[0] != t {
        lemma_first_index(toks.drop_first(), t);
        let f = first_index_of(toks, t);
        assert forall|j: int| 0 <= j < f implies toks[j] != t by {
            if j > 0 {
                assert(toks.drop_first()[j - 1] == toks[j]);
            }
        }
        if f < toks.len() {
            assert(toks[f] == toks.drop_first()[f - 1]);
        }
    }
}

/// What the dictionary holds of one fixed dictionary-worthy token value by
/// the time the encoder reaches token `q`: nothing before its first
/// occurrence, and from then on the offset that first occurrence had, the
/// entry never changing again; an entry already present at the start keeps
/// its original offset throughout.
pub proof fn lemma_dict_before_key(
    toks: Seq<Seq<u8>>,
    pos: nat,
    d: Map<Seq<u8>, nat>,
    q: int,
    t: Seq<u8>,
)
    requires
        0 <= q <= toks.len(),
        t.len() >= MIN_LITERAL_LEN,
        !t.contains(SENTINEL),
    ensures
        ({
            let dq = dict_before(toks, pos, d, q).1;
            let f = first_index_of(toks, t);
            &&& (d.contains_key(t) ==> dq.contains_key(t) && dq[t] == d[t])
            &&& (!d.contains_key(t) && f < q ==> dq.contains_key(t) && dq[t] == pos + cat(
                toks.take(f),
            ).len())
            &&& (!d.contains_key(t) && f >= q ==> !dq.contains_key(t))
        }),
    decreases q,
{
    let f = first_index_of(toks, t);
    lemma_first_index(toks, t);
    if q > 0 && toks.len() > 0 {
        let t0 = toks[0];
        let rest = toks.drop_first();
        let rest_pos = (pos + t0.len()) as nat;
        let d2 = if t0.len() >= MIN_LITERAL_LEN && !t0.contains(SENTINEL) && !d.contains_key(t0) {
            d.insert(t0, pos)
        } else {
            d
        };
        lemma_dict_before_key(rest, rest_pos, d2, q - 1, t);
        assert(dict_before(toks, pos, d, q) == dict_before(rest, rest_pos, d2, q - 1));
        if t0 == t {
            assert(f == 0);
            assert(cat(toks.take(0)).len() == 0) by {
                assert(toks.take(0) =~= Seq::<Seq<u8>>::empty());
            }
            if d.contains_key(t) {
                assert(d2 == d);
            } else {
                assert(d2 == d.insert(t, pos));
                assert(d2.contains_key(t) && d2[t] == pos);
            }
        } else {
            assert(f == 1 + first_index_of(rest, t));
            assert(d2.contains_key(t) == d.contains_key(t));
            if d.contains_key(t) {
                assert(d2[t] == d[t]);
            } else {
                let fr = first_index_of(rest, t);
                assert(cat(toks.take(f)).len() == t0.len() + cat(rest.take(fr)).len()) by {
                    assert(toks.take(f) =~= seq![t0] + rest.take(fr));
                    assert((seq![t0] + rest.take(fr))[0] == t0);
                    assert((seq![t0] + rest.take(fr)).drop_first() =~= rest.take(fr));
                    assert(cat(seq![t0] + rest.take(fr)) == t0 + cat(rest.take(fr)));
                }
            }
        }
    }
}

/// Literal-threshold boundary: a token shorter than the threshold is
/// emitted verbatim, never as a reference, no matter how often it repeats.
pub proof fn lemma_literal_threshold(s: Seq<u8>, q: int)
    requires
        spec_compress(s) is Some,
        0 <= q < tokenize(s).len(),
        tokenize(s)[q].len() < MIN_LITERAL_LEN,
    ensures
        spec_units(tokenize(s), 0, Map::empty()) is Some,
        spec_units(tokenize(s), 0, Map::empty()).unwrap().len() == tokenize(s).len(),
        spec_units(tokenize(s), 0, Map::empty()).unwrap()[q] == tokenize(s)[q],
{
    lemma_units_len(tokenize(s), 0, Map::empty());
    lemma_units_at(tokenize(s), 0, Map::empty(), q);
}

/// First-occurrence invariant: a dictionary-worthy token is emitted
/// verbatim exactly at its first occurrence, and every later repeat
/// becomes a reference to that first occurrence's byte offset — the same
/// offset for all repeats.
pub proof fn lemma_first_occurrence(s: Seq<u8>, q: int)
    requires
        spec_compress(s) is Some,
        0 <= q < tokenize(s).len(),
        tokenize(s)[q].len() >= MIN_LITERAL_LEN,
    ensures
        spec_units(tokenize(s), 0, Map::empty()) is Some,
        spec_units(tokenize(s), 0, Map::empty()).unwrap().len() == tokenize(s).len(),
        0 <= first_index_of(tokenize(s), tokenize(s)[q]) <= q,
        first_index_of(tokenize(s), tokenize(s)[q]) == q ==> spec_units(
            tokenize(s),
            0,
            Map::empty(),
        ).unwrap()[q] == tokenize(s)[q],
        first_index_of(tokenize(s), tokenize(s)[q]) < q ==> spec_units(
            tokenize(s),
            0,
            Map::empty(),
        ).unwrap()[q] == seq![SENTINEL] + vbytes(
            cat(tokenize(s).take(first_index_of(tokenize(s), tokenize(s)[q]))).len(),
        ),
{
    let toks = tokenize(s);
    let t = toks[q];
    lemma_units_len(toks, 0, Map::empty());
    lemma_units_at(toks, 0, Map::empty(), q);
    lemma_first_index(toks, t);
    assert(!t.contains(SENTINEL)) by {
        lemma_units_none_iff(toks, 0, Map::empty());
        assert(!has_bad_token(toks));
        if t.contains(SENTINEL) {
            assert(toks[q].contains(SENTINEL));
            assert(has_bad_token(toks));
        }
    }
    lemma_dict_before_key(toks, 0, Map::empty(), q, t);
    let f = first_index_of(toks, t);
    assert(f <= q);
    let dq = dict_before(toks, 0, Map::empty(), q).1;
    if f == q {
        assert(!dq.contains_key(t));
    } else {
        assert(dq.contains_key(t) && dq[t] == cat(toks.take(f)).len());
    }
}

} // verus!
