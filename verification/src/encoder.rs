//! The encoder: a single forward pass over the token stream, replacing each
//! repeat of a dictionary-worthy token by a sentinel byte and the varint
//! offset of the token's first occurrence in the original stream.

use vstd::prelude::*;
use vstd::slice::{slice_subrange, slice_to_vec};
use crate::DELIMITER;
use crate::MIN_LITERAL_LEN;
use crate::SENTINEL;
use crate::dict::{Dict, dict_entries, dict_get, dict_insert, dict_new};
use crate::token::{cat, find_from, lemma_find_from_skip, scan_for, tok_len, tokenize};
use crate::varint::{encode_varint, vbytes};

verus! {

/// Compression is refused when the input contains the sentinel byte
/// anywhere: the wire format cannot represent it.
#[derive(Clone, Copy, Debug, PartialEq, Eq, Structural)]
pub enum CompressError {
    SentinelInInput,
}

/// A byte stream the encoder accepts: one free of the sentinel byte.
pub open spec fn no_sentinel(s: Seq<u8>) -> bool {
    forall|k: int| 0 <= k < s.len() ==> s[k] != SENTINEL
}

/// An `Option` cons cell over unit sequences, propagating failure.
pub open spec fn cons_unit(u: Seq<u8>, rest: Option<Seq<Seq<u8>>>) -> Option<Seq<Seq<u8>>> {
    match rest {
        None => None,
        Some(us) => Some(seq![u] + us),
    }
}

/// The encoded unit for each token in turn. `pos` is the byte offset of
/// `toks[0]` in the original stream and `dict` maps each already-seen
/// dictionary-worthy token to the offset of its first occurrence.
///
/// A token containing the sentinel byte makes the whole encoding fail.
/// A short token is emitted verbatim and never touches the dictionary.
/// Otherwise a dictionary hit becomes the sentinel plus a varint offset,
/// and a miss is emitted verbatim and remembered.
pub open spec fn spec_units(toks: Seq<Seq<u8>>, pos: nat, dict: Map<Seq<u8>, nat>) -> Option<
    Seq<Seq<u8>>,
>
    decreases toks.len(),
{
    if toks.len() == 0 {
        Some(Seq::empty())
    } else {
        let t = toks[0];
        let rest = toks.drop_first();
        let rest_pos = pos + t.len();
        if t.contains(SENTINEL) {
            None
        } else if t.len() < MIN_LITERAL_LEN {
            cons_unit(t, spec_units(rest, rest_pos, dict))
        } else if dict.contains_key(t) {
            cons_unit(seq![SENTINEL] + vbytes(dict[t]), spec_units(rest, rest_pos, dict))
        } else {
            cons_unit(t, spec_units(rest, rest_pos, dict.insert(t, pos)))
        }
    }
}

/// The whole encoded stream for input `s`, or `None` when `s` is rejected.
pub open spec fn spec_compress(s: Seq<u8>) -> Option<Seq<u8>> {
    match spec_units(tokenize(s), 0, Map::empty()) {
        None => None,
        Some(us) => Some(cat(us)),
    }
}

/// Dictionary offsets widened from machine words to mathematical naturals.
pub open spec fn lift_dict(m: Map<Seq<u8>, usize>) -> Map<Seq<u8>, nat> {
    Map::new(|k: Seq<u8>| m.contains_key(k), |k: Seq<u8>| m[k] as nat)
}

proof fn lemma_lift_insert(m: Map<Seq<u8>, usize>, k: Seq<u8>, v: usize)
    ensures
        lift_dict(m.insert(k, v)) == lift_dict(m).insert(k, v as nat),
{
    assert(lift_dict(m.insert(k, v)) =~= lift_dict(m).insert(k, v as nat));
}

/// Compress `input`: each space-delimited token is emitted verbatim the
/// first time and as a back-reference on every later repeat. Fails exactly
/// when the input contains the sentinel byte anywhere, and then produces
/// no output.
///
/// Memory cost: the dictionary grows with the number of distinct
/// dictionary-worthy tokens and is retained for the whole pass.
#[verifier::rlimit(80)]
pub fn compress(input: &Vec<u8>) -> (r: Result<Vec<u8>, CompressError>)
    ensures
        r matches Ok(out) ==> spec_compress(input@) == Some(out@),
        r is Err ==> spec_compress(input@) is None,
        r is Err <==> !no_sentinel(input@),
        r is Err ==> r == Err::<Vec<u8>, CompressError>(CompressError::SentinelInInput),
{
    let mut out: Vec<u8> = Vec::new();
    let mut dict: Dict = dict_new();
    let mut p: usize = 0;
    proof {
        assert(input@.skip(0) =~= input@);
        assert(lift_dict(dict_entries(dict)) =~= Map::<Seq<u8>, nat>::empty());
    }
    while p < input.len()
        invariant
            p <= input.len(),
            no_sentinel(input@.take(p as int)),
            match spec_units(
                tokenize(input@.skip(p as int)),
                p as nat,
                lift_dict(dict_entries(dict)),
            ) {
                None => spec_compress(input@) is None,
                Some(us) => spec_compress(input@) == Some(out@ + cat(us)),
            },
        decreases input.len() - p,
    {
        let ghost sd = lift_dict(dict_entries(dict));
        let j = scan_for(input, p, DELIMITER);
        let end: usize = if j < input.len() {
            j + 1
        } else {
            j
        };
        let ghost t = input@.subrange(p as int, end as int);
        proof {
            lemma_find_from_skip(input@, p as int, DELIMITER);
            assert(tok_len(input@.skip(p as int)) == end - p);
            assert(input@.skip(p as int).take(end - p) =~= t);
            assert(input@.skip(p as int).skip(end - p) =~= input@.skip(end as int));
            assert(tokenize(input@.skip(p as int)) == seq![t] + tokenize(input@.skip(end as int)));
            assert((seq![t] + tokenize(input@.skip(end as int)))[0] == t);
            assert((seq![t] + tokenize(input@.skip(end as int))).drop_first() =~= tokenize(
                input@.skip(end as int),
            ));
        }
        let token: Vec<u8> = slice_to_vec(slice_subrange(input.as_slice(), p, end));
        let tlen: usize = end - p;
        let ghost out0 = out@;
        let sj = scan_for(&token, 0, SENTINEL);
        if sj < token.len() {
            proof {
                assert(t[sj as int] == SENTINEL);
                assert(t.contains(SENTINEL));
                assert(input@[p + sj] == SENTINEL);
                assert(!no_sentinel(input@));
            }
            return Err(CompressError::SentinelInInput);
        }
        proof {
            assert(forall|k: int| 0 <= k < t.len() ==> t[k] != SENTINEL);
            assert(!t.contains(SENTINEL));
            assert forall|k: int| 0 <= k < end implies input@.take(end as int)[k] != SENTINEL by {
                if k >= p {
                    assert(input@[k] == t[k - p]);
                }
            }
        }
        if tlen < MIN_LITERAL_LEN {
            out.extend_from_slice(token.as_slice());
            proof {
                let us_rest = spec_units(tokenize(input@.skip(end as int)), end as nat, sd);
                if let Some(usr) = us_rest {
                    assert((seq![t] + usr)[0] == t);
                    assert((seq![t] + usr).drop_first() =~= usr);
                    assert(cat(seq![t] + usr) == t + cat(usr));
                    assert(out@ + cat(usr) =~= out0 + cat(seq![t] + usr));
                }
            }
        } else {
            match dict_get(&dict, &token) {
                Some(off) => {
                    out.push(SENTINEL);
                    encode_varint(off as u64, &mut out);
                    proof {
                        assert(sd.contains_key(t));
                        assert(sd[t] == off as nat);
                        assert((off as u64) as nat == off as nat);
                        let u = seq![SENTINEL] + vbytes(sd[t]);
                        assert(out@ =~= out0 + u);
                        let us_rest = spec_units(tokenize(input@.skip(end as int)), end as nat, sd);
                        if let Some(usr) = us_rest {
                            assert((seq![u] + usr)[0] == u);
                            assert((seq![u] + usr).drop_first() =~= usr);
                            assert(cat(seq![u] + usr) == u + cat(usr));
                            assert(out@ + cat(usr) =~= out0 + cat(seq![u] + usr));
                        }
                    }
                },
                None => {
                    out.extend_from_slice(token.as_slice());
                    proof {
                        assert(!sd.contains_key(t));
                        lemma_lift_insert(dict_entries(dict), t, p);
                    }
                    dict_insert(&mut dict, token, p);
                    proof {
                        let sd2 = sd.insert(t, p as nat);
                        assert(lift_dict(dict_entries(dict)) == sd2);
                        let us_rest = spec_units(
                            tokenize(input@.skip(end as int)),
                            end as nat,
                            sd2,
                        );
                        if let Some(usr) = us_rest {
                            assert((seq![t] + usr)[0] == t);
                            assert((seq![t] + usr).drop_first() =~= usr);
                            assert(cat(seq![t] + usr) == t + cat(usr));
                            assert(out@ + cat(usr) =~= out0 + cat(seq![t] + usr));
                        }
                    }
                },
            }
        }
        p = end;
    }
    proof {
        assert(input@.skip(p as int).len() == 0);
        assert(tokenize(input@.skip(p as int)) == Seq::<Seq<u8>>::empty());
        assert(out@ + cat(Seq::<Seq<u8>>::empty()) =~= out@);
        assert(input@.take(p as int) =~= input@);
    }
    Ok(out)
}

} // verus!
