//! The decoder: a resynchronizing scanner over the encoded stream.
//!
//! The sentinel byte is structurally ambiguous: it introduces a reference,
//! but it can also occur as an ordinary continuation byte inside a varint.
//! The decoder therefore treats each scanned sentinel as a hypothesis: it
//! accumulates candidate bytes up to the next sentinel and accepts the unit
//! only once the candidate's prefix parses as a well-formed varint; a failed
//! parse puts the sentinel back and extends the same candidate instead.

use vstd::prelude::*;
use vstd::slice::{slice_subrange, slice_to_vec};
use crate::DELIMITER;
use crate::SENTINEL;
use crate::token::{find_from, lemma_find_from, scan_for};
use crate::varint::{lemma_vparse_len, vparse, vparse64};

verus! {

/// Decoding fails only on a stream that no encoder pass produced.
#[derive(Clone, Copy, Debug, PartialEq, Eq, Structural)]
pub enum DecompressError {
    /// The stream ended while a varint parse was still pending.
    TruncatedStream,
    /// A reference pointed past the end of the reconstruction buffer.
    OffsetOutOfRange,
}

/// The token a reference resolves to: the bytes of the reconstruction
/// buffer from `off` up to (not including) the next delimiter, with exactly
/// one delimiter appended. The appended delimiter is always right: an
/// encoder only ever references delimiter-terminated tokens, since the one
/// token that may lack its delimiter is the last of the stream, which no
/// later token can repeat byte for byte.
pub open spec fn spec_ref_token(buf: Seq<u8>, off: int) -> Seq<u8> {
    buf.subrange(off, find_from(buf, off, DELIMITER)) + seq![DELIMITER]
}

/// One pass of the resynchronizing decoder, from scan position `i`, with
/// reconstruction buffer `out` and pending candidate bytes `cand`.
///
/// Each step reads up to and including the next sentinel (or to the end of
/// the stream). While the buffer is empty the candidate can only be leading
/// literals. Afterwards the candidate must begin with a varint offset; a
/// failed parse means the consumed sentinel was payload, so it is pushed
/// back and scanning resumes. A stream that ends mid-candidate is truncated.
pub open spec fn spec_decode_loop(input: Seq<u8>, i: int, out: Seq<u8>, cand: Seq<u8>) -> Result<
    Seq<u8>,
    DecompressError,
>
    decreases input.len() - i,
    when i >= 0
    via spec_decode_loop_decreases
{
    if i >= input.len() {
        if cand.len() == 0 {
            Ok(out)
        } else {
            Err(DecompressError::TruncatedStream)
        }
    } else {
        let j = find_from(input, i, SENTINEL);
        let had = j < input.len();
        let cand2 = cand + input.subrange(i, j);
        let i2 = if had {
            j + 1
        } else {
            j
        };
        if out.len() == 0 {
            spec_decode_loop(input, i2, out + cand2, Seq::empty())
        } else {
            match vparse64(cand2) {
                None => if had {
                    spec_decode_loop(input, i2, out, cand2 + seq![SENTINEL])
                } else {
                    Err(DecompressError::TruncatedStream)
                },
                Some((v, k)) => if v > out.len() {
                    Err(DecompressError::OffsetOutOfRange)
                } else {
                    spec_decode_loop(
                        input,
                        i2,
                        out + spec_ref_token(out, v as int) + cand2.skip(k as int),
                        Seq::empty(),
                    )
                },
            }
        }
    }
}

#[via_fn]
proof fn spec_decode_loop_decreases(input: Seq<u8>, i: int, out: Seq<u8>, cand: Seq<u8>) {
    if 0 <= i < input.len() {
        lemma_find_from(input, i, SENTINEL);
    }
}

/// The decoding of a whole encoded stream.
pub open spec fn spec_decompress(s: Seq<u8>) -> Result<Seq<u8>, DecompressError> {
    spec_decode_loop(s, 0, Seq::empty(), Seq::empty())
}

/// Decompress `input`, inverting the encoder pass that produced it: leading
/// literals are copied through, and each accepted reference unit appends the
/// referenced token followed by the unit's trailing literals, the growing
/// output doubling as the buffer that offsets index into.
///
/// Memory cost: the whole decoded stream is retained until the end, since
/// any reference may point into it.
pub fn decompress(input: &Vec<u8>) -> (r: Result<Vec<u8>, DecompressError>)
    ensures
        r matches Ok(v) ==> spec_decompress(input@) == Ok::<Seq<u8>, DecompressError>(v@),
        r matches Err(e) ==> spec_decompress(input@) == Err::<Seq<u8>, DecompressError>(e),
{
    let mut out: Vec<u8> = Vec::new();
    let mut cand: Vec<u8> = Vec::new();
    let mut i: usize = 0;
    proof {
        assert(out@ =~= Seq::<u8>::empty());
        assert(cand@ =~= Seq::<u8>::empty());
    }
    loop
        invariant
            i <= input.len(),
            spec_decompress(input@) == spec_decode_loop(input@, i as int, out@, cand@),
        decreases input.len() - i,
    {
        if i >= input.len() {
            if cand.len() == 0 {
                return Ok(out);
            } else {
                return Err(DecompressError::TruncatedStream);
            }
        }
        let ghost out_at = out@;
        let ghost cand_at = cand@;
        let j = scan_for(input, i, SENTINEL);
        let had: bool = j < input.len();
        cand.extend_from_slice(slice_subrange(input.as_slice(), i, j));
        let ghost cand2 = cand@;
        proof {
            assert(cand2 == cand_at + input@.subrange(i as int, j as int));
        }
        let i2: usize = if had {
            j + 1
        } else {
            j
        };
        i = i2;
        if out.len() == 0 {
            out.append(&mut cand);
            proof {
                assert(out@ == out_at + cand2);
                assert(cand@ =~= Seq::<u8>::empty());
            }
        } else {
            match crate::varint::decode_varint(&cand) {
                None => {
                    if had {
                        cand.push(SENTINEL);
                        proof {
                            assert(cand@ == cand2 + seq![SENTINEL]);
                        }
                    } else {
                        return Err(DecompressError::TruncatedStream);
                    }
                },
                Some((v, k)) => {
                    proof {
                        lemma_vparse_len(cand2);
                    }
                    if v > out.len() as u64 {
                        return Err(DecompressError::OffsetOutOfRange);
                    }
                    let off: usize = v as usize;
                    let m = scan_for(&out, off, DELIMITER);
                    let mut target: Vec<u8> = slice_to_vec(slice_subrange(out.as_slice(), off, m));
                    target.push(DELIMITER);
                    proof {
                        assert(target@ == spec_ref_token(out@, v as int));
                    }
                    out.extend_from_slice(target.as_slice());
                    let rem: &[u8] = slice_subrange(cand.as_slice(), k, cand.len());
                    out.extend_from_slice(rem);
                    cand.clear();
                    proof {
                        assert(out@ == out_at + spec_ref_token(out_at, v as int) + cand2.skip(
                            k as int,
                        ));
                        assert(cand@ =~= Seq::<u8>::empty());
                    }
                },
            }
        }
    }
}

} // verus!
