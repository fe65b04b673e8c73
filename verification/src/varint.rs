//! Base-128 continuation-bit varint codec.
//!
//! Every byte of an encoding carries seven value bits; the high bit is set
//! on every byte except the last. A continuation byte may be 0xFF, which is
//! what makes the decoder's sentinel scanning ambiguous.

use vstd::prelude::*;

verus! {

/// The canonical encoding of `n`: little-endian groups of seven bits,
/// high bit set on every byte but the last.
pub open spec fn vbytes(n: nat) -> Seq<u8>
    decreases n,
{
    if n < 128 {
        seq![n as u8]
    } else {
        seq![((n % 128) + 128) as u8] + vbytes(n / 128)
    }
}

/// Parse a varint from the front of `s`: the decoded value and the number
/// of bytes consumed, or `None` if `s` ends before a terminating byte
/// (one with the high bit clear) is found.
pub open spec fn vparse(s: Seq<u8>) -> Option<(nat, nat)>
    decreases s.len(),
{
    if s.len() == 0 {
        None
    } else if s[0] < 128 {
        Some((s[0] as nat, 1nat))
    } else {
        match vparse(s.drop_first()) {
            None => None,
            Some((v, k)) => Some((((s[0] - 128) + 128 * v) as nat, (k + 1) as nat)),
        }
    }
}

/// Parsing restricted to values that fit in a `u64`, which is what the wire
/// format carries; an in-bounds parse of a too-large value is a failure.
pub open spec fn vparse64(s: Seq<u8>) -> Option<(u64, nat)> {
    match vparse(s) {
        None => None,
        Some((v, k)) => if v < 0x1_0000_0000_0000_0000 {
            Some((v as u64, k))
        } else {
            None
        },
    }
}

/// An encoding is never empty and its final byte has the high bit clear.
pub proof fn lemma_vbytes_shape(n: nat)
    ensures
        vbytes(n).len() >= 1,
        vbytes(n)[vbytes(n).len() - 1] < 128,
        forall|i: int| 0 <= i < vbytes(n).len() - 1 ==> vbytes(n)[i] >= 128,
    decreases n,
{
    if n >= 128 {
        lemma_vbytes_shape(n / 128);
        assert forall|i: int| 0 <= i < vbytes(n).len() - 1 implies vbytes(n)[i] >= 128 by {
            if i > 0 {
                assert(vbytes(n)[i] == vbytes(n / 128)[i - 1]);
            }
        }
    }
}

/// A varint is self-delimiting: whatever follows it, parsing recovers
/// exactly the value and the encoding's length.
pub proof fn lemma_vparse_vbytes(n: nat, rest: Seq<u8>)
    ensures
        vparse(vbytes(n) + rest) == Some((n, vbytes(n).len())),
    decreases n,
{
    let s = vbytes(n) + rest;
    if n < 128 {
        assert(s[0] == n as u8);
    } else {
        assert(s[0] == ((n % 128) + 128) as u8);
        assert(s.drop_first() =~= vbytes(n / 128) + rest);
        lemma_vparse_vbytes(n / 128, rest);
        assert(n % 128 + 128 * (n / 128) == n) by (nonlinear_arith);
    }
}

/// If every byte of `s` has the high bit set, no parse can terminate.
pub proof fn lemma_vparse_all_continuation(s: Seq<u8>)
    requires
        forall|i: int| 0 <= i < s.len() ==> s[i] >= 128,
    ensures
        vparse(s) is None,
    decreases s.len(),
{
    if s.len() > 0 {
        lemma_vparse_all_continuation(s.drop_first());
    }
}

/// A strict prefix of an encoding never parses: it is all continuation bytes.
pub proof fn lemma_vparse_prefix_fails(n: nat, p: int)
    requires
        0 <= p < vbytes(n).len(),
    ensures
        vparse(vbytes(n).take(p)) is None,
{
    lemma_vbytes_shape(n);
    lemma_vparse_all_continuation(vbytes(n).take(p));
}

/// A successful parse consumes at least one byte and no more than there are.
pub proof fn lemma_vparse_len(s: Seq<u8>)
    ensures
        vparse(s) matches Some(vk) ==> 1 <= vk.1 <= s.len(),
    decreases s.len(),
{
    if s.len() > 0 && s[0] >= 128 {
        lemma_vparse_len(s.drop_first());
    }
}

/// Powers of 128, the per-byte weight of a varint digit.
pub open spec fn pow128(i: nat) -> nat
    decreases i,
{
    if i == 0 {
        1nat
    } else {
        128 * pow128((i - 1) as nat)
    }
}

proof fn lemma_pow128_pos(i: nat)
    ensures
        pow128(i) >= 1,
    decreases i,
{
    if i > 0 {
        lemma_pow128_pos((i - 1) as nat);
    }
}

/// One definitional step of `vparse` at a continuation byte, phrased over
/// suffixes of a fixed sequence.
proof fn lemma_vparse_step(s: Seq<u8>, i: int)
    requires
        0 <= i < s.len(),
        s[i] >= 128,
    ensures
        vparse(s.skip(i)) == (match vparse(s.skip(i + 1)) {
            None => None::<(nat, nat)>,
            Some((v, k)) => Some((((s[i] - 128) + 128 * v) as nat, (k + 1) as nat)),
        }),
{
    let t = s.skip(i);
    assert(t.len() > 0);
    assert(t[0] == s[i]);
    assert(t.drop_first() =~= s.skip(i + 1));
}

/// Encode `n` as a varint, appending the bytes to `out`.
pub fn encode_varint(n: u64, out: &mut Vec<u8>)
    ensures
        final(out)@ == old(out)@ + vbytes(n as nat),
{
    let mut m: u64 = n;
    loop
        invariant
            old(out)@ + vbytes(n as nat) == out@ + vbytes(m as nat),
        decreases m,
    {
        if m < 128 {
            out.push(m as u8);
            assert(out@ =~= old(out)@ + vbytes(n as nat));
            return ;
        }
        let ghost before = out@;
        out.push((m % 128 + 128) as u8);
        proof {
            assert(vbytes(m as nat) == seq![((m as nat % 128) + 128) as u8] + vbytes(
                (m / 128) as nat,
            ));
            assert(out@ + vbytes((m / 128) as nat) =~= before + vbytes(m as nat));
        }
        m = m / 128;
    }
}

/// Decode a varint from the front of `s`. Returns the value and the number
/// of bytes consumed, `None` on a truncated encoding or on a value that
/// does not fit in a `u64`.
pub fn decode_varint(s: &Vec<u8>) -> (r: Option<(u64, usize)>)
    ensures
        r matches Some(vk) ==> vparse64(s@) == Some((vk.0, vk.1 as nat)),
        r is None ==> vparse64(s@) is None,
{
    let mut i: usize = 0;
    let mut acc: u64 = 0;
    let mut pow_ok: bool = true;
    let mut mult: u64 = 1;
    proof {
        assert(s@.skip(0) =~= s@);
        assert(pow128(0) == 1);
    }
    loop
        invariant
            i <= s@.len(),
            pow_ok ==> mult == pow128(i as nat),
            !pow_ok ==> pow128(i as nat) >= 0x1_0000_0000_0000_0000,
            vparse(s@.skip(i as int)) matches Some(vk) ==> {
                &&& vparse(s@) is Some
                &&& vparse(s@).unwrap().0 == acc + vk.0 * pow128(i as nat)
                &&& vparse(s@).unwrap().1 == i + vk.1
            },
            vparse(s@.skip(i as int)) is None ==> vparse(s@) is None,
        decreases s@.len() - i,
    {
        if i >= s.len() {
            proof {
                assert(s@.skip(i as int) =~= Seq::<u8>::empty());
            }
            return None;
        }
        let b: u8 = s[i];
        let low: u8 = if b >= 128 {
            b - 128
        } else {
            b
        };
        let ghost t = s@.skip(i as int);
        let ghost acc0 = acc;
        proof {
            assert(t.len() > 0);
            assert(t[0] == b);
            lemma_pow128_pos(i as nat);
            if b >= 128 {
                lemma_vparse_step(s@, i as int);
            } else {
                assert(vparse(t) == Some((b as nat, 1nat)));
            }
            // whatever the tail holds, a successful parse is at least `low`
            if vparse(t) is Some {
                let (v, k) = vparse(t).unwrap();
                if b >= 128 {
                    assert(v == (low as nat) + 128 * vparse(s@.skip(i as int + 1)).unwrap().0);
                }
                assert(v >= low);
            }
        }
        if low > 0 {
            if !pow_ok {
                proof {
                    if vparse(t) is Some {
                        let (v, k) = vparse(t).unwrap();
                        assert(v * pow128(i as nat) >= pow128(i as nat)) by (nonlinear_arith)
                            requires
                                v >= 1,
                                pow128(i as nat) >= 1,
                        ;
                        assert(vparse(s@).unwrap().0 >= 0x1_0000_0000_0000_0000);
                    }
                    assert(vparse64(s@) is None);
                }
                return None;
            }
            let low64: u64 = low as u64;
            if mult > u64::MAX / low64 {
                proof {
                    assert((low64 as nat) * (mult as nat) > u64::MAX) by (nonlinear_arith)
                        requires
                            mult > u64::MAX / low64,
                            1 <= low64 <= 127,
                    ;
                    if vparse(t) is Some {
                        let (v, k) = vparse(t).unwrap();
                        assert(v * pow128(i as nat) >= (low as nat) * (mult as nat))
                            by (nonlinear_arith)
                            requires
                                v >= low as nat,
                                pow128(i as nat) == mult,
                        ;
                        assert(vparse(s@).unwrap().0 > u64::MAX);
                    }
                    assert(vparse64(s@) is None);
                }
                return None;
            }
            proof {
                assert((low64 as nat) * (mult as nat) <= u64::MAX) by (nonlinear_arith)
                    requires
                        mult <= u64::MAX / low64,
                        1 <= low64 <= 127,
                ;
            }
            let term: u64 = low64 * mult;
            if term > u64::MAX - acc {
                proof {
                    if vparse(t) is Some {
                        let (v, k) = vparse(t).unwrap();
                        assert(v * pow128(i as nat) >= (low as nat) * (mult as nat))
                            by (nonlinear_arith)
                            requires
                                v >= low as nat,
                                pow128(i as nat) == mult,
                        ;
                        assert(vparse(s@).unwrap().0 > u64::MAX);
                    }
                    assert(vparse64(s@) is None);
                }
                return None;
            }
            acc = acc + term;
            proof {
                assert(acc == acc0 + (low as nat) * pow128(i as nat));
            }
        } else {
            proof {
                assert((low as nat) * pow128(i as nat) == 0) by (nonlinear_arith)
                    requires
                        low == 0,
                ;
                assert(acc == acc0 + (low as nat) * pow128(i as nat));
            }
        }
        if b < 128 {
            proof {
                assert(vparse(t) == Some((b as nat, 1nat)));
                assert(vparse(s@).unwrap().0 == acc0 + (b as nat) * pow128(i as nat));
                assert(vparse(s@).unwrap().0 == acc);
                assert(vparse(s@).unwrap().1 == i + 1);
                assert(vparse64(s@) == Some((acc, (i + 1) as nat)));
            }
            return Some((acc, i + 1));
        }
        proof {
            let t2 = s@.skip(i as int + 1);
            if vparse(t2) is Some {
                let (v2, k2) = vparse(t2).unwrap();
                assert(vparse(t) == Some((((low as nat) + 128 * v2) as nat, (k2 + 1) as nat)));
                let v = (low as nat) + 128 * v2;
                assert(v * pow128(i as nat) == (low as nat) * pow128(i as nat) + v2 * (128
                    * pow128(i as nat))) by (nonlinear_arith)
                    requires
                        v == (low as nat) + 128 * v2,
                ;
                assert(pow128((i + 1) as nat) == 128 * pow128(i as nat));
                assert(vparse(s@).unwrap().0 == acc + v2 * pow128((i + 1) as nat));
                assert(vparse(s@).unwrap().1 == (i + 1) + k2);
            } else {
                assert(vparse(t) is None);
            }
        }
        if pow_ok {
            if mult > u64::MAX / 128 {
                pow_ok = false;
                proof {
                    assert(128 * (mult as nat) > u64::MAX) by (nonlinear_arith)
                        requires
                            mult > u64::MAX / 128,
                    ;
                    assert(pow128((i + 1) as nat) == 128 * pow128(i as nat));
                }
            } else {
                mult = mult * 128;
                proof {
                    assert(pow128((i + 1) as nat) == 128 * pow128(i as nat));
                }
            }
        } else {
            proof {
                assert(pow128((i + 1) as nat) == 128 * pow128(i as nat));
                assert(pow128((i + 1) as nat) >= pow128(i as nat)) by (nonlinear_arith)
                    requires
                        pow128(i as nat) >= 1,
                        pow128((i + 1) as nat) == 128 * pow128(i as nat),
                ;
            }
        }
        i = i + 1;
    }
}

} // verus!
