//! Base64 text framing of bag bytes: `to_text` produces the standard base64
//! form (with `=` padding) of a byte buffer, `from_text` is its inverse and
//! rejects every string that `to_text` cannot produce.

use vstd::prelude::*;
use crate::cells::lemma_mul_div;
use crate::errors::CodecError;

verus! {

/// The base64 digit (as an ASCII byte) of a sextet value `v` in `0..64`.
pub open spec fn enc6(v: int) -> u8 {
    if v < 26 {
        (65 + v) as u8
    } else if v < 52 {
        (97 + (v - 26)) as u8
    } else if v < 62 {
        (48 + (v - 52)) as u8
    } else if v == 62 {
        43u8
    } else {
        47u8
    }
}

/// The sextet value of an ASCII byte, or a negative value if the byte is no
/// base64 digit.
pub open spec fn dec6(c: u8) -> int {
    if 65 <= c <= 90 {
        c - 65
    } else if 97 <= c <= 122 {
        c - 97 + 26
    } else if 48 <= c <= 57 {
        c - 48 + 52
    } else if c == 43 {
        62
    } else if c == 47 {
        63
    } else {
        -1
    }
}

/// Decoding a base64 digit recovers the sextet, and a digit is never the
/// padding byte `=`.
pub proof fn lemma_enc6_dec6(v: int)
    requires
        0 <= v < 64,
    ensures
        dec6(enc6(v)) == v,
        enc6(v) != 61u8,
{
}

/// The base64 text of a byte buffer, three bytes to four digits, the last
/// group padded with `=`.
pub open spec fn b64_encode(b: Seq<u8>) -> Seq<u8>
    decreases b.len(),
{
    if b.len() == 0 {
        Seq::empty()
    } else if b.len() == 1 {
        seq![enc6(b[0] as int / 4), enc6((b[0] as int % 4) * 16), 61u8, 61u8]
    } else if b.len() == 2 {
        seq![
            enc6(b[0] as int / 4),
            enc6((b[0] as int % 4) * 16 + b[1] as int / 16),
            enc6((b[1] as int % 16) * 4),
            61u8,
        ]
    } else {
        seq![
            enc6(b[0] as int / 4),
            enc6((b[0] as int % 4) * 16 + b[1] as int / 16),
            enc6((b[1] as int % 16) * 4 + b[2] as int / 64),
            enc6(b[2] as int % 64),
        ] + b64_encode(b.skip(3))
    }
}

/// The byte buffer a base64 text stands for, or `None` if the text is not a
/// base64 encoding: a length that is no multiple of four, a byte that is no
/// digit, padding anywhere but at the very end, or nonzero spare bits in the
/// digit before the padding.
pub open spec fn b64_decode(s: Seq<u8>) -> Option<Seq<u8>>
    decreases s.len(),
{
    if s.len() == 0 {
        Some(Seq::empty())
    } else if s.len() < 4 {
        None
    } else {
        let d0 = dec6(s[0]);
        let d1 = dec6(s[1]);
        if d0 < 0 || d1 < 0 {
            None
        } else if s.len() == 4 && s[3] == 61u8 {
            if s[2] == 61u8 {
                if d1 % 16 == 0 {
                    Some(seq![(d0 * 4 + d1 / 16) as u8])
                } else {
                    None
                }
            } else {
                let d2 = dec6(s[2]);
                if d2 >= 0 && d2 % 4 == 0 {
                    Some(seq![(d0 * 4 + d1 / 16) as u8, ((d1 % 16) * 16 + d2 / 4) as u8])
                } else {
                    None
                }
            }
        } else {
            let d2 = dec6(s[2]);
            let d3 = dec6(s[3]);
            if d2 < 0 || d3 < 0 {
                None
            } else {
                match b64_decode(s.skip(4)) {
                    Some(rest) => Some(
                        seq![
                            (d0 * 4 + d1 / 16) as u8,
                            ((d1 % 16) * 16 + d2 / 4) as u8,
                            ((d2 % 4) * 64 + d3) as u8,
                        ] + rest,
                    ),
                    None => None,
                }
            }
        }
    }
}

/// Decoding one full three-byte group recovers the bytes.
proof fn lemma_chunk_round_trip(b0: u8, b1: u8, b2: u8)
    ensures
        ({
            let e0 = b0 / 4;
            let e1 = (b0 % 4) * 16 + b1 / 16;
            let e2 = (b1 % 16) * 4 + b2 / 64;
            let e3 = b2 as int % 64;
            &&& 0 <= e0 < 64 && 0 <= e1 < 64 && 0 <= e2 < 64 && 0 <= e3 < 64
            &&& (e0 * 4 + e1 / 16) as u8 == b0
            &&& ((e1 % 16) * 16 + e2 / 4) as u8 == b1
            &&& ((e2 % 4) * 64 + e3) as u8 == b2
        }),
{
    let e1 = (b0 as int % 4) * 16 + b1 as int / 16;
    let e2 = (b1 as int % 16) * 4 + b2 as int / 64;
    lemma_mul_div(b0 as int % 4, b1 as int / 16, 16);
    lemma_mul_div(b1 as int % 16, b2 as int / 64, 4);
    assert(b0 as int / 4 * 4 + b0 as int % 4 == b0 as int) by (nonlinear_arith);
    assert(b1 as int / 16 * 16 + b1 as int % 16 == b1 as int) by (nonlinear_arith);
    assert(b2 as int / 64 * 64 + b2 as int % 64 == b2 as int) by (nonlinear_arith);
}

/// Text framing is the identity on byte buffers: decoding the text produced
/// for any buffer gives back exactly that buffer.
pub proof fn lemma_text_round_trip(b: Seq<u8>)
    ensures
        b64_decode(b64_encode(b)) == Some(b),
    decreases b.len(),
{
    if b.len() == 0 {
        assert(b64_decode(b64_encode(b)) =~= Some(b));
    } else if b.len() == 1 {
        let e0 = b[0] / 4;
        let e1 = (b[0] % 4) * 16;
        lemma_enc6_dec6(e0 as int);
        lemma_enc6_dec6(e1 as int);
        lemma_mul_div(b[0] as int % 4, 0, 16);
        assert(b[0] as int / 4 * 4 + b[0] as int % 4 == b[0] as int) by (nonlinear_arith);
        assert(b64_decode(b64_encode(b)).unwrap() =~= b);
    } else if b.len() == 2 {
        let e0 = b[0] / 4;
        let e1 = (b[0] % 4) * 16 + b[1] / 16;
        let e2 = (b[1] % 16) * 4;
        lemma_enc6_dec6(e0 as int);
        lemma_enc6_dec6(e1 as int);
        lemma_enc6_dec6(e2 as int);
        lemma_mul_div(b[0] as int % 4, b[1] as int / 16, 16);
        lemma_mul_div(b[1] as int % 16, 0, 4);
        assert(b[0] as int / 4 * 4 + b[0] as int % 4 == b[0] as int) by (nonlinear_arith);
        assert(b[1] as int / 16 * 16 + b[1] as int % 16 == b[1] as int) by (nonlinear_arith);
        assert(b64_decode(b64_encode(b)).unwrap() =~= b);
    } else {
        let e0 = b[0] / 4;
        let e1 = (b[0] % 4) * 16 + b[1] / 16;
        let e2 = (b[1] % 16) * 4 + b[2] / 64;
        let e3 = b[2] as int % 64;
        lemma_chunk_round_trip(b[0], b[1], b[2]);
        lemma_enc6_dec6(e0 as int);
        lemma_enc6_dec6(e1 as int);
        lemma_enc6_dec6(e2 as int);
        lemma_enc6_dec6(e3);
        lemma_text_round_trip(b.skip(3));
        let s = b64_encode(b);
        assert(s.len() == 4 + b64_encode(b.skip(3)).len());
        assert(b64_encode(b.skip(3)).len() >= 4 || b64_encode(b.skip(3)).len() == 0);
        assert(s.skip(4) =~= b64_encode(b.skip(3)));
        if s.len() == 4 {
            assert(b.skip(3).len() == 0) by {
                if b.skip(3).len() > 0 {
                    assert(b64_encode(b.skip(3)).len() >= 4);
                }
            }
            assert(s[3] != 61u8);
            assert(b64_decode(s).unwrap() =~= b);
        } else {
            assert(b64_decode(s).unwrap() =~= b);
        }
    }
}

/// Exec form of `enc6`.
fn enc6_x(v: u8) -> (r: u8)
    requires
        v < 64,
    ensures
        r == enc6(v as int),
{
    if v < 26 {
        65 + v
    } else if v < 52 {
        97 + (v - 26)
    } else if v < 62 {
        48 + (v - 52)
    } else if v == 62 {
        43
    } else {
        47
    }
}

/// Exec form of `dec6`: the sextet of a digit, `None` for any other byte.
fn dec6_x(c: u8) -> (r: Option<u8>)
    ensures
        match r {
            Some(d) => dec6(c) == d as int && d < 64,
            None => dec6(c) < 0,
        },
{
    if 65 <= c && c <= 90 {
        Some(c - 65)
    } else if 97 <= c && c <= 122 {
        Some(c - 97 + 26)
    } else if 48 <= c && c <= 57 {
        Some(c - 48 + 52)
    } else if c == 43 {
        Some(62)
    } else if c == 47 {
        Some(63)
    } else {
        None
    }
}

/// Base64 text of a byte buffer.
#[verifier::loop_isolation(false)]
pub fn to_text(b: &Vec<u8>) -> (r: Vec<u8>)
    ensures
        r@ == b64_encode(b@),
{
    let mut out: Vec<u8> = Vec::new();
    let mut i: usize = 0;
    proof {
        assert(b@.skip(0) =~= b@);
        assert(Seq::<u8>::empty() + b64_encode(b@) =~= b64_encode(b@));
    }
    while b.len() - i >= 3
        invariant
            i <= b@.len(),
            b64_encode(b@) == out@ + b64_encode(b@.skip(i as int)),
        decreases b@.len() - i,
    {
        let b0 = b[i];
        let b1 = b[i + 1];
        let b2 = b[i + 2];
        let ghost pre = out@;
        out.push(enc6_x(b0 / 4));
        out.push(enc6_x((b0 % 4) * 16 + b1 / 16));
        out.push(enc6_x((b1 % 16) * 4 + b2 / 64));
        out.push(enc6_x(b2 % 64));
        proof {
            let t = b@.skip(i as int);
            assert(t[0] == b0 && t[1] == b1 && t[2] == b2);
            assert(t.skip(3) =~= b@.skip(i as int + 3));
            assert(out@ =~= pre + seq![
                enc6(b0 as int / 4),
                enc6((b0 as int % 4) * 16 + b1 as int / 16),
                enc6((b1 as int % 16) * 4 + b2 as int / 64),
                enc6(b2 as int % 64),
            ]);
            assert(b64_encode(b@) =~= out@ + b64_encode(b@.skip(i as int + 3)));
        }
        i += 3;
    }
    let rem = b.len() - i;
    if rem == 1 {
        let b0 = b[i];
        let ghost pre = out@;
        out.push(enc6_x(b0 / 4));
        out.push(enc6_x((b0 % 4) * 16));
        out.push(61);
        out.push(61);
        proof {
            let t = b@.skip(i as int);
            assert(t[0] == b0);
            assert(out@ =~= pre + seq![enc6(b0 as int / 4), enc6((b0 as int % 4) * 16), 61u8, 61u8]);
            assert(b64_encode(b@) =~= out@);
        }
    } else if rem == 2 {
        let b0 = b[i];
        let b1 = b[i + 1];
        let ghost pre = out@;
        out.push(enc6_x(b0 / 4));
        out.push(enc6_x((b0 % 4) * 16 + b1 / 16));
        out.push(enc6_x((b1 % 16) * 4));
        out.push(61);
        proof {
            let t = b@.skip(i as int);
            assert(t[0] == b0 && t[1] == b1);
            assert(out@ =~= pre + seq![
                enc6(b0 as int / 4),
                enc6((b0 as int % 4) * 16 + b1 as int / 16),
                enc6((b1 as int % 16) * 4),
                61u8,
            ]);
            assert(b64_encode(b@) =~= out@);
        }
    } else {
        proof {
            assert(b@.skip(i as int) =~= Seq::<u8>::empty());
            assert(b64_encode(b@) =~= out@);
        }
    }
    out
}

/// Byte buffer of a base64 text. Fails with `InvalidEncoding` on exactly the
/// strings that `b64_decode` rejects.
#[verifier::loop_isolation(false)]
pub fn from_text(s: &Vec<u8>) -> (r: Result<Vec<u8>, CodecError>)
    ensures
        match r {
            Ok(b) => b64_decode(s@) == Some(b@),
            Err(e) => e == CodecError::InvalidEncoding && b64_decode(s@) is None,
        },
{
    let mut out: Vec<u8> = Vec::new();
    let mut i: usize = 0;
    proof {
        assert(s@.skip(0) =~= s@);
        if b64_decode(s@) is Some {
            assert(Seq::<u8>::empty() + b64_decode(s@).unwrap() =~= b64_decode(s@).unwrap());
        }
    }
    while i < s.len()
        invariant
            i <= s@.len(),
            b64_decode(s@) == (match b64_decode(s@.skip(i as int)) {
                Some(rest) => Some(out@ + rest),
                None => None::<Seq<u8>>,
            }),
        decreases s@.len() - i,
    {
        let ghost t = s@.skip(i as int);
        if s.len() - i < 4 {
            return Err(CodecError::InvalidEncoding);
        }
        let c0 = s[i];
        let c1 = s[i + 1];
        let c2 = s[i + 2];
        let c3 = s[i + 3];
        proof {
            assert(t[0] == c0 && t[1] == c1 && t[2] == c2 && t[3] == c3);
        }
        let d0 = match dec6_x(c0) {
            Some(d) => d,
            None => { return Err(CodecError::InvalidEncoding); },
        };
        let d1 = match dec6_x(c1) {
            Some(d) => d,
            None => { return Err(CodecError::InvalidEncoding); },
        };
        if s.len() - i == 4 && c3 == 61 {
            if c2 == 61 {
                if d1 % 16 != 0 {
                    return Err(CodecError::InvalidEncoding);
                }
                out.push(d0 * 4 + d1 / 16);
                proof {
                    assert(b64_decode(t) == Some(seq![(dec6(c0) * 4 + dec6(c1) / 16) as u8]));
                    assert(b64_decode(s@).unwrap() =~= out@);
                }
                return Ok(out);
            } else {
                let d2 = match dec6_x(c2) {
                    Some(d) => d,
                    None => { return Err(CodecError::InvalidEncoding); },
                };
                if d2 % 4 != 0 {
                    return Err(CodecError::InvalidEncoding);
                }
                out.push(d0 * 4 + d1 / 16);
                out.push((d1 % 16) * 16 + d2 / 4);
                proof {
                    assert(b64_decode(s@).unwrap() =~= out@);
                }
                return Ok(out);
            }
        }
        let d2 = match dec6_x(c2) {
            Some(d) => d,
            None => { return Err(CodecError::InvalidEncoding); },
        };
        let d3 = match dec6_x(c3) {
            Some(d) => d,
            None => { return Err(CodecError::InvalidEncoding); },
        };
        let ghost pre = out@;
        out.push(d0 * 4 + d1 / 16);
        out.push((d1 % 16) * 16 + d2 / 4);
        out.push((d2 % 4) * 64 + d3);
        proof {
            assert(!(t.len() == 4 && t[3] == 61u8));
            assert(t.skip(4) =~= s@.skip(i as int + 4));
            assert(out@ =~= pre + seq![
                (dec6(c0) * 4 + dec6(c1) / 16) as u8,
                ((dec6(c1) % 16) * 16 + dec6(c2) / 4) as u8,
                ((dec6(c2) % 4) * 64 + dec6(c3)) as u8,
            ]);
            if b64_decode(s@.skip(i as int + 4)) is Some {
                let rest = b64_decode(s@.skip(i as int + 4)).unwrap();
                assert(pre + b64_decode(t).unwrap() =~= out@ + rest);
            }
        }
        i += 4;
    }
    proof {
        assert(s@.skip(i as int) =~= Seq::<u8>::empty());
        assert(b64_decode(s@).unwrap() =~= out@);
    }
    Ok(out)
}

} // verus!
