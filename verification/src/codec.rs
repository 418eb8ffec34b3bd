//! Field-level wire primitives: little-endian 32-bit integers, compact
//! (mode-tagged, variable-width) length prefixes, length-prefixed byte
//! strings and sequences of 32-bit values.
//!
//! Every decoder is exact: it returns `Some` precisely on buffers that carry
//! the canonical encoding of some value at the given position, and then
//! returns that value and the position just past it.

use vstd::prelude::*;

verus! {

/// Little-endian byte image of a 32-bit unsigned integer.
pub open spec fn u32_le_bytes(n: u32) -> Seq<u8> {
    seq![
        (n % 0x100) as u8,
        ((n / 0x100) % 0x100) as u8,
        ((n / 0x10000) % 0x100) as u8,
        ((n / 0x1000000) % 0x100) as u8,
    ]
}

/// The integer whose little-endian image is the four given bytes.
pub open spec fn u32_from_le(b0: u8, b1: u8, b2: u8, b3: u8) -> u32 {
    (b0 as int + b1 as int * 0x100 + b2 as int * 0x10000 + b3 as int * 0x1000000) as u32
}

/// Reading the four bytes of `u32_le_bytes(n)` back gives `n`.
pub proof fn lemma_u32_le_roundtrip(n: u32)
    ensures
        u32_from_le(
            u32_le_bytes(n)[0],
            u32_le_bytes(n)[1],
            u32_le_bytes(n)[2],
            u32_le_bytes(n)[3],
        ) == n,
{
    assert(n % 0x100 < 0x100 && (n / 0x100) % 0x100 < 0x100
        && (n / 0x10000) % 0x100 < 0x100 && (n / 0x1000000) % 0x100 < 0x100) by (bit_vector);
    assert(n % 0x100 + ((n / 0x100) % 0x100) * 0x100 + ((n / 0x10000) % 0x100) * 0x10000
        + ((n / 0x1000000) % 0x100) * 0x1000000 == n) by (bit_vector);
}

/// The little-endian image of the integer read from four bytes is those bytes.
pub proof fn lemma_u32_le_reassemble(b0: u8, b1: u8, b2: u8, b3: u8)
    ensures
        u32_le_bytes(u32_from_le(b0, b1, b2, b3)) == seq![b0, b1, b2, b3],
{
    let n = u32_from_le(b0, b1, b2, b3);
    assert(n == b0 as u32 + b1 as u32 * 0x100 + b2 as u32 * 0x10000 + b3 as u32 * 0x1000000);
    assert(n % 0x100 == b0 as u32 && (n / 0x100) % 0x100 == b1 as u32
        && (n / 0x10000) % 0x100 == b2 as u32 && (n / 0x1000000) % 0x100 == b3 as u32) by (bit_vector)
        requires n == b0 as u32 + b1 as u32 * 0x100 + b2 as u32 * 0x10000 + b3 as u32 * 0x1000000;
    assert(u32_le_bytes(n) =~= seq![b0, b1, b2, b3]);
}

/// Two integers with the same little-endian image are equal.
pub proof fn lemma_u32_le_injective(a: u32, b: u32)
    requires
        u32_le_bytes(a) == u32_le_bytes(b),
    ensures
        a == b,
{
    lemma_u32_le_roundtrip(a);
    lemma_u32_le_roundtrip(b);
}

/// Appends the little-endian image of `n` to `out`.
pub fn encode_u32_to(n: u32, out: &mut Vec<u8>)
    ensures
        final(out)@ == old(out)@ + u32_le_bytes(n),
{
    out.push((n % 0x100) as u8);
    out.push(((n / 0x100) % 0x100) as u8);
    out.push(((n / 0x10000) % 0x100) as u8);
    out.push(((n / 0x1000000) % 0x100) as u8);
    assert(out@ =~= old(out)@ + u32_le_bytes(n));
}

/// Reads a little-endian 32-bit integer at `pos`; fails exactly when fewer
/// than four bytes remain.
pub fn decode_u32_at(buf: &Vec<u8>, pos: usize) -> (r: Option<(u32, usize)>)
    requires
        pos <= buf@.len(),
    ensures
        match r {
            Some((v, p)) => {
                &&& p == pos + 4
                &&& p <= buf@.len()
                &&& buf@.subrange(pos as int, p as int) == u32_le_bytes(v)
            },
            None => buf@.len() < pos + 4,
        },
{
    if buf.len() - pos < 4 {
        return None;
    }
    let b0 = buf[pos];
    let b1 = buf[pos + 1];
    let b2 = buf[pos + 2];
    let b3 = buf[pos + 3];
    let v = b0 as u32 + b1 as u32 * 0x100 + b2 as u32 * 0x10000 + b3 as u32 * 0x1000000;
    proof {
        assert(v == u32_from_le(b0, b1, b2, b3));
        lemma_u32_le_reassemble(b0, b1, b2, b3);
        assert(buf@.subrange(pos as int, pos + 4) =~= seq![b0, b1, b2, b3]);
    }
    Some((v, pos + 4))
}


/// Compact, mode-tagged prefix encoding of a 32-bit count. The two low bits
/// of the first byte select the width: 0 gives one byte, 1 two bytes, 2 four
/// bytes, 3 a marker byte followed by the four little-endian value bytes.
/// Each value has exactly one (minimal-width) encoding.
pub open spec fn compact_enc(n: u32) -> Seq<u8> {
    if n < 64 {
        seq![(n * 4) as u8]
    } else if n < 0x4000 {
        seq![((n * 4 + 1) % 0x100) as u8, ((n * 4 + 1) / 0x100) as u8]
    } else if n < 0x40000000 {
        u32_le_bytes((n * 4 + 2) as u32)
    } else {
        seq![3u8] + u32_le_bytes(n)
    }
}

/// The first byte of a compact encoding gives away the value's range and the
/// encoding's width.
pub proof fn lemma_compact_first_byte(v: u32)
    ensures
        1 <= compact_enc(v).len() <= 5,
        ({
            let b = compact_enc(v)[0];
            &&& (v < 64 <==> b % 4 == 0)
            &&& (64 <= v < 0x4000 <==> b % 4 == 1)
            &&& (0x4000 <= v < 0x40000000 <==> b % 4 == 2)
            &&& (0x40000000 <= v <==> b % 4 == 3)
            &&& (b % 4 == 3 ==> b == 3)
            &&& compact_enc(v).len() == (
                if b % 4 == 0 { 1int } else if b % 4 == 1 { 2int } else if b % 4 == 2 { 4int } else { 5int })
        }),
{
    if v < 64 {
        assert(v * 4 < 0x100 && (v * 4) % 4 == 0) by (bit_vector) requires v < 64;
    } else if v < 0x4000 {
        assert((v * 4 + 1) % 0x100 % 4 == 1 && (v * 4 + 1) % 0x100 < 0x100) by (bit_vector)
            requires 64 <= v < 0x4000;
    } else if v < 0x40000000 {
        let m = (v * 4 + 2) as u32;
        assert(m == v * 4 + 2);
        assert(m % 0x100 % 4 == 2 && m % 0x100 < 0x100) by (bit_vector)
            requires m == v * 4 + 2 && v < 0x40000000;
        assert(compact_enc(v)[0] == (m % 0x100) as u8);
    } else {
        assert(compact_enc(v)[0] == 3u8);
    }
}

/// Compact encodings are one-to-one: equal byte images mean equal values.
pub proof fn lemma_compact_injective(a: u32, b: u32)
    requires
        compact_enc(a) == compact_enc(b),
    ensures
        a == b,
{
    lemma_compact_first_byte(a);
    lemma_compact_first_byte(b);
    if a < 64 {
        assert(compact_enc(b)[0] == compact_enc(a)[0]);
        assert((a * 4) as u8 == (b * 4) as u8);
    } else if a < 0x4000 {
        let ca = (a * 4 + 1) as u32;
        let cb = (b * 4 + 1) as u32;
        assert(compact_enc(a)[0] == compact_enc(b)[0] && compact_enc(a)[1] == compact_enc(b)[1]);
        assert(ca % 0x100 == cb % 0x100 && ca / 0x100 == cb / 0x100 ==> ca == cb) by (bit_vector);
    } else if a < 0x40000000 {
        lemma_u32_le_injective((a * 4 + 2) as u32, (b * 4 + 2) as u32);
    } else {
        assert(compact_enc(a).subrange(1, 5) =~= u32_le_bytes(a));
        assert(compact_enc(b).subrange(1, 5) =~= u32_le_bytes(b));
        lemma_u32_le_injective(a, b);
    }
}

/// Appends the compact encoding of `n` to `out`.
pub fn encode_compact_to(n: u32, out: &mut Vec<u8>)
    ensures
        final(out)@ == old(out)@ + compact_enc(n),
{
    if n < 64 {
        out.push((n * 4) as u8);
        assert(out@ =~= old(out)@ + compact_enc(n));
    } else if n < 0x4000 {
        let m = n * 4 + 1;
        assert(m / 0x100 < 0x100) by (bit_vector) requires m < 0x10000;
        out.push((m % 0x100) as u8);
        out.push((m / 0x100) as u8);
        assert(out@ =~= old(out)@ + compact_enc(n));
    } else if n < 0x40000000 {
        encode_u32_to(n * 4 + 2, out);
        assert(out@ =~= old(out)@ + compact_enc(n));
    } else {
        out.push(3u8);
        encode_u32_to(n, out);
        assert(out@ =~= old(out)@ + compact_enc(n));
    }
}

/// Reads a compact count at `pos`. Returns `Some` exactly when the bytes at
/// `pos` carry the (unique, minimal-width) compact encoding of some value.
pub fn decode_compact_at(buf: &Vec<u8>, pos: usize) -> (r: Option<(u32, usize)>)
    requires
        pos <= buf@.len(),
    ensures
        r matches Some((v, p)) ==> {
            &&& pos < p <= buf@.len()
            &&& p == pos + compact_enc(v).len()
            &&& buf@.subrange(pos as int, p as int) == compact_enc(v)
        },
        forall|v: u32| #![trigger compact_enc(v)]
            pos + compact_enc(v).len() <= buf@.len()
            && buf@.subrange(pos as int, pos + compact_enc(v).len()) == compact_enc(v)
            ==> r == Some((v, (pos + compact_enc(v).len()) as usize)),
{
    if buf.len() - pos < 1 {
        proof {
            assert forall|v: u32|
                pos + compact_enc(v).len() <= buf@.len()
                && buf@.subrange(pos as int, pos + compact_enc(v).len()) == compact_enc(v)
                implies false by {
                lemma_compact_first_byte(v);
            }
        }
        return None;
    }
    let b0 = buf[pos];
    let ghost matching = |v: u32|
        pos + compact_enc(v).len() <= buf@.len()
        && buf@.subrange(pos as int, pos + compact_enc(v).len()) == compact_enc(v);
    proof {
        assert forall|v: u32| #[trigger] compact_enc(v).len() >= 0 && matching(v)
            implies compact_enc(v)[0] == b0 by {
            lemma_compact_first_byte(v);
            assert(buf@.subrange(pos as int, pos + compact_enc(v).len())[0] == b0);
        }
    }
    let mode = b0 % 4;
    if mode == 0 {
        let v = (b0 / 4) as u32;
        proof {
            let c = b0 as u32;
            assert(v < 64 && v * 4 == c) by (nonlinear_arith)
                requires v == c / 4 && c % 4 == 0 && c < 0x100;
            assert((v * 4) as u8 == b0);
            assert(buf@.subrange(pos as int, pos + 1) =~= seq![b0]);
            assert(compact_enc(v) =~= seq![b0]);
            assert forall|w: u32| #![trigger compact_enc(w)] matching(w) implies w == v && compact_enc(w).len() == 1 by {
                lemma_compact_first_byte(w);
                assert(compact_enc(w)[0] == b0);
                assert(compact_enc(w) =~= buf@.subrange(pos as int, pos + 1));
                lemma_compact_injective(w, v);
            }
        }
        Some((v, pos + 1))
    } else if mode == 1 {
        proof {
            assert forall|w: u32| #![trigger compact_enc(w)] matching(w) implies 64 <= w < 0x4000 by {
                lemma_compact_first_byte(w);
                assert(compact_enc(w)[0] == b0);
            }
        }
        if buf.len() - pos < 2 {
            return None;
        }
        let b1 = buf[pos + 1];
        let m = b0 as u32 + b1 as u32 * 0x100;
        let v = m / 4;
        proof {
            let c0 = b0 as u32;
            let c1 = b1 as u32;
            assert(m % 4 == 1 && m == v * 4 + 1 && v < 0x4000
                && (v * 4 + 1) % 0x100 == c0 && (v * 4 + 1) / 0x100 == c1) by (nonlinear_arith)
                requires m == c0 + c1 * 0x100 && c0 % 4 == 1 && v == m / 4 && c0 < 0x100 && c1 < 0x100;
            if v >= 64 {
                assert(compact_enc(v) =~= seq![b0, b1]);
                assert(buf@.subrange(pos as int, pos + 2) =~= seq![b0, b1]);
                assert forall|w: u32| #![trigger compact_enc(w)] matching(w) implies w == v && compact_enc(w).len() == 2 by {
                    lemma_compact_first_byte(w);
                    assert(compact_enc(w)[0] == b0);
                    assert(compact_enc(w) =~= buf@.subrange(pos as int, pos + 2));
                    lemma_compact_injective(w, v);
                }
            } else {
                // a value this small has a one-byte encoding: nothing matches
                let c0 = b0 as u32;
                let c1 = b1 as u32;
                assert forall|w: u32| #![trigger compact_enc(w)] matching(w) implies false by {
                    lemma_compact_first_byte(w);
                    assert(compact_enc(w)[0] == b0);
                    assert(compact_enc(w) =~= buf@.subrange(pos as int, pos + 2));
                    assert(compact_enc(w)[1] == b1);
                    assert((w * 4 + 1) % 0x100 < 0x100 && (w * 4 + 1) / 0x100 < 0x100) by (nonlinear_arith)
                        requires 64 <= w < 0x4000;
                    assert((w * 4 + 1) % 0x100 == c0 && (w * 4 + 1) / 0x100 == c1);
                    assert(w == (c0 + c1 * 0x100) / 4) by (nonlinear_arith)
                        requires 64 <= w < 0x4000 && (w * 4 + 1) % 0x100 == c0 && (w * 4 + 1) / 0x100 == c1;
                }
            }
        }
        if v < 64 {
            return None;
        }
        Some((v, pos + 2))
    } else if mode == 2 {
        proof {
            assert forall|w: u32| #![trigger compact_enc(w)] matching(w) implies 0x4000 <= w < 0x40000000 by {
                lemma_compact_first_byte(w);
                assert(compact_enc(w)[0] == b0);
            }
        }
        let rm = decode_u32_at(buf, pos);
        match rm {
            None => {
                proof {
                    assert forall|w: u32| #![trigger compact_enc(w)] matching(w) implies false by {
                        lemma_compact_first_byte(w);
                    }
                }
                None
            },
            Some((m, p)) => {
                let v = m / 4;
                proof {
                    assert(u32_le_bytes(m)[0] == buf@.subrange(pos as int, pos + 4)[0]);
                    assert((m % 0x100) as u8 == b0);
                    assert(m % 0x100 % 4 == 2);
                    assert(m % 4 == 2 && m == v * 4 + 2 && v < 0x40000000) by (nonlinear_arith)
                        requires m % 0x100 % 4 == 2 && v == m / 4;
                    if v >= 0x4000 {
                        assert(compact_enc(v) == u32_le_bytes(m));
                        assert forall|w: u32| #![trigger compact_enc(w)] matching(w) implies w == v && compact_enc(w).len() == 4 by {
                            lemma_compact_first_byte(w);
                            assert(compact_enc(w)[0] == b0);
                            assert(compact_enc(w) =~= buf@.subrange(pos as int, pos + 4));
                            lemma_compact_injective(w, v);
                        }
                    } else {
                        assert forall|w: u32| #![trigger compact_enc(w)] matching(w) implies false by {
                            lemma_compact_first_byte(w);
                            assert(compact_enc(w)[0] == b0);
                            assert(compact_enc(w) =~= buf@.subrange(pos as int, pos + 4));
                            lemma_u32_le_injective((w * 4 + 2) as u32, m);
                        }
                    }
                }
                if v < 0x4000 {
                    return None;
                }
                Some((v, p))
            },
        }
    } else {
        proof {
            assert forall|w: u32| #![trigger compact_enc(w)] matching(w) implies 0x40000000 <= w && b0 == 3 by {
                lemma_compact_first_byte(w);
                assert(compact_enc(w)[0] == b0);
            }
        }
        if b0 != 3 {
            return None;
        }
        let rm = decode_u32_at(buf, pos + 1);
        match rm {
            None => {
                proof {
                    assert forall|w: u32| #![trigger compact_enc(w)] matching(w) implies false by {
                        lemma_compact_first_byte(w);
                    }
                }
                None
            },
            Some((m, p)) => {
                proof {
                    if m >= 0x40000000 {
                        assert(compact_enc(m) =~= seq![3u8] + u32_le_bytes(m));
                        assert(buf@.subrange(pos as int, pos + 5) =~=
                            seq![b0] + buf@.subrange(pos + 1, pos + 5));
                        assert(compact_enc(m) =~= buf@.subrange(pos as int, pos + 5));
                        assert forall|w: u32| #![trigger compact_enc(w)] matching(w) implies w == m && compact_enc(w).len() == 5 by {
                            lemma_compact_first_byte(w);
                            assert(compact_enc(w)[0] == b0);
                            assert(compact_enc(w) =~= buf@.subrange(pos as int, pos + 5));
                            lemma_compact_injective(w, m);
                        }
                    } else {
                        assert forall|w: u32| #![trigger compact_enc(w)] matching(w) implies false by {
                            lemma_compact_first_byte(w);
                            assert(compact_enc(w)[0] == b0);
                            assert(compact_enc(w) =~= buf@.subrange(pos as int, pos + 5));
                            assert(compact_enc(w).subrange(1, 5) =~= u32_le_bytes(w));
                            assert(buf@.subrange(pos as int, pos + 5).subrange(1, 5) =~=
                                buf@.subrange(pos + 1, pos + 5));
                            lemma_u32_le_injective(w, m);
                        }
                    }
                }
                if m < 0x40000000 {
                    return None;
                }
                Some((m, p))
            },
        }
    }
}


/// Length-prefixed byte string: compact byte count, then the raw bytes.
pub open spec fn bytes_enc(s: Seq<u8>) -> Seq<u8> {
    compact_enc(s.len() as u32) + s
}

/// Concatenation of the little-endian images of a sequence of 32-bit values.
pub open spec fn u32_seq_enc(s: Seq<u32>) -> Seq<u8>
    decreases s.len(),
{
    if s.len() == 0 {
        Seq::<u8>::empty()
    } else {
        u32_le_bytes(s[0]) + u32_seq_enc(s.subrange(1, s.len() as int))
    }
}

/// Length-prefixed sequence of 32-bit values: compact count, then the values.
pub open spec fn u32_vec_enc(s: Seq<u32>) -> Seq<u8> {
    compact_enc(s.len() as u32) + u32_seq_enc(s)
}

pub proof fn lemma_u32_seq_enc_len(s: Seq<u32>)
    ensures
        u32_seq_enc(s).len() == 4 * s.len(),
    decreases s.len(),
{
    if s.len() > 0 {
        lemma_u32_seq_enc_len(s.subrange(1, s.len() as int));
    }
}

pub proof fn lemma_u32_seq_enc_push(s: Seq<u32>, x: u32)
    ensures
        u32_seq_enc(s.push(x)) == u32_seq_enc(s) + u32_le_bytes(x),
    decreases s.len(),
{
    if s.len() == 0 {
        assert(s.push(x).subrange(1, 1) =~= Seq::<u32>::empty());
        assert(s.push(x)[0] == x);
        assert(u32_seq_enc(s.push(x)) == u32_le_bytes(x) + u32_seq_enc(Seq::<u32>::empty()));
        assert(u32_seq_enc(s.push(x)) =~= u32_seq_enc(s) + u32_le_bytes(x));
    } else {
        assert(s.push(x).subrange(1, s.len() as int + 1) =~= s.subrange(1, s.len() as int).push(x));
        lemma_u32_seq_enc_push(s.subrange(1, s.len() as int), x);
        assert(u32_seq_enc(s.push(x)) =~= u32_seq_enc(s) + u32_le_bytes(x));
    }
}

/// Equal images of equally long sequences mean equal sequences.
pub proof fn lemma_u32_seq_enc_injective(a: Seq<u32>, b: Seq<u32>)
    requires
        a.len() == b.len(),
        u32_seq_enc(a) == u32_seq_enc(b),
    ensures
        a == b,
    decreases a.len(),
{
    if a.len() > 0 {
        lemma_u32_seq_enc_len(a.subrange(1, a.len() as int));
        lemma_u32_seq_enc_len(b.subrange(1, b.len() as int));
        assert(u32_le_bytes(a[0]) =~= u32_seq_enc(a).subrange(0, 4));
        assert(u32_le_bytes(b[0]) =~= u32_seq_enc(b).subrange(0, 4));
        lemma_u32_le_injective(a[0], b[0]);
        assert(u32_seq_enc(a.subrange(1, a.len() as int)) =~= u32_seq_enc(a).subrange(4, u32_seq_enc(a).len() as int));
        assert(u32_seq_enc(b.subrange(1, b.len() as int)) =~= u32_seq_enc(b).subrange(4, u32_seq_enc(b).len() as int));
        lemma_u32_seq_enc_injective(a.subrange(1, a.len() as int), b.subrange(1, b.len() as int));
        assert forall|i: int| 0 <= i < a.len() implies a[i] == b[i] by {
            if i > 0 {
                assert(a[i] == a.subrange(1, a.len() as int)[i - 1]);
                assert(b[i] == b.subrange(1, b.len() as int)[i - 1]);
            }
        }
        assert(a =~= b);
    } else {
        assert(a =~= b);
    }
}

/// A byte region that matches the concatenation of two images splits into a
/// region matching each.
pub proof fn lemma_subrange_concat(buf: Seq<u8>, pos: int, a: Seq<u8>, b: Seq<u8>)
    requires
        0 <= pos,
        pos + a.len() + b.len() <= buf.len(),
        buf.subrange(pos, pos + a.len() + b.len()) == a + b,
    ensures
        buf.subrange(pos, pos + a.len()) == a,
        buf.subrange(pos + a.len(), pos + a.len() + b.len()) == b,
{
    assert(buf.subrange(pos, pos + a.len()) =~= a);
    assert forall|i: int| 0 <= i < b.len()
        implies buf.subrange(pos + a.len(), pos + a.len() + b.len())[i] == b[i] by {
        assert((a + b)[a.len() + i] == b[i]);
        assert(buf.subrange(pos, pos + a.len() + b.len())[a.len() + i] == buf[pos + a.len() + i]);
    }
    assert(buf.subrange(pos + a.len(), pos + a.len() + b.len()) =~= b);
}

/// Appends the length-prefixed image of `data` to `out`.
pub fn encode_bytes_to(data: &Vec<u8>, out: &mut Vec<u8>)
    requires
        data@.len() < 0x100000000,
    ensures
        final(out)@ == old(out)@ + bytes_enc(data@),
{
    encode_compact_to(data.len() as u32, out);
    let mut i: usize = 0;
    while i < data.len()
        invariant
            i <= data@.len(),
            data@.len() < 0x100000000,
            out@ == old(out)@ + compact_enc(data@.len() as u32) + data@.subrange(0, i as int),
        decreases data@.len() - i,
    {
        let b = data[i];
        out.push(b);
        i = i + 1;
        proof {
            assert(data@.subrange(0, i as int) =~= data@.subrange(0, i - 1).push(b));
            assert(out@ =~= old(out)@ + compact_enc(data@.len() as u32) + data@.subrange(0, i as int));
        }
    }
    proof {
        assert(data@.subrange(0, data@.len() as int) =~= data@);
        assert(out@ =~= old(out)@ + bytes_enc(data@));
    }
}

/// Reads a length-prefixed byte string at `pos`. Returns `Some` exactly when
/// the bytes at `pos` carry `bytes_enc(s)` for some byte string `s`.
pub fn decode_bytes_at(buf: &Vec<u8>, pos: usize) -> (r: Option<(Vec<u8>, usize)>)
    requires
        pos <= buf@.len(),
    ensures
        r matches Some((v, p)) ==> {
            &&& v@.len() < 0x100000000
            &&& pos < p <= buf@.len()
            &&& p == pos + bytes_enc(v@).len()
            &&& buf@.subrange(pos as int, p as int) == bytes_enc(v@)
        },
        forall|s: Seq<u8>| #![trigger bytes_enc(s)]
            s.len() < 0x100000000
            && pos + bytes_enc(s).len() <= buf@.len()
            && buf@.subrange(pos as int, pos + bytes_enc(s).len()) == bytes_enc(s)
            ==> (r matches Some((v, p)) && v@ == s && p == pos + bytes_enc(s).len()),
{
    let ghost matching = |s: Seq<u8>|
        s.len() < 0x100000000
        && pos + bytes_enc(s).len() <= buf@.len()
        && buf@.subrange(pos as int, pos + bytes_enc(s).len()) == bytes_enc(s);
    let rc = decode_compact_at(buf, pos);
    match rc {
        None => {
            proof {
                assert forall|s: Seq<u8>| #![trigger bytes_enc(s)] matching(s) implies false by {
                    lemma_subrange_concat(buf@, pos as int, compact_enc(s.len() as u32), s);
                }
            }
            None
        },
        Some((n, p1)) => {
            proof {
                assert forall|s: Seq<u8>| #![trigger bytes_enc(s)] matching(s)
                    implies n == s.len() && p1 == pos + compact_enc(s.len() as u32).len() by {
                    lemma_subrange_concat(buf@, pos as int, compact_enc(s.len() as u32), s);
                }
            }
            if buf.len() - p1 < n as usize {
                proof {
                    assert forall|s: Seq<u8>| #![trigger bytes_enc(s)] matching(s) implies false by {
                        lemma_subrange_concat(buf@, pos as int, compact_enc(s.len() as u32), s);
                    }
                }
                return None;
            }
            let count = n as usize;
            let blen = buf.len();
            let mut v: Vec<u8> = Vec::new();
            let mut i: usize = 0;
            while i < count
                invariant
                    i <= count,
                    p1 + count <= blen,
                    blen == buf@.len(),
                    v@ == buf@.subrange(p1 as int, p1 + i),
                decreases count - i,
            {
                let b = buf[p1 + i];
                v.push(b);
                i = i + 1;
                proof {
                    assert(v@ =~= buf@.subrange(p1 as int, p1 + i));
                }
            }
            proof {
                assert(buf@.subrange(pos as int, p1 + count) =~=
                    buf@.subrange(pos as int, p1 as int) + buf@.subrange(p1 as int, p1 + count));
                assert(buf@.subrange(pos as int, p1 + count) =~= bytes_enc(v@));
                assert forall|s: Seq<u8>| #![trigger bytes_enc(s)] matching(s) implies v@ == s by {
                    lemma_subrange_concat(buf@, pos as int, compact_enc(s.len() as u32), s);
                }
            }
            Some((v, p1 + count))
        },
    }
}

/// Appends the length-prefixed image of a sequence of 32-bit values to `out`.
pub fn encode_u32_vec_to(vals: &Vec<u32>, out: &mut Vec<u8>)
    requires
        vals@.len() < 0x100000000,
    ensures
        final(out)@ == old(out)@ + u32_vec_enc(vals@),
{
    encode_compact_to(vals.len() as u32, out);
    let mut i: usize = 0;
    while i < vals.len()
        invariant
            i <= vals@.len(),
            vals@.len() < 0x100000000,
            out@ == old(out)@ + compact_enc(vals@.len() as u32) + u32_seq_enc(vals@.subrange(0, i as int)),
        decreases vals@.len() - i,
    {
        let x = vals[i];
        encode_u32_to(x, out);
        i = i + 1;
        proof {
            assert(vals@.subrange(0, i as int) =~= vals@.subrange(0, i - 1).push(x));
            lemma_u32_seq_enc_push(vals@.subrange(0, i - 1), x);
            assert(out@ =~= old(out)@ + compact_enc(vals@.len() as u32) + u32_seq_enc(vals@.subrange(0, i as int)));
        }
    }
    proof {
        assert(vals@.subrange(0, vals@.len() as int) =~= vals@);
        assert(out@ =~= old(out)@ + u32_vec_enc(vals@));
    }
}

/// Reads a length-prefixed sequence of 32-bit values at `pos`. Returns `Some`
/// exactly when the bytes at `pos` carry `u32_vec_enc(s)` for some `s`.
pub fn decode_u32_vec_at(buf: &Vec<u8>, pos: usize) -> (r: Option<(Vec<u32>, usize)>)
    requires
        pos <= buf@.len(),
    ensures
        r matches Some((v, p)) ==> {
            &&& v@.len() < 0x100000000
            &&& pos < p <= buf@.len()
            &&& p == pos + u32_vec_enc(v@).len()
            &&& buf@.subrange(pos as int, p as int) == u32_vec_enc(v@)
        },
        forall|s: Seq<u32>| #![trigger u32_vec_enc(s)]
            s.len() < 0x100000000
            && pos + u32_vec_enc(s).len() <= buf@.len()
            && buf@.subrange(pos as int, pos + u32_vec_enc(s).len()) == u32_vec_enc(s)
            ==> (r matches Some((v, p)) && v@ == s && p == pos + u32_vec_enc(s).len()),
{
    let ghost matching = |s: Seq<u32>|
        s.len() < 0x100000000
        && pos + u32_vec_enc(s).len() <= buf@.len()
        && buf@.subrange(pos as int, pos + u32_vec_enc(s).len()) == u32_vec_enc(s);
    let rc = decode_compact_at(buf, pos);
    match rc {
        None => {
            proof {
                assert forall|s: Seq<u32>| #![trigger u32_vec_enc(s)] matching(s) implies false by {
                    lemma_subrange_concat(buf@, pos as int, compact_enc(s.len() as u32), u32_seq_enc(s));
                }
            }
            None
        },
        Some((n, p1)) => {
            proof {
                assert forall|s: Seq<u32>| #![trigger u32_vec_enc(s)] matching(s)
                    implies n == s.len() && p1 == pos + compact_enc(s.len() as u32).len()
                        && u32_seq_enc(s).len() == 4 * s.len() by {
                    lemma_u32_seq_enc_len(s);
                    lemma_subrange_concat(buf@, pos as int, compact_enc(s.len() as u32), u32_seq_enc(s));
                }
            }
            if (buf.len() - p1) / 4 < n as usize {
                proof {
                    assert forall|s: Seq<u32>| #![trigger u32_vec_enc(s)] matching(s) implies false by {
                        lemma_u32_seq_enc_len(s);
                        lemma_subrange_concat(buf@, pos as int, compact_enc(s.len() as u32), u32_seq_enc(s));
                    }
                }
                return None;
            }
            let count = n as usize;
            let mut v: Vec<u32> = Vec::new();
            let mut i: usize = 0;
            let mut p: usize = p1;
            while i < count
                invariant
                    i <= count,
                    p == p1 + 4 * i,
                    p1 + 4 * count <= buf@.len(),
                    v@.len() == i,
                    u32_seq_enc(v@) == buf@.subrange(p1 as int, p as int),
                decreases count - i,
            {
                let rx = decode_u32_at(buf, p);
                let (x, p2) = rx.unwrap();
                let ghost prev = v@;
                v.push(x);
                proof {
                    lemma_u32_seq_enc_push(prev, x);
                    assert(u32_seq_enc(v@) =~= buf@.subrange(p1 as int, p2 as int));
                }
                p = p2;
                i = i + 1;
            }
            proof {
                lemma_u32_seq_enc_len(v@);
                assert(buf@.subrange(pos as int, p as int) =~=
                    buf@.subrange(pos as int, p1 as int) + buf@.subrange(p1 as int, p as int));
                assert(buf@.subrange(pos as int, p as int) =~= u32_vec_enc(v@));
                assert forall|s: Seq<u32>| #![trigger u32_vec_enc(s)] matching(s) implies v@ == s by {
                    lemma_u32_seq_enc_len(s);
                    lemma_subrange_concat(buf@, pos as int, compact_enc(s.len() as u32), u32_seq_enc(s));
                    lemma_u32_seq_enc_injective(v@, s);
                }
            }
            Some((v, p))
        },
    }
}


/// Appends `data` itself, with no length prefix (for fixed-width payloads).
pub fn encode_raw_to(data: &Vec<u8>, out: &mut Vec<u8>)
    ensures
        final(out)@ == old(out)@ + data@,
{
    let mut i: usize = 0;
    while i < data.len()
        invariant
            i <= data@.len(),
            out@ == old(out)@ + data@.subrange(0, i as int),
        decreases data@.len() - i,
    {
        let b = data[i];
        out.push(b);
        i = i + 1;
        proof {
            assert(data@.subrange(0, i as int) =~= data@.subrange(0, i - 1).push(b));
            assert(out@ =~= old(out)@ + data@.subrange(0, i as int));
        }
    }
    proof {
        assert(data@.subrange(0, data@.len() as int) =~= data@);
    }
}

/// Reads exactly `count` raw bytes at `pos`; fails exactly when fewer remain.
pub fn decode_raw_at(buf: &Vec<u8>, pos: usize, count: usize) -> (r: Option<(Vec<u8>, usize)>)
    requires
        pos <= buf@.len(),
    ensures
        match r {
            Some((v, p)) => {
                &&& v@.len() == count
                &&& p == pos + count
                &&& p <= buf@.len()
                &&& buf@.subrange(pos as int, p as int) == v@
            },
            None => buf@.len() < pos + count,
        },
{
    if buf.len() - pos < count {
        return None;
    }
    let blen = buf.len();
    let mut v: Vec<u8> = Vec::new();
    let mut i: usize = 0;
    while i < count
        invariant
            i <= count,
            pos + count <= blen,
            blen == buf@.len(),
            v@ == buf@.subrange(pos as int, pos + i),
        decreases count - i,
    {
        let b = buf[pos + i];
        v.push(b);
        i = i + 1;
        proof {
            assert(v@ =~= buf@.subrange(pos as int, pos + i));
        }
    }
    Some((v, pos + count))
}

} // verus!
