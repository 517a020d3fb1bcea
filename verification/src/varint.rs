//! LEB128-style unsigned varints, up to 64 bits, with strict bounds.
//!
//! A varint is a sequence of 7-bit groups, least significant first, with
//! the continuation bit set on every byte but the last. At most ten bytes
//! are read, and on the tenth byte only the lowest bit may be set.

use vstd::prelude::*;

use crate::error::Error;

verus! {

/// `128^i`, the weight of the `i`-th 7-bit group.
pub open spec fn pow128(i: int) -> int
    decreases i,
{
    if i <= 0 {
        1
    } else {
        128 * pow128(i - 1)
    }
}

proof fn lemma_varint_enc_len_ge1(v: u64)
    ensures
        varint_enc(v).len() >= 1,
    decreases v,
{
}

pub proof fn lemma_pow128_pos(i: int)
    ensures
        pow128(i) >= 1,
    decreases i,
{
    if i > 0 {
        lemma_pow128_pos(i - 1);
    }
}

proof fn lemma_pow128_9()
    ensures
        pow128(9) == 0x8000000000000000,
{
    reveal_with_fuel(pow128, 10);
}

/// The canonical encoding of `v` as an unsigned varint.
pub open spec fn varint_enc(v: u64) -> Seq<u8>
    decreases v,
{
    if v < 128 {
        seq![v as u8]
    } else {
        seq![(v % 128 + 128) as u8] + varint_enc((v / 128) as u64)
    }
}

/// The number of bytes in the canonical encoding of `v`.
pub open spec fn varint_len(v: u64) -> int {
    varint_enc(v).len() as int
}

/// Parse an unsigned varint whose next byte is the `i`-th of the varint,
/// the earlier groups summing to `acc`. Returns the value and the overall
/// byte count on success.
pub open spec fn varint_rec(s: Seq<u8>, i: int, acc: int) -> Option<(int, int)>
    decreases s.len(),
{
    if s.len() <= 0 || i >= 10 {
        None
    } else {
        let b = s[0];
        if b < 128 {
            if i == 9 && b > 1 {
                None
            } else {
                Some((acc + (b as int) * pow128(i), i + 1))
            }
        } else {
            varint_rec(s.skip(1), i + 1, acc + ((b as int) - 128) * pow128(i))
        }
    }
}

/// Parse an unsigned varint from the start of `s`.
pub open spec fn spec_parse_varint(s: Seq<u8>) -> Option<(int, int)> {
    varint_rec(s, 0, 0)
}

/// A successful parse started with partial sum `acc < 128^i` yields a value
/// below `2^64` that extends `acc`, consuming between `i+1` and 10 bytes.
pub proof fn lemma_varint_rec_bound(s: Seq<u8>, i: int, acc: int)
    requires
        0 <= i <= 9,
        0 <= acc < pow128(i),
    ensures
        match varint_rec(s, i, acc) {
            Some((v, n)) => acc <= v < 0x10000000000000000 && i < n <= 10,
            None => true,
        },
    decreases s.len(),
{
    if s.len() > 0 && i < 10 {
        let b = s[0];
        lemma_pow128_pos(i);
        lemma_pow128_9();
        if b < 128 {
            if !(i == 9 && b > 1) {
                let v = acc + (b as int) * pow128(i);
                assert(pow128(i + 1) == 128 * pow128(i));
                if i == 9 {
                    assert(v < pow128(9) + 2 * pow128(9));
                    assert(acc < pow128(9));
                    assert(v <= acc + 1 * pow128(9));
                } else {
                    assert(v < 128 * pow128(i)) by (nonlinear_arith)
                        requires acc < pow128(i), b < 128, pow128(i) >= 1,
                            v == acc + (b as int) * pow128(i);
                    lemma_pow128_le(i + 1, 9);
                }
            }
        } else {
            let acc2 = acc + ((b as int) - 128) * pow128(i);
            assert(acc2 < 128 * pow128(i)) by (nonlinear_arith)
                requires acc < pow128(i), 128 <= b < 256, pow128(i) >= 1,
                    acc2 == acc + ((b as int) - 128) * pow128(i);
            assert(acc2 >= acc);
            if i + 1 <= 9 {
                assert(pow128(i + 1) == 128 * pow128(i));
                lemma_varint_rec_bound(s.skip(1), i + 1, acc2);
            }
        }
    }
}

proof fn lemma_pow128_le(i: int, j: int)
    requires
        0 <= i <= j,
    ensures
        pow128(i) <= pow128(j),
    decreases j,
{
    if i < j {
        lemma_pow128_le(i, j - 1);
        lemma_pow128_pos(j - 1);
    }
}

/// The canonical encoding of `v`, placed as the `i`-th and later groups
/// with any suffix behind it, parses back to exactly `v`'s contribution.
proof fn lemma_varint_enc_parses(v: u64, rest: Seq<u8>, i: int, acc: int)
    requires
        0 <= i <= 9,
        0 <= acc,
        i == 9 ==> v < 2,
        (v as int) * pow128(i) < 0x10000000000000000,
    ensures
        varint_rec(varint_enc(v) + rest, i, acc)
            == Some((acc + (v as int) * pow128(i), i + varint_enc(v).len())),
    decreases v,
{
    let s = varint_enc(v) + rest;
    lemma_pow128_pos(i);
    if v < 128 {
        assert(s[0] == v as u8);
    } else {
        let b: u8 = (v % 128 + 128) as u8;
        assert(s[0] == b);
        assert(b >= 128);
        let w: u64 = (v / 128) as u64;
        assert(i < 9) by {
            if i == 9 {
                assert(v < 2);
            }
        }
        let acc2 = acc + ((b as int) - 128) * pow128(i);
        assert((b as int) - 128 == (v as int) % 128);
        assert(s.skip(1) =~= varint_enc(w) + rest);
        // Carry the width bound one group up.
        assert((w as int) * pow128(i + 1) <= (v as int) * pow128(i)) by (nonlinear_arith)
            requires pow128(i + 1) == 128 * pow128(i), pow128(i) >= 1,
                w == v / 128;
        if i + 1 == 9 {
            lemma_pow128_9();
            assert(pow128(8) * 128 == pow128(9));
            assert(w < 2) by (nonlinear_arith)
                requires (w as int) * pow128(9) < 0x10000000000000000,
                    pow128(9) == 0x8000000000000000;
        }
        lemma_varint_enc_parses(w, rest, i + 1, acc2);
        assert(acc2 + (w as int) * pow128(i + 1) == acc + (v as int) * pow128(i))
            by (nonlinear_arith)
            requires pow128(i + 1) == 128 * pow128(i),
                acc2 == acc + ((v as int) % 128) * pow128(i),
                w == v / 128;
    }
}

/// A canonical varint encoding, followed by anything, parses back to the
/// value it encodes.
pub proof fn lemma_varint_round_trip(v: u64, rest: Seq<u8>)
    ensures
        spec_parse_varint(varint_enc(v) + rest)
            == Some((v as int, varint_len(v))),
        1 <= varint_len(v) <= 10,
{
    lemma_varint_enc_parses(v, rest, 0, 0);
    lemma_varint_rec_bound(varint_enc(v) + rest, 0, 0);
}

/// Decode a varint from the beginning of the slice.
/// Returns the value and the number of bytes read.
pub fn decode_varint(src: &[u8]) -> (r: Result<(u64, usize), Error>)
    ensures
        match spec_parse_varint(src@) {
            Some((v, n)) => r matches Ok(p) && p.0 == v && p.1 == n && n <= src@.len(),
            None => r == Err::<(u64, usize), Error>(Error::Corrupt),
        },
{
    let mut i: usize = 0;
    let mut acc: u64 = 0;
    let mut p: u64 = 1;
    proof {
        assert(src@.skip(0) =~= src@);
    }
    loop
        invariant
            0 <= i <= 9,
            i <= src@.len(),
            p == pow128(i as int),
            acc < p,
            varint_rec(src@.skip(i as int), i as int, acc as int) == spec_parse_varint(src@),
        decreases src@.len() - i,
    {
        proof {
            lemma_pow128_pos(i as int);
            lemma_pow128_9();
            lemma_pow128_le(i as int, 9);
        }
        if i >= src.len() {
            return Err(Error::Corrupt);
        }
        let b = src[i];
        assert(src@.skip(i as int)[0] == b);
        if b < 0x80 {
            if i == 9 && b > 1 {
                return Err(Error::Corrupt);
            }
            proof {
                if i as int == 9 {
                    assert(p == 0x8000000000000000);
                    assert(acc as int + (b as int) * (p as int) < 0x10000000000000000)
                        by (nonlinear_arith)
                        requires b <= 1, acc < p, p == 0x8000000000000000;
                } else {
                    assert((b as int) * pow128(i as int) + acc < 128 * pow128(i as int))
                        by (nonlinear_arith)
                        requires b < 128, acc < pow128(i as int), pow128(i as int) >= 1;
                    lemma_pow128_le(i as int + 1, 9);
                    assert(acc as int + (b as int) * (p as int) < 0x10000000000000000);
                }
            }
            let v: u64 = acc + (b as u64) * p;
            return Ok((v, i + 1));
        }
        if i == 9 {
            proof {
                let sk = src@.skip(9);
                let acc2 = acc as int + ((b as int) - 128) * pow128(9);
                assert(varint_rec(sk, 9, acc as int) == varint_rec(sk.skip(1), 10, acc2));
                assert(varint_rec(sk.skip(1), 10, acc2) is None);
            }
            return Err(Error::Corrupt);
        }
        proof {
            assert(((b - 0x80) as int) * pow128(i as int) + acc < 128 * pow128(i as int))
                by (nonlinear_arith)
                requires 128 <= b < 256, acc < pow128(i as int), pow128(i as int) >= 1;
            lemma_pow128_le(i as int + 1, 9);
        }
        let ghost old_skip = src@.skip(i as int);
        acc = acc + ((b - 0x80) as u64) * p;
        p = p * 128;
        i = i + 1;
        proof {
            assert(old_skip.skip(1) =~= src@.skip(i as int));
        }
    }
}

/// Append the varint encoding of `value` to `dst`.
/// Returns the number of bytes written.
pub fn encode_varint(dst: &mut Vec<u8>, value: u64) -> (n: usize)
    ensures
        final(dst)@ == old(dst)@ + varint_enc(value),
        n == varint_len(value),
        1 <= n <= 10,
        final(dst)@.len() == old(dst)@.len() + n,
{
    proof {
        lemma_varint_round_trip(value, Seq::<u8>::empty());
    }
    let mut v: u64 = value;
    let mut n: usize = 0;
    while v >= 0x80
        invariant
            old(dst)@ + varint_enc(value) =~= dst@ + varint_enc(v),
            dst@.len() == old(dst)@.len() + n,
            varint_enc(v).len() + n == varint_len(value),
            varint_len(value) <= 10,
            n <= 10,
        decreases v,
    {
        let ghost prev = v;
        dst.push((v % 128 + 128) as u8);
        v = v / 128;
        n = n + 1;
        proof {
            lemma_varint_enc_len_ge1(v);
            assert(old(dst)@ + varint_enc(value) =~= dst@ + varint_enc(v));
        }
    }
    dst.push(v as u8);
    proof {
        assert(old(dst)@ + varint_enc(value) =~= dst@);
    }
    n + 1
}

/// The number of bytes `encode_varint` would write for `value`.
pub fn varint_size(value: u64) -> (n: usize)
    ensures
        n == varint_len(value),
        1 <= n <= 10,
{
    proof {
        lemma_varint_round_trip(value, Seq::<u8>::empty());
    }
    let mut v: u64 = value;
    let mut n: usize = 1;
    while v >= 0x80
        invariant
            1 <= n <= 10,
            varint_enc(v).len() + n - 1 == varint_len(value),
            varint_len(value) <= 10,
        decreases v,
    {
        v = v / 128;
        n = n + 1;
        proof {
            lemma_varint_enc_len_ge1(v);
        }
    }
    n
}

} // verus!
