//! The public block encoders and the output-size bound they obey.

use vstd::prelude::*;

use crate::block::lemma_decodes_complete;
use crate::block::lemma_decodes_empty;
use crate::block::lemma_decodes_lit;
use crate::emit::emit_literal;
use crate::emit::lit_enc;
use crate::emit::lit_hdr_enc;
use crate::error::Error;
use crate::tags::exec_tags;
use crate::tags::spec_block_decode;
use crate::varint::encode_varint;
use crate::varint::lemma_varint_round_trip;
use crate::varint::varint_enc;
use crate::varint::varint_len;

verus! {

/// Encoder for S2 compression. The encoders keep no state between
/// calls; the type names the API.
pub struct Encoder {}

impl Encoder {
    /// Create a new encoder.
    pub fn new() -> Encoder {
        Encoder {  }
    }
}

/// The number of bits needed to write `v` in binary.
pub open spec fn bit_len(v: int) -> int
    decreases v,
{
    if v <= 0 {
        0
    } else {
        1 + bit_len(v / 2)
    }
}

/// The worst-case size of the varint length header.
pub open spec fn spec_varint_extra(n: int) -> int {
    (bit_len(n) + 7) / 7
}

/// The worst-case size of a literal header for `n` bytes.
pub open spec fn spec_literal_extra(n: int) -> int {
    if n == 0 {
        0
    } else if n < 60 {
        1
    } else if n < 256 {
        2
    } else if n < 65536 {
        3
    } else if n < 16777216 {
        4
    } else {
        5
    }
}

/// The bound every encoder's output obeys: the source, the length header,
/// one literal header, and a safety margin of a thirty-second plus one.
pub open spec fn spec_max_encoded_len(n: int) -> int {
    n + spec_varint_extra(n) + spec_literal_extra(n) + n / 32 + 1
}

/// Bit lengths are never negative.
pub proof fn lemma_bit_len_nonneg(v: int)
    ensures
        bit_len(v) >= 0,
    decreases v,
{
    if v > 0 {
        lemma_bit_len_nonneg(v / 2);
    }
}

/// A value below `2^k` needs at most `k` bits.
proof fn lemma_bit_len_bound(v: int, k: int)
    requires
        0 <= k,
        v < vstd::arithmetic::power2::pow2(k as nat),
    ensures
        bit_len(v) <= k,
    decreases k,
{
    if v > 0 {
        vstd::arithmetic::power2::lemma2_to64();
        assert(k > 0);
        vstd::arithmetic::power2::lemma_pow2_adds(1, (k - 1) as nat);
        assert(vstd::arithmetic::power2::pow2(k as nat)
            == 2 * vstd::arithmetic::power2::pow2((k - 1) as nat));
        lemma_bit_len_bound(v / 2, k - 1);
    }
}

/// Stripping seven low bits drops exactly seven from the bit length.
proof fn lemma_bit_len_div128(v: int)
    requires
        v >= 128,
    ensures
        bit_len(v) == 7 + bit_len(v / 128),
{
    assert(bit_len(v) == 1 + bit_len(v / 2));
    assert(bit_len(v / 2) == 1 + bit_len(v / 4));
    assert(bit_len(v / 4) == 1 + bit_len(v / 8));
    assert(bit_len(v / 8) == 1 + bit_len(v / 16));
    assert(bit_len(v / 16) == 1 + bit_len(v / 32));
    assert(bit_len(v / 32) == 1 + bit_len(v / 64));
    assert(bit_len(v / 64) == 1 + bit_len(v / 128));
}

/// The varint header never exceeds the worst-case bound in the formula.
proof fn lemma_varint_len_le(v: u64)
    ensures
        varint_len(v) <= (bit_len(v as int) + 7) / 7,
        bit_len(v as int) >= 0,
    decreases v,
{
    if v < 128 {
        if v > 0 {
            lemma_bit_len_nonneg(v as int / 2);
            assert(bit_len(v as int) >= 1);
        }
    } else {
        lemma_bit_len_nonneg(v as int);
        lemma_bit_len_div128(v as int);
        lemma_varint_len_le(v / 128);
    }
}

/// The literal header written for `len` bytes fits the formula's allowance.
proof fn lemma_lit_hdr_le(len: int)
    requires
        1 <= len,
    ensures
        lit_hdr_enc(len).len() <= spec_literal_extra(len),
{
}

/// For block-sized sources the bound is small and always representable.
pub proof fn lemma_spec_max_bound(n: int)
    requires
        0 <= n <= 0x400000,
    ensures
        n <= spec_max_encoded_len(n) <= 0xffffffff,
        spec_max_encoded_len(n) <= n + n / 32 + 16,
{
    vstd::arithmetic::power2::lemma2_to64();
    lemma_bit_len_bound(n, 23);
    lemma_bit_len_nonneg(n);
}

/// Returns the maximum length of an encoded block, or `TooLarge` where the
/// source, or the bound itself, exceeds the 32-bit ceiling.
pub fn max_encoded_len(src_len: usize) -> (r: Result<usize, Error>)
    ensures
        match r {
            Ok(m) => {
                &&& src_len <= 0xffffffff
                &&& m == spec_max_encoded_len(src_len as int)
                &&& m <= 0xffffffff
            },
            Err(e) => {
                &&& e == Error::TooLarge
                &&& (src_len > 0xffffffff || spec_max_encoded_len(src_len as int) > 0xffffffff)
            },
        },
{
    if src_len > 0xffffffff {
        return Err(Error::TooLarge);
    }
    // Bit length of the source size.
    proof {
        vstd::arithmetic::power2::lemma2_to64();
        lemma_bit_len_bound(src_len as int, 32);
        lemma_bit_len_nonneg(src_len as int);
    }
    let mut v: u64 = src_len as u64;
    let mut bits: u64 = 0;
    while v > 0
        invariant
            bit_len(src_len as int) == bits + bit_len(v as int),
            bit_len(src_len as int) <= 32,
            bit_len(v as int) >= 0,
            v <= src_len as u64,
        decreases v,
    {
        v = v / 2;
        bits = bits + 1;
        proof {
            lemma_bit_len_nonneg(v as int);
        }
    }
    let varint_extra: u64 = (bits + 7) / 7;
    let lit_extra: u64 = literal_extra_u64(src_len);
    let total: u64 = src_len as u64 + varint_extra + lit_extra + (src_len as u64) / 32 + 1;
    if total > 0xffffffff {
        return Err(Error::TooLarge);
    }
    Ok(total as usize)
}

/// The worst-case literal header size for `n` source bytes.
fn literal_extra_u64(n: usize) -> (r: u64)
    ensures
        r == spec_literal_extra(n as int),
{
    if n == 0 {
        0
    } else if n < 60 {
        1
    } else if n < 256 {
        2
    } else if n < 65536 {
        3
    } else if n < 16777216 {
        4
    } else {
        5
    }
}

/// Wrap a block encoder's output, or fall back to a single literal, behind
/// the varint length header.
fn finish_encode(src: &[u8], block: Option<Vec<u8>>) -> (r: Vec<u8>)
    requires
        1 <= src@.len(),
        spec_max_encoded_len(src@.len() as int) <= 0xffffffff,
        2 * src@.len() + 16 <= usize::MAX,
        match block {
            Some(b) => {
                &&& exec_tags(Seq::<u8>::empty(), b@, Seq::<u8>::empty(), 0, src@.len() as int)
                    matches Some(p) && p.0 == src@
                &&& b@.len() < src@.len() - src@.len() / 32
            },
            None => true,
        },
    ensures
        spec_block_decode(r@) == Some(src@),
        r@.len() <= spec_max_encoded_len(src@.len() as int),
        r@.len() >= varint_len(src@.len() as u64),
        r@.subrange(0, varint_len(src@.len() as u64)) == varint_enc(src@.len() as u64),
{
    let ghost ed = Seq::<u8>::empty();
    let n = src.len();
    let mut out: Vec<u8> = Vec::new();
    let vl = encode_varint(&mut out, n as u64);
    proof {
        lemma_varint_len_le(n as u64);
        assert(out@ =~= varint_enc(n as u64));
    }
    match block {
        Some(b) => {
            let mut b = b;
            let ghost bview = b@;
            out.append(&mut b);
            proof {
                lemma_varint_round_trip(n as u64, bview);
                assert(out@ =~= varint_enc(n as u64) + bview);
                assert(out@.skip(varint_len(n as u64)) =~= bview);
                assert(out@.subrange(0, varint_len(n as u64)) =~= varint_enc(n as u64));
            }
            out
        },
        None => {
            let ghost pre = out@;
            emit_literal(&mut out, src);
            proof {
                lemma_varint_round_trip(n as u64, lit_enc(src@));
                assert(out@ =~= varint_enc(n as u64) + lit_enc(src@));
                assert(out@.skip(varint_len(n as u64)) =~= lit_enc(src@));
                lemma_decodes_empty(ed, n as int);
                lemma_decodes_lit(ed, Seq::<u8>::empty(), Seq::<u8>::empty(), 0, n as int, src@);
                assert(Seq::<u8>::empty() + lit_enc(src@) =~= lit_enc(src@));
                assert(Seq::<u8>::empty() + src@ =~= src@);
                lemma_decodes_complete(ed, lit_enc(src@), src@, 0, n as int);
                lemma_lit_hdr_le(n as int);
                assert(out@.subrange(0, varint_len(n as u64)) =~= varint_enc(n as u64));
            }
            out
        },
    }
}

/// Encode returns the encoded form of `src` as a complete block that
/// `decode` maps back to exactly `src`, within `max_encoded_len`.
pub fn encode(src: &[u8]) -> (r: Vec<u8>)
    requires
        spec_max_encoded_len(src@.len() as int) <= 0xffffffff,
        2 * src@.len() + 16 <= usize::MAX,
    ensures
        spec_block_decode(r@) == Some(src@),
        r@.len() <= spec_max_encoded_len(src@.len() as int),
        r@.len() >= varint_len(src@.len() as u64),
        r@.subrange(0, varint_len(src@.len() as u64)) == varint_enc(src@.len() as u64),
        src@.len() == 0 ==> r@ == varint_enc(0),
{
    let n = src.len();
    proof {
        lemma_bit_len_nonneg(n as int);
    }
    if n == 0 {
        let r = empty_block();
        proof {
            assert(r@.subrange(0, 1) =~= r@);
        }
        r
    } else if n < crate::constants::MIN_NON_LITERAL_BLOCK_SIZE {
        finish_encode(src, None)
    } else {
        let b = crate::fast::encode_block(src);
        finish_encode(src, b)
    }
}

/// Encode in Snappy-compatible form: the block never uses repeat tags.
pub fn encode_snappy(src: &[u8]) -> (r: Vec<u8>)
    requires
        spec_max_encoded_len(src@.len() as int) <= 0xffffffff,
        2 * src@.len() + 16 <= usize::MAX,
    ensures
        spec_block_decode(r@) == Some(src@),
        r@.len() <= spec_max_encoded_len(src@.len() as int),
        r@.len() >= varint_len(src@.len() as u64),
        r@.subrange(0, varint_len(src@.len() as u64)) == varint_enc(src@.len() as u64),
        src@.len() == 0 ==> r@ == varint_enc(0),
{
    let n = src.len();
    proof {
        lemma_bit_len_nonneg(n as int);
    }
    if n == 0 {
        let r = empty_block();
        proof {
            assert(r@.subrange(0, 1) =~= r@);
        }
        r
    } else if n < crate::constants::MIN_NON_LITERAL_BLOCK_SIZE {
        finish_encode(src, None)
    } else {
        let b = crate::snappy::encode_block_snappy(src);
        finish_encode(src, b)
    }
}

/// Wrap a dictionary block encoder's output, or fall back to a single
/// literal, behind the varint length header; the result decodes against
/// the same dictionary.
fn finish_encode_dict(src: &[u8], Ghost(dict): Ghost<Seq<u8>>, block: Option<Vec<u8>>) -> (r:
    Vec<u8>)
    requires
        1 <= src@.len(),
        spec_max_encoded_len(src@.len() as int) <= 0xffffffff,
        2 * src@.len() + 16 <= usize::MAX,
        match block {
            Some(b) => {
                &&& exec_tags(dict, b@, Seq::<u8>::empty(), 0, src@.len() as int)
                    matches Some(p) && p.0 == src@
                &&& b@.len() < src@.len() - src@.len() / 32
            },
            None => true,
        },
    ensures
        crate::tags::spec_block_decode_dict(dict, r@) == Some(src@),
        r@.len() <= spec_max_encoded_len(src@.len() as int),
        r@.len() >= varint_len(src@.len() as u64),
        r@.subrange(0, varint_len(src@.len() as u64)) == varint_enc(src@.len() as u64),
        src@.len() == 0 ==> r@ == varint_enc(0),
{
    let n = src.len();
    let mut out: Vec<u8> = Vec::new();
    let vl = encode_varint(&mut out, n as u64);
    proof {
        lemma_varint_len_le(n as u64);
        assert(out@ =~= varint_enc(n as u64));
    }
    match block {
        Some(b) => {
            let mut b = b;
            let ghost bview = b@;
            out.append(&mut b);
            proof {
                lemma_varint_round_trip(n as u64, bview);
                assert(out@ =~= varint_enc(n as u64) + bview);
                assert(out@.skip(varint_len(n as u64)) =~= bview);
                assert(out@.subrange(0, varint_len(n as u64)) =~= varint_enc(n as u64));
            }
            out
        },
        None => {
            let ghost pre = out@;
            emit_literal(&mut out, src);
            proof {
                lemma_varint_round_trip(n as u64, lit_enc(src@));
                assert(out@ =~= varint_enc(n as u64) + lit_enc(src@));
                assert(out@.skip(varint_len(n as u64)) =~= lit_enc(src@));
                lemma_decodes_empty(dict, n as int);
                lemma_decodes_lit(dict, Seq::<u8>::empty(), Seq::<u8>::empty(), 0, n as int,
                    src@);
                assert(Seq::<u8>::empty() + lit_enc(src@) =~= lit_enc(src@));
                assert(Seq::<u8>::empty() + src@ =~= src@);
                lemma_decodes_complete(dict, lit_enc(src@), src@, 0, n as int);
                lemma_lit_hdr_le(n as int);
                assert(out@.subrange(0, varint_len(n as u64)) =~= varint_enc(n as u64));
            }
            out
        },
    }
}

/// Encode with dictionary support: matches may reach into the dictionary,
/// and the result decodes exactly through `decode_with_dict`.
pub fn encode_with_dict(src: &[u8], dict: &crate::dict::Dict) -> (r: Vec<u8>)
    requires
        dict.wf(),
        spec_max_encoded_len(src@.len() as int) <= 0xffffffff,
        2 * src@.len() + 32 <= usize::MAX,
    ensures
        crate::tags::spec_block_decode_dict(dict@, r@) == Some(src@),
        r@.len() <= spec_max_encoded_len(src@.len() as int),
        r@.len() >= varint_len(src@.len() as u64),
        r@.subrange(0, varint_len(src@.len() as u64)) == varint_enc(src@.len() as u64),
        src@.len() == 0 ==> r@ == varint_enc(0),
{
    let n = src.len();
    proof {
        lemma_bit_len_nonneg(n as int);
        if n as int + 65552 >= 0x100000000 {
            assert(n as int >= 0x100000000 - 65552);
            assert(n as int / 32 > 65552);
            assert(spec_max_encoded_len(n as int) > 0xffffffff);
        }
    }
    if n == 0 {
        let r = empty_block_dict(Ghost(dict@));
        proof {
            assert(r@.subrange(0, 1) =~= r@);
        }
        r
    } else if n < crate::constants::MIN_NON_LITERAL_BLOCK_SIZE {
        finish_encode_dict(src, Ghost(dict@), None)
    } else {
        let b = crate::dict_block::encode_block_dict(src, dict.data().as_slice(), dict.repeat());
        finish_encode_dict(src, Ghost(dict@), b)
    }
}

/// The empty block, which decodes to nothing under any dictionary.
fn empty_block_dict(Ghost(dict): Ghost<Seq<u8>>) -> (r: Vec<u8>)
    ensures
        crate::tags::spec_block_decode_dict(dict, r@) == Some(Seq::<u8>::empty()),
        r@.len() == 1,
        r@ == varint_enc(0),
{
    let mut out: Vec<u8> = Vec::new();
    encode_varint(&mut out, 0);
    proof {
        assert(out@ =~= varint_enc(0));
        lemma_varint_round_trip(0, Seq::<u8>::empty());
        assert(out@ =~= varint_enc(0) + Seq::<u8>::empty());
        assert(out@.skip(1) =~= Seq::<u8>::empty());
    }
    out
}

/// EncodeBetter provides better compression than `encode` but is slower.
pub fn encode_better(src: &[u8]) -> (r: Vec<u8>)
    requires
        spec_max_encoded_len(src@.len() as int) <= 0xffffffff,
        2 * src@.len() + 16 <= usize::MAX,
    ensures
        spec_block_decode(r@) == Some(src@),
        r@.len() <= spec_max_encoded_len(src@.len() as int),
        r@.len() >= varint_len(src@.len() as u64),
        r@.subrange(0, varint_len(src@.len() as u64)) == varint_enc(src@.len() as u64),
        src@.len() == 0 ==> r@ == varint_enc(0),
{
    let n = src.len();
    proof {
        lemma_bit_len_nonneg(n as int);
    }
    if n == 0 {
        let r = empty_block();
        proof {
            assert(r@.subrange(0, 1) =~= r@);
        }
        r
    } else if n < crate::constants::MIN_NON_LITERAL_BLOCK_SIZE {
        finish_encode(src, None)
    } else {
        let b = crate::better::encode_block_better(src);
        finish_encode(src, b)
    }
}

/// EncodeBest provides the best compression but is the slowest.
pub fn encode_best(src: &[u8]) -> (r: Vec<u8>)
    requires
        spec_max_encoded_len(src@.len() as int) <= 0xffffffff,
        2 * src@.len() + 16 <= usize::MAX,
    ensures
        spec_block_decode(r@) == Some(src@),
        r@.len() <= spec_max_encoded_len(src@.len() as int),
        r@.len() >= varint_len(src@.len() as u64),
        r@.subrange(0, varint_len(src@.len() as u64)) == varint_enc(src@.len() as u64),
        src@.len() == 0 ==> r@ == varint_enc(0),
{
    let n = src.len();
    proof {
        lemma_bit_len_nonneg(n as int);
    }
    if n == 0 {
        let r = empty_block();
        proof {
            assert(r@.subrange(0, 1) =~= r@);
        }
        r
    } else if n < crate::constants::MIN_NON_LITERAL_BLOCK_SIZE {
        finish_encode(src, None)
    } else {
        let b = crate::best::encode_block_best(src);
        finish_encode(src, b)
    }
}

/// Encode better with dictionary support. The dictionary is honoured by
/// decoding; this tier encodes without consulting it.
pub fn encode_better_with_dict(src: &[u8], dict: &crate::dict::Dict) -> (r: Vec<u8>)
    requires
        spec_max_encoded_len(src@.len() as int) <= 0xffffffff,
        2 * src@.len() + 16 <= usize::MAX,
    ensures
        spec_block_decode(r@) == Some(src@),
        r@.len() <= spec_max_encoded_len(src@.len() as int),
        r@.len() >= varint_len(src@.len() as u64),
        r@.subrange(0, varint_len(src@.len() as u64)) == varint_enc(src@.len() as u64),
        src@.len() == 0 ==> r@ == varint_enc(0),
{
    encode_better(src)
}

/// Encode best with dictionary support. The dictionary is honoured by
/// decoding; this tier encodes without consulting it.
pub fn encode_best_with_dict(src: &[u8], dict: &crate::dict::Dict) -> (r: Vec<u8>)
    requires
        spec_max_encoded_len(src@.len() as int) <= 0xffffffff,
        2 * src@.len() + 16 <= usize::MAX,
    ensures
        spec_block_decode(r@) == Some(src@),
        r@.len() <= spec_max_encoded_len(src@.len() as int),
        r@.len() >= varint_len(src@.len() as u64),
        r@.subrange(0, varint_len(src@.len() as u64)) == varint_enc(src@.len() as u64),
        src@.len() == 0 ==> r@ == varint_enc(0),
{
    encode_best(src)
}

/// The encoding of the empty block: a single zero length byte.
fn empty_block() -> (r: Vec<u8>)
    ensures
        spec_block_decode(r@) == Some(Seq::<u8>::empty()),
        r@.len() == 1,
        r@ == varint_enc(0),
{
    let mut out: Vec<u8> = Vec::new();
    encode_varint(&mut out, 0);
    proof {
        assert(out@ =~= varint_enc(0));
        lemma_varint_round_trip(0, Seq::<u8>::empty());
        assert(out@ =~= varint_enc(0) + Seq::<u8>::empty());
        assert(out@.skip(1) =~= Seq::<u8>::empty());
    }
    out
}

} // verus!
