//! Byte-window loads and the hash functions the encoders probe their
//! tables with. A hash value only picks a slot, so nothing is stated
//! about it beyond its range; the loads, whose equality is what makes a
//! match, are pinned to the little-endian value of their window.

use vstd::prelude::*;

use vstd::arithmetic::power2::pow2;
use vstd::arithmetic::power2::lemma_pow2_adds;
use vstd::arithmetic::power2::lemma_pow2_pos;
use vstd::arithmetic::power2::lemma2_to64;
use vstd::bits::lemma_u32_shr_is_div;
use vstd::bits::lemma_u64_shr_is_div;

verus! {

/// The value of the four bytes at `i`, little-endian.
pub open spec fn le32_at(s: Seq<u8>, i: int) -> int {
    s[i] + 256 * (s[i + 1] as int) + 65536 * (s[i + 2] as int) + 16777216 * (s[i + 3] as int)
}

/// The value of the eight bytes at `i`, little-endian.
pub open spec fn le64_at(s: Seq<u8>, i: int) -> int {
    le32_at(s, i) + 0x100000000 * le32_at(s, i + 4)
}

/// Equal four-byte values mean equal bytes.
pub proof fn lemma_le32_inj(s: Seq<u8>, i: int, t: Seq<u8>, j: int)
    requires
        0 <= i,
        i + 4 <= s.len(),
        0 <= j,
        j + 4 <= t.len(),
        le32_at(s, i) == le32_at(t, j),
    ensures
        forall|k: int| i <= k < i + 4 ==> #[trigger] s[k] == t[j + (k - i)],
{
    assert(s[i] == t[j] && s[i + 1] == t[j + 1] && s[i + 2] == t[j + 2] && s[i + 3] == t[j + 3])
        by (nonlinear_arith)
        requires
            le32_at(s, i) == le32_at(t, j),
            0 <= s[i] < 256,
            0 <= s[i + 1] < 256,
            0 <= s[i + 2] < 256,
            0 <= s[i + 3] < 256,
            0 <= t[j] < 256,
            0 <= t[j + 1] < 256,
            0 <= t[j + 2] < 256,
            0 <= t[j + 3] < 256,
            le32_at(s, i) == s[i] + 256 * (s[i + 1] as int) + 65536 * (s[i + 2] as int)
                + 16777216 * (s[i + 3] as int),
            le32_at(t, j) == t[j] + 256 * (t[j + 1] as int) + 65536 * (t[j + 2] as int)
                + 16777216 * (t[j + 3] as int),
    ;
    assert forall|k: int| i <= k < i + 4 implies #[trigger] s[k] == t[j + (k - i)] by {
        assert(s[i] == t[j] || true);
    }
}

/// Equal eight-byte values mean equal bytes.
pub proof fn lemma_le64_inj(s: Seq<u8>, i: int, t: Seq<u8>, j: int)
    requires
        0 <= i,
        i + 8 <= s.len(),
        0 <= j,
        j + 8 <= t.len(),
        le64_at(s, i) == le64_at(t, j),
    ensures
        forall|k: int| i <= k < i + 8 ==> #[trigger] s[k] == t[j + (k - i)],
{
    assert(0 <= le32_at(s, i) < 0x100000000);
    assert(0 <= le32_at(t, j) < 0x100000000);
    assert(le32_at(s, i) == le32_at(t, j) && le32_at(s, i + 4) == le32_at(t, j + 4))
        by (nonlinear_arith)
        requires
            le64_at(s, i) == le64_at(t, j),
            le64_at(s, i) == le32_at(s, i) + 0x100000000 * le32_at(s, i + 4),
            le64_at(t, j) == le32_at(t, j) + 0x100000000 * le32_at(t, j + 4),
            0 <= le32_at(s, i) < 0x100000000,
            0 <= le32_at(t, j) < 0x100000000,
    ;
    lemma_le32_inj(s, i, t, j);
    lemma_le32_inj(s, i + 4, t, j + 4);
    assert forall|k: int| i <= k < i + 8 implies #[trigger] s[k] == t[j + (k - i)] by {
        if k < i + 4 {
            assert(s[k] == t[j + (k - i)]);
        } else {
            assert(s[k] == t[j + 4 + (k - (i + 4))]);
        }
    }
}

/// Load four bytes, little-endian.
pub fn load32(src: &[u8], i: usize) -> (r: u32)
    requires
        i + 4 <= src@.len(),
    ensures
        r as int == le32_at(src@, i as int),
{
    src[i] as u32 + 256 * (src[i + 1] as u32) + 65536 * (src[i + 2] as u32)
        + 16777216 * (src[i + 3] as u32)
}

/// Load eight bytes, little-endian.
pub fn load64(src: &[u8], i: usize) -> (r: u64)
    requires
        i + 8 <= src@.len(),
    ensures
        r as int == le64_at(src@, i as int),
{
    let slen = src.len();
    let lo = load32(src, i);
    let hi = load32(src, i + 4);
    lo as u64 + 0x100000000u64 * (hi as u64)
}

/// A multiplicative hash of a 32-bit window, reduced to a table slot by
/// the shift. Only the range matters.
pub fn hash_u32(v: u32, mul: u32, shift: u32) -> (h: usize)
    requires
        1 <= shift < 32,
    ensures
        h < pow2((32 - shift) as nat),
{
    let x = v.wrapping_mul(mul);
    let r = x >> shift;
    proof {
        lemma_u32_shr_is_div(x, shift);
        lemma_pow2_adds(shift as nat, (32 - shift) as nat);
        lemma_pow2_pos(shift as nat);
        lemma_pow2_pos((32 - shift) as nat);
        lemma2_to64();
        assert((x as nat) / pow2(shift as nat) < pow2((32 - shift) as nat)) by (nonlinear_arith)
            requires
                (x as nat) < pow2(32),
                pow2(32) == pow2(shift as nat) * pow2((32 - shift) as nat),
                pow2(shift as nat) >= 1,
                pow2((32 - shift) as nat) >= 1,
        ;
    }
    r as usize
}

/// A multiplicative hash of a 64-bit window, reduced to a table slot by
/// the shift. Only the range matters.
pub fn hash_u64(v: u64, mul: u64, shift: u32) -> (h: usize)
    requires
        33 <= shift < 64,
    ensures
        h < pow2((64 - shift) as nat),
{
    let x = v.wrapping_mul(mul);
    let r = x >> (shift as u64);
    proof {
        lemma_u64_shr_is_div(x, shift as u64);
        lemma_pow2_adds(shift as nat, (64 - shift) as nat);
        lemma_pow2_pos(shift as nat);
        lemma_pow2_pos((64 - shift) as nat);
        lemma2_to64();
        vstd::arithmetic::power2::lemma2_to64_rest();
        assert((x as nat) / pow2(shift as nat) < pow2((64 - shift) as nat)) by (nonlinear_arith)
            requires
                (x as nat) < pow2(64),
                pow2(64) == pow2(shift as nat) * pow2((64 - shift) as nat),
                pow2(shift as nat) >= 1,
                pow2((64 - shift) as nat) >= 1,
        ;
        vstd::bits::lemma_u64_pow2_no_overflow((64 - shift) as nat);
        assert(pow2((64 - shift) as nat) < u64::MAX);
    }
    r as usize
}

/// A table of `n` empty slots.
pub fn zero_table_u32(n: usize) -> (t: Vec<u32>)
    ensures
        t@.len() == n,
        forall|j: int| 0 <= j < n ==> t@[j] == 0,
{
    let mut t: Vec<u32> = Vec::new();
    let mut i: usize = 0;
    while i < n
        invariant
            i <= n,
            t@.len() == i,
            forall|j: int| 0 <= j < i ==> t@[j] == 0,
        decreases n - i,
    {
        t.push(0);
        i = i + 1;
    }
    t
}

/// A table of `n` empty slots, 64-bit.
pub fn zero_table_u64(n: usize) -> (t: Vec<u64>)
    ensures
        t@.len() == n,
        forall|j: int| 0 <= j < n ==> t@[j] == 0,
{
    let mut t: Vec<u64> = Vec::new();
    let mut i: usize = 0;
    while i < n
        invariant
            i <= n,
            t@.len() == i,
            forall|j: int| 0 <= j < i ==> t@[j] == 0,
        decreases n - i,
    {
        t.push(0);
        i = i + 1;
    }
    t
}

/// The longest common prefix of two byte slices.
pub fn match_len(a: &[u8], b: &[u8]) -> (n: usize)
    ensures
        n <= a@.len() && n <= b@.len(),
        forall|i: int| 0 <= i < n ==> a@[i] == b@[i],
        n < a@.len() && n < b@.len() ==> a@[n as int] != b@[n as int],
{
    let limit = if a.len() < b.len() {
        a.len()
    } else {
        b.len()
    };
    let mut n: usize = 0;
    while n < limit
        invariant
            n <= limit,
            limit <= a@.len() && limit <= b@.len(),
            limit == if a@.len() < b@.len() { a@.len() } else { b@.len() },
            forall|i: int| 0 <= i < n ==> a@[i] == b@[i],
        decreases limit - n,
    {
        if a[n] != b[n] {
            return n;
        }
        n = n + 1;
    }
    n
}

} // verus!
