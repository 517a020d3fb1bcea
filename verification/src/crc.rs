//! The stream checksum: CRC32C (Castagnoli) over the payload bytes,
//! masked as the framing format prescribes. The checksum is computed
//! here, table-driven, and proved equal to its bitwise definition.

use vstd::prelude::*;

verus! {

/// One bit step of the CRC: shift right, folding in the reflected
/// Castagnoli polynomial when a one bit falls out.
pub open spec fn crc_step(c: u32) -> u32 {
    if c % 2 == 1 {
        (c >> 1) ^ 0x82F63B78
    } else {
        c >> 1
    }
}

/// `k` bit steps.
pub open spec fn crc_steps(c: u32, k: nat) -> u32
    decreases k,
{
    if k == 0 {
        c
    } else {
        crc_step(crc_steps(c, (k - 1) as nat))
    }
}

/// Fold one byte into the running state, least significant bit first.
pub open spec fn crc_update(c: u32, b: u8) -> u32 {
    crc_steps(c ^ (b as u32), 8)
}

/// Fold the bytes of `data` from position `i` on.
pub open spec fn crc_fold(data: Seq<u8>, i: int, c: u32) -> u32
    decreases data.len() - i,
{
    if i < 0 || i >= data.len() {
        c
    } else {
        crc_fold(data, i + 1, crc_update(c, data[i]))
    }
}

/// The CRC32C of a byte sequence: all-ones initial state, every byte
/// folded through eight bit steps, final state complemented. Opaque so
/// that stream proofs treat the checksum as a value.
#[verifier::opaque]
pub open spec fn spec_crc32c(data: Seq<u8>) -> u32 {
    !crc_fold(data, 0, 0xFFFFFFFFu32)
}

/// The bit step distributes over exclusive or.
proof fn lemma_step_linear(x: u32, y: u32)
    ensures
        crc_step(x ^ y) == crc_step(x) ^ crc_step(y),
{
    assert((if (x ^ y) % 2 == 1 {
        ((x ^ y) >> 1) ^ 0x82F63B78u32
    } else {
        (x ^ y) >> 1
    }) == (if x % 2 == 1 {
        (x >> 1) ^ 0x82F63B78u32
    } else {
        x >> 1
    }) ^ (if y % 2 == 1 {
        (y >> 1) ^ 0x82F63B78u32
    } else {
        y >> 1
    })) by (bit_vector);
}

/// So does any number of bit steps.
proof fn lemma_steps_linear(x: u32, y: u32, k: nat)
    ensures
        crc_steps(x ^ y, k) == crc_steps(x, k) ^ crc_steps(y, k),
    decreases k,
{
    if k > 0 {
        lemma_steps_linear(x, y, (k - 1) as nat);
        lemma_step_linear(crc_steps(x, (k - 1) as nat), crc_steps(y, (k - 1) as nat));
    }
}

/// Eight bit steps on a state with a clear low byte are a plain shift.
proof fn lemma_high_steps(x: u32)
    requires
        x % 256 == 0,
    ensures
        crc_steps(x, 8) == x >> 8,
{
    assert((x >> 1) % 2 == 0 && (x >> 2) % 2 == 0 && (x >> 3) % 2 == 0 && (x >> 4) % 2 == 0
        && (x >> 5) % 2 == 0 && (x >> 6) % 2 == 0 && (x >> 7) % 2 == 0 && x % 2 == 0
        && (x >> 1) >> 1 == x >> 2 && (x >> 2) >> 1 == x >> 3 && (x >> 3) >> 1 == x >> 4
        && (x >> 4) >> 1 == x >> 5 && (x >> 5) >> 1 == x >> 6 && (x >> 6) >> 1 == x >> 7
        && (x >> 7) >> 1 == x >> 8) by (bit_vector)
        requires x % 256 == 0;
    assert(crc_steps(x, 0) == x);
    assert(crc_steps(x, 1) == crc_step(crc_steps(x, 0)));
    assert(crc_steps(x, 2) == crc_step(crc_steps(x, 1)));
    assert(crc_steps(x, 3) == crc_step(crc_steps(x, 2)));
    assert(crc_steps(x, 4) == crc_step(crc_steps(x, 3)));
    assert(crc_steps(x, 5) == crc_step(crc_steps(x, 4)));
    assert(crc_steps(x, 6) == crc_step(crc_steps(x, 5)));
    assert(crc_steps(x, 7) == crc_step(crc_steps(x, 6)));
    assert(crc_steps(x, 8) == crc_step(crc_steps(x, 7)));
}

/// A byte fold splits into a table lookup on the low byte and a shift:
/// the identity the table-driven loop rests on.
proof fn lemma_update_table(c: u32, b: u8)
    ensures
        crc_update(c, b) == crc_steps((c ^ (b as u32)) & 0xff, 8) ^ (c >> 8),
{
    let x = c ^ (b as u32);
    let lo = x & 0xff;
    let hi = x & 0xffffff00;
    assert((lo ^ hi) == x && hi % 256 == 0 && hi >> 8 == x >> 8 && x >> 8 == c >> 8)
        by (bit_vector)
        requires x == c ^ (b as u32), lo == x & 0xff, hi == x & 0xffffff00;
    lemma_steps_linear(lo, hi, 8);
    lemma_high_steps(hi);
}

/// The 256-entry table: entry `i` holds eight bit steps applied to `i`.
fn crc_table() -> (t: Vec<u32>)
    ensures
        t@.len() == 256,
        forall|j: int| 0 <= j < 256 ==> #[trigger] t@[j] == crc_steps(j as u32, 8),
{
    let mut t: Vec<u32> = Vec::new();
    let mut i: usize = 0;
    while i < 256
        invariant
            i <= 256,
            t@.len() == i,
            forall|j: int| 0 <= j < i ==> #[trigger] t@[j] == crc_steps(j as u32, 8),
        decreases 256 - i,
    {
        let mut c: u32 = i as u32;
        let mut k: usize = 0;
        while k < 8
            invariant
                k <= 8,
                c == crc_steps(i as u32, k as nat),
        decreases 8 - k,
        {
            if c % 2 == 1 {
                c = (c >> 1) ^ 0x82F63B78;
            } else {
                c = c >> 1;
            }
            k = k + 1;
        }
        t.push(c);
        i = i + 1;
    }
    t
}

/// The CRC32C (Castagnoli) of `data`.
pub fn crc32c(data: &[u8]) -> (r: u32)
    ensures
        r == spec_crc32c(data@),
{
    let table = crc_table();
    let mut state: u32 = 0xFFFFFFFF;
    let mut i: usize = 0;
    while i < data.len()
        invariant
            i <= data@.len(),
            table@.len() == 256,
            forall|j: int| 0 <= j < 256 ==> #[trigger] table@[j] == crc_steps(j as u32, 8),
            crc_fold(data@, i as int, state) == crc_fold(data@, 0, 0xFFFFFFFFu32),
        decreases data@.len() - i,
    {
        let b = data[i];
        let low = (state ^ (b as u32)) & 0xff;
        proof {
            assert(low < 256) by (bit_vector)
                requires low == (state ^ (b as u32)) & 0xff;
            lemma_update_table(state, b);
        }
        let idx = low as usize;
        let ghost pre = state;
        state = table[idx] ^ (state >> 8);
        proof {
            assert(state == crc_update(pre, b));
        }
        i = i + 1;
    }
    proof {
        reveal(spec_crc32c);
    }
    !state
}

/// The mask transform: rotate right by 15, then add the constant.
pub open spec fn spec_mask(c: u32) -> u32 {
    ((((c >> 15) | (c << 17)) + 0xa282ead8) % 0x100000000) as u32
}

/// The masked checksum of a payload.
pub open spec fn spec_crc(data: Seq<u8>) -> u32 {
    spec_mask(spec_crc32c(data))
}

/// Calculate the masked CRC32C checksum for the stream format.
pub fn crc(data: &[u8]) -> (r: u32)
    ensures
        r == spec_crc(data@),
{
    let c = crc32c(data);
    let rotated = (c >> 15) | (c << 17);
    rotated.wrapping_add(0xa282ead8)
}

} // verus!
