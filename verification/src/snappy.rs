//! The Snappy-compatible encoder: the fast search, but copies are emitted
//! without repeat tags, and the forward extension works in whole eight-byte
//! windows only, as the Snappy reference does.

use vstd::prelude::*;

use vstd::arithmetic::power2::lemma2_to64;
use vstd::arithmetic::power2::pow2;

use crate::block::decodes_to;
use crate::block::lemma_copy_extend_matches;
use crate::block::lemma_decodes_copy_nr;
use crate::block::lemma_decodes_empty;
use crate::block::lemma_decodes_lit;
use crate::emit::emit_copy_no_repeat;
use crate::emit::emit_literal;
use crate::hashing::hash_u32;
use crate::hashing::lemma_le32_inj;
use crate::hashing::load32;
use crate::hashing::zero_table_u32;
use crate::tags::exec_tags;

verus! {

/// Encode one block in Snappy-compatible form: no repeat-offset tags.
/// `Some(b)` decodes back to exactly `src` and beats the worthiness gate.
#[verifier::rlimit(100)]
pub(crate) fn encode_block_snappy(src: &[u8]) -> (r: Option<Vec<u8>>)
    requires
        32 <= src@.len() < 0x100000000,
        2 * src@.len() + 16 <= usize::MAX,
    ensures
        match r {
            Some(b) => {
                &&& exec_tags(Seq::<u8>::empty(), b@, Seq::<u8>::empty(), 0, src@.len() as int)
                    matches Some(p) && p.0 == src@
                &&& b@.len() < src@.len() - src@.len() / 32
            },
            None => true,
        },
{
    let ghost ed = Seq::<u8>::empty();
    let n = src.len();
    let shift: u32 = 18;
    let table_size: usize = 16384;
    proof {
        lemma2_to64();
        assert(table_size as int == pow2((32 - shift) as nat));
    }
    let mut table = zero_table_u32(table_size);
    let s_limit = n - 8;
    let budget = n - n / 32;
    let mut dst: Vec<u8> = Vec::new();
    let mut next_emit: usize = 0;
    let mut s: usize = 1;
    let ghost mut g_last: int = 0;
    proof {
        lemma_decodes_empty(ed, n as int);
        assert(src@.take(0) =~= Seq::<u8>::empty());
        assert(dst@ =~= Seq::<u8>::empty());
    }
    let mut done = false;
    while !done
        invariant
            n == src@.len(),
            32 <= n < 0x100000000,
            2 * n + 16 <= usize::MAX,
            s_limit == n - 8,
            budget == n - n / 32,
            shift == 18,
            table@.len() == table_size,
            table_size as int == pow2((32 - shift) as nat),
            forall|j: int| 0 <= j < table@.len() ==> #[trigger] table@[j] as int <= n - 9,
            dst@.len() < budget,
            next_emit <= n,
            decodes_to(ed, dst@, src@.take(next_emit as int), g_last, n as int),
            0 <= g_last < 0x100000000,
            ed == Seq::<u8>::empty(),
            !done ==> 1 <= s <= s_limit && next_emit <= s,
            done ==> next_emit <= n,
        decreases n - next_emit, (if done { 0int } else { 1int }),
    {
        let mut skip: usize = 32;
        let mut candidate: usize = 0;
        let mut found = false;
        while !found && !done
            invariant
                n == src@.len(),
                32 <= n < 0x100000000,
                2 * n + 16 <= usize::MAX,
                s_limit == n - 8,
                shift == 18,
                table@.len() == table_size,
                table_size as int == pow2((32 - shift) as nat),
                forall|j: int| 0 <= j < table@.len() ==> #[trigger] table@[j] as int <= n - 9,
                1 <= s,
                next_emit <= s,
                32 <= skip <= 33 + s,
                !done ==> s <= s_limit,
                found ==> !done && candidate < s && s < s_limit
                    && (forall|k: int|
                        s <= k < s + 4 ==> #[trigger] src@[k] == src@[candidate + (k - s)]),
            decreases n - s, (if found || done { 0int } else { 1int }),
        {
            proof {
                vstd::bits::lemma_usize_shr_is_div(skip, 5);
                lemma2_to64();
            }
            let next_s = s + (skip >> 5);
            if next_s > s_limit {
                done = true;
            } else {
                assert(s < next_s);
                assert(s <= n - 9);
                let v = load32(src, s);
                let h = hash_u32(v, 0x1e35a7bd, shift);
                candidate = table[h] as usize;
                table.set(h, s as u32);
                let mut hit = false;
                if candidate < s {
                    let w = load32(src, candidate);
                    if v == w {
                        hit = true;
                        proof {
                            lemma_le32_inj(src@, s as int, src@, candidate as int);
                        }
                    }
                }
                if hit {
                    found = true;
                } else {
                    skip = skip + 1;
                    s = next_s;
                }
            }
        }
        if !done {
            // Extend the match backwards.
            let ghost s_f = s as int;
            let ghost off0 = s - candidate;
            while candidate > 0 && s > next_emit && src[candidate - 1] == src[s - 1]
                invariant
                    n == src@.len(),
                    next_emit <= s,
                    candidate < s,
                    s - candidate == off0,
                    s <= s_f,
                    s_f + 4 <= n,
                    forall|k: int| s <= k < s_f + 4 ==> #[trigger] src@[k] == src@[k - off0],
                decreases s,
            {
                candidate = candidate - 1;
                s = s - 1;
            }
            let base = s;
            let offset = base - candidate;
            // Emit the pending literal.
            if s > next_emit {
                let ghost pre = dst@;
                let ghost out0 = src@.take(next_emit as int);
                emit_literal(&mut dst, &src[next_emit..base]);
                proof {
                    lemma_decodes_lit(ed, pre, out0, g_last, n as int,
                        src@.subrange(next_emit as int, base as int));
                    assert(out0 + src@.subrange(next_emit as int, base as int)
                        =~= src@.take(base as int));
                }
            }
            // Extend forward in whole eight-byte windows.
            let mut m: usize = 4;
            let mut extending = true;
            while extending
                invariant
                    n == src@.len(),
                    2 * n + 16 <= usize::MAX,
                    4 <= m,
                    base + m <= n,
                    candidate == base - offset,
                    1 <= offset <= base,
                    base + 4 <= n,
                    forall|k: int| base <= k < base + m ==> #[trigger] src@[k] == src@[k - offset],
                decreases n - (base + m), (if extending { 1int } else { 0int }),
            {
                if base + m + 8 > n {
                    extending = false;
                } else {
                    let mut j: usize = 0;
                    while j < 8 && src[base + m + j] == src[candidate + m + j]
                        invariant
                            n == src@.len(),
                            j <= 8,
                            base + m + 8 <= n,
                            candidate == base - offset,
                            1 <= offset <= base,
                            forall|k: int| base <= k < base + m + j ==> #[trigger] src@[k]
                                == src@[k - offset],
                            forall|k: int| base <= k < base + m ==> #[trigger] src@[k]
                                == src@[k - offset],
                        decreases 8 - j,
                    {
                        j = j + 1;
                    }
                    m = m + j;
                    if j < 8 {
                        extending = false;
                    }
                }
            }
            s = base + m;
            // Emit the copy, Snappy style.
            let ghost pre = dst@;
            let ghost last0 = g_last;
            emit_copy_no_repeat(&mut dst, offset, m);
            proof {
                lemma_copy_extend_matches(ed, src@, base as int, offset as int, m as int);
                lemma_decodes_copy_nr(ed, pre, src@.take(base as int), last0, n as int,
                    offset as int, m as int);
                g_last = offset as int;
            }
            next_emit = s;
            if dst.len() >= budget {
                return None;
            }
            if s >= s_limit {
                done = true;
            } else {
                // Refresh the table at the byte before the new position.
                let v1 = load32(src, s - 1);
                let h1 = hash_u32(v1, 0x1e35a7bd, shift);
                table.set(h1, (s - 1) as u32);
                s = s + 1;
            }
        }
    }
    // Emit the remaining bytes as one literal.
    if next_emit < n {
        let ghost pre = dst@;
        let ghost out0 = src@.take(next_emit as int);
        emit_literal(&mut dst, &src[next_emit..n]);
        proof {
            lemma_decodes_lit(ed, pre, out0, g_last, n as int,
                src@.subrange(next_emit as int, n as int));
            assert(out0 + src@.subrange(next_emit as int, n as int) =~= src@.take(n as int));
        }
    }
    // The worthiness gate.
    if dst.len() >= budget {
        return None;
    }
    proof {
        assert(src@.take(n as int) =~= src@);
        crate::block::lemma_decodes_complete(ed, dst@, src@, g_last, n as int);
    }
    Some(dst)
}

} // verus!
