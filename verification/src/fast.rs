//! The fast encoder: a single hash table searched with an exponentially
//! widening skip, immediate-match re-checks after each copy, and a
//! worthiness gate that rejects output unless it saves at least a
//! thirty-second of the input.

use vstd::prelude::*;

use vstd::arithmetic::power2::lemma2_to64;
use vstd::arithmetic::power2::pow2;

use crate::block::decodes_to;
use crate::block::lemma_copy_extend_matches;
use crate::block::lemma_decodes_copy;
use crate::block::lemma_decodes_empty;
use crate::block::lemma_decodes_lit;
use crate::emit::emit_copy;
use crate::emit::emit_literal;
use crate::hashing::hash_u32;
use crate::hashing::lemma_le32_inj;
use crate::hashing::load32;
use crate::hashing::zero_table_u32;
use crate::tags::exec_tags;

verus! {

/// Encode one block with the single-table search. `Some(b)` is a tag
/// stream that decodes back to exactly `src` and beats the worthiness
/// gate; `None` asks the caller to fall back to a plain literal.
#[verifier::rlimit(100)]
pub(crate) fn encode_block(src: &[u8]) -> (r: Option<Vec<u8>>)
    requires
        32 <= src@.len() < 0x100000000,
        2 * src@.len() + 16 <= usize::MAX,
    ensures
        match r {
            Some(b) => {
                &&& exec_tags(Seq::<u8>::empty(), b@, Seq::<u8>::empty(), 0, src@.len() as int)
                    matches Some(p) && p.0 == src@
                &&& b@.len() < src@.len() - src@.len() / 32
            },
            None => true,
        },
{
    let ghost ed = Seq::<u8>::empty();
    let n = src.len();
    let shift: u32;
    let table_size: usize;
    if n <= 65536 {
        shift = 18;
        table_size = 16384;
    } else {
        shift = 15;
        table_size = 131072;
    }
    proof {
        lemma2_to64();
        assert(table_size as int == pow2((32 - shift) as nat));
    }
    let mut table = zero_table_u32(table_size);
    let s_limit = n - 8;
    let budget = n - n / 32;
    let mut dst: Vec<u8> = Vec::new();
    let mut next_emit: usize = 0;
    let mut s: usize = 1;
    let ghost mut g_last: int = 0;
    proof {
        lemma_decodes_empty(ed, n as int);
        assert(src@.take(0) =~= Seq::<u8>::empty());
        assert(dst@ =~= Seq::<u8>::empty());
    }
    let mut done = false;
    while !done
        invariant
            n == src@.len(),
            32 <= n < 0x100000000,
            2 * n + 16 <= usize::MAX,
            s_limit == n - 8,
            budget == n - n / 32,
            1 <= shift < 32,
            table@.len() == table_size,
            table_size as int == pow2((32 - shift) as nat),
            forall|j: int| 0 <= j < table@.len() ==> #[trigger] table@[j] as int <= n - 9,
            dst@.len() < budget,
            next_emit <= n,
            decodes_to(ed, dst@, src@.take(next_emit as int), g_last, n as int),
            0 <= g_last < 0x100000000,
            ed == Seq::<u8>::empty(),
            !done ==> 1 <= s <= s_limit && next_emit <= s,
            done ==> next_emit <= n,
        decreases n - next_emit, (if done { 0int } else { 1int }),
    {
        // Search for the next match, skipping faster and faster through
        // incompressible stretches.
        let mut skip: usize = 32;
        let mut candidate: usize = 0;
        let mut found = false;
        while !found && !done
            invariant
                n == src@.len(),
                32 <= n < 0x100000000,
                2 * n + 16 <= usize::MAX,
                s_limit == n - 8,
                1 <= shift < 32,
                table@.len() == table_size,
                table_size as int == pow2((32 - shift) as nat),
                forall|j: int| 0 <= j < table@.len() ==> #[trigger] table@[j] as int <= n - 9,
                1 <= s,
                next_emit <= s,
                32 <= skip <= 33 + s,
                !done ==> s <= s_limit,
                found ==> !done && candidate < s && s < s_limit
                    && (forall|k: int|
                        s <= k < s + 4 ==> #[trigger] src@[k] == src@[candidate + (k - s)]),
            decreases n - s, (if found || done { 0int } else { 1int }),
        {
            proof {
                vstd::bits::lemma_usize_shr_is_div(skip, 5);
                lemma2_to64();
            }
            let next_s = s + (skip >> 5);
            if next_s > s_limit {
                done = true;
            } else {
                assert(s < next_s);
                assert(s <= n - 9);
                let v = load32(src, s);
                let h = hash_u32(v, 0x1e35a7bd, shift);
                candidate = table[h] as usize;
                table.set(h, s as u32);
                let mut hit = false;
                if candidate < s {
                    let w = load32(src, candidate);
                    if v == w {
                        hit = true;
                        proof {
                            lemma_le32_inj(src@, s as int, src@, candidate as int);
                        }
                    }
                }
                if hit {
                    found = true;
                } else {
                    skip = skip + 1;
                    s = next_s;
                }
            }
        }
        if !done {
            // Emit copies as long as immediate matches keep coming.
            let ghost ne0 = next_emit as int;
            let mut inner = true;
            while inner
                invariant
                    n == src@.len(),
                    32 <= n < 0x100000000,
                    2 * n + 16 <= usize::MAX,
                    s_limit == n - 8,
                    budget == n - n / 32,
                    1 <= shift < 32,
                    table@.len() == table_size,
                    table_size as int == pow2((32 - shift) as nat),
                    forall|j: int| 0 <= j < table@.len() ==> #[trigger] table@[j] as int <= n - 9,
                    dst@.len() < budget,
                    next_emit <= n,
                    decodes_to(ed, dst@, src@.take(next_emit as int), g_last, n as int),
                    0 <= g_last < 0x100000000,
                    ed == Seq::<u8>::empty(),
                    inner ==> candidate < s && s < s_limit && next_emit <= s
                        && (forall|k: int|
                            s <= k < s + 4 ==> #[trigger] src@[k] == src@[candidate + (k - s)]),
                    !inner && !done ==> 1 <= s <= s_limit && next_emit <= s,
                    ne0 <= next_emit,
                    !inner ==> ne0 < next_emit,
                decreases n - next_emit,
            {
                // Extend the match backwards.
                let ghost s_f = s as int;
                let ghost off0 = s - candidate;
                while candidate > 0 && s > next_emit && src[candidate - 1] == src[s - 1]
                    invariant
                        n == src@.len(),
                        next_emit <= s,
                        candidate < s,
                        s - candidate == off0,
                        s <= s_f,
                        s_f + 4 <= n,
                        forall|k: int| s <= k < s_f + 4 ==> #[trigger] src@[k] == src@[k - off0],
                    decreases s,
                {
                    candidate = candidate - 1;
                    s = s - 1;
                }
                let base = s;
                let offset = base - candidate;
                // Emit the pending literal.
                if s > next_emit {
                    let ghost pre = dst@;
                    let ghost out0 = src@.take(next_emit as int);
                    emit_literal(&mut dst, &src[next_emit..base]);
                    proof {
                        lemma_decodes_lit(ed, pre, out0, g_last, n as int,
                            src@.subrange(next_emit as int, base as int));
                        assert(out0 + src@.subrange(next_emit as int, base as int)
                            =~= src@.take(base as int));
                    }
                }
                // Extend the match forward.
                let mut m: usize = 4;
                while base + m < n && src[base + m] == src[candidate + m]
                    invariant
                        n == src@.len(),
                        4 <= m,
                        base + m <= n,
                        candidate == base - offset,
                        1 <= offset <= base,
                        forall|k: int| base <= k < base + m ==> #[trigger] src@[k]
                            == src@[k - offset],
                    decreases n - (base + m),
                {
                    m = m + 1;
                }
                s = base + m;
                // Emit the copy.
                let ghost pre = dst@;
                let ghost last0 = g_last;
                emit_copy(&mut dst, offset, m);
                proof {
                    lemma_copy_extend_matches(ed, src@, base as int, offset as int, m as int);
                    lemma_decodes_copy(ed, pre, src@.take(base as int), last0, n as int,
                        offset as int, m as int);
                    g_last = offset as int;
                }
                next_emit = s;
                if dst.len() >= budget {
                    return None;
                }
                if s >= s_limit {
                    done = true;
                    inner = false;
                } else {
                    // Immediate-match re-check: refresh the table at s-2
                    // and s, and continue emitting if s matches at once.
                    if s >= 2 {
                        let v2 = load32(src, s - 2);
                        let h2 = hash_u32(v2, 0x1e35a7bd, shift);
                        table.set(h2, (s - 2) as u32);
                    }
                    let v3 = load32(src, s);
                    let h3 = hash_u32(v3, 0x1e35a7bd, shift);
                    candidate = table[h3] as usize;
                    table.set(h3, s as u32);
                    let mut immediate = false;
                    if candidate < s && s + 4 <= n {
                        let w3 = load32(src, candidate);
                        if v3 == w3 {
                            immediate = true;
                            proof {
                                lemma_le32_inj(src@, s as int, src@, candidate as int);
                            }
                        }
                    }
                    if !immediate {
                        s = s + 1;
                        inner = false;
                    }
                }
            }
        }
    }
    // Emit the remaining bytes as one literal.
    if next_emit < n {
        let ghost pre = dst@;
        let ghost out0 = src@.take(next_emit as int);
        emit_literal(&mut dst, &src[next_emit..n]);
        proof {
            lemma_decodes_lit(ed, pre, out0, g_last, n as int,
                src@.subrange(next_emit as int, n as int));
            assert(out0 + src@.subrange(next_emit as int, n as int) =~= src@.take(n as int));
        }
    }
    // The worthiness gate.
    if dst.len() >= budget {
        return None;
    }
    proof {
        assert(src@.take(n as int) =~= src@);
        crate::block::lemma_decodes_complete(ed, dst@, src@, g_last, n as int);
    }
    Some(dst)
}

} // verus!
