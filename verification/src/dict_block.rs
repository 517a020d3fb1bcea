//! The dictionary-aware encoder: the fast search with the hash table
//! pre-seeded from the dictionary, emitting copies whose offsets reach
//! through the start of the output into the virtually prepended bytes.

use vstd::prelude::*;

use vstd::arithmetic::power2::lemma2_to64;

use crate::block::decodes_to;
use crate::block::lemma_copy_extend_matches;
use crate::block::lemma_decodes_copy;
use crate::block::lemma_decodes_empty;
use crate::block::lemma_decodes_lit;
use crate::block::lemma_decodes_rep;
use crate::emit::emit_copy;
use crate::emit::emit_literal;
use crate::emit::emit_repeat;
use crate::hashing::hash_u32;
use crate::hashing::hash_u64;
use crate::hashing::lemma_le64_inj;
use crate::hashing::load32;
use crate::hashing::load64;
use crate::hashing::zero_table_u32;
use crate::tags::exec_tags;

verus! {

/// Encode one block against a dictionary. `Some(b)` is a tag stream that,
/// decoded with the same dictionary prepended, yields exactly `src`, and
/// beats the worthiness gate.
#[verifier::rlimit(100)]
pub(crate) fn encode_block_dict(src: &[u8], dict: &[u8], dict_repeat: usize) -> (r: Option<
    Vec<u8>,
>)
    requires
        32 <= src@.len() < 0x100000000,
        2 * src@.len() + 32 <= usize::MAX,
        src@.len() + 65552 < 0x100000000,
        8 <= dict@.len() <= 65536,
        dict_repeat <= dict@.len(),
    ensures
        match r {
            Some(b) => {
                &&& exec_tags(dict@, b@, Seq::<u8>::empty(), 0, src@.len() as int)
                    matches Some(p) && p.0 == src@
                &&& b@.len() < src@.len() - src@.len() / 32
            },
            None => true,
        },
{
    let n = src.len();
    let dict_len = dict.len();
    proof {
        lemma2_to64();
        vstd::arithmetic::power2::lemma2_to64_rest();
    }
    let mut table = zero_table_u32(16384);
    // Pre-seed the table with dictionary windows, marked by the top bit.
    let mut i: usize = 0;
    while i + 8 < dict_len
        invariant
            i <= dict_len,
            dict_len == dict@.len(),
            8 <= dict_len <= 65536,
            table@.len() == 16384,
        decreases dict_len - i,
    {
        proof {
            lemma2_to64();
            vstd::arithmetic::power2::lemma2_to64_rest();
        }
        let cv = load64(dict, i);
        let h = hash_u64(cv, 0xcf1bbcdcb7a56463, 50);
        table.set(h, ((dict_len - i) as u32) | 0x80000000);
        i = i + 1;
    }
    let s_limit = n - 8;
    let budget_break = n - n / 32 - 6;
    let mut dst: Vec<u8> = Vec::new();
    let mut next_emit: usize = 0;
    let mut s: usize = 1;
    let mut repeat: usize = dict_len - dict_repeat;
    let mut emitted = false;
    let ghost mut g_last: int = 0;
    proof {
        lemma_decodes_empty(dict@, n as int);
        assert(src@.take(0) =~= Seq::<u8>::empty());
        assert(dst@ =~= Seq::<u8>::empty());
    }
    let mut done = false;
    while !done
        invariant
            n == src@.len(),
            32 <= n < 0x100000000,
            2 * n + 32 <= usize::MAX,
            n + 65552 < 0x100000000,
            dst@.len() <= n - n / 32 + next_emit + 16,
            !done ==> dst@.len() < budget_break,
            dict_len == dict@.len(),
            8 <= dict_len <= 65536,
            s_limit == n - 8,
            budget_break == n - n / 32 - 6,
            table@.len() == 16384,
            next_emit <= n,
            decodes_to(dict@, dst@, src@.take(next_emit as int), g_last, n as int),
            0 <= g_last < 0x100000000,
            repeat < 0x100000000,
            emitted ==> g_last == repeat && repeat >= 1,
            1 <= s <= n,
            !done ==> s <= s_limit && next_emit <= s,
        decreases n - next_emit, n - s, (if done { 0int } else { 1int }),
    {
        proof {
            lemma2_to64();
            vstd::arithmetic::power2::lemma2_to64_rest();
        }
        // Search, preferring whichever candidate the table holds.
        let mut candidate: usize = 0;
        let mut from_dict = false;
        let mut found = false;
        let ghost s0 = s as int;
        while !found && !done
            invariant
                n == src@.len(),
                32 <= n < 0x100000000,
                2 * n + 32 <= usize::MAX,
                dict_len == dict@.len(),
                8 <= dict_len <= 65536,
                s_limit == n - 8,
                table@.len() == 16384,
                1 <= s <= s_limit,
                next_emit <= s,
                s0 <= s,
                found ==> !done && s + 8 <= n && next_emit <= s && (if from_dict {
                    candidate + 8 <= dict_len && (forall|k: int|
                        s <= k < s + 4 ==> #[trigger] src@[k] == dict@[candidate + (k - s)])
                } else {
                    candidate < s && candidate + 8 <= n && (forall|k: int|
                        s <= k < s + 4 ==> #[trigger] src@[k] == src@[candidate + (k - s)])
                }),
            decreases n - s, (if found || done { 0int } else { 1int }),
        {
            proof {
                lemma2_to64();
                vstd::arithmetic::power2::lemma2_to64_rest();
            }
            let next_s = s + (s - next_emit) / 128 + 1;
            if next_s > s_limit {
                done = true;
            } else {
                assert(s < next_s);
                let cv = load64(src, s);
                let v32 = load32(src, s);
                let h = hash_u32(v32, 0x1e35a7bd, 18);
                let tv = table[h];
                table.set(h, s as u32);
                let mut hit = false;
                if tv >= 0x80000000 {
                    // A dictionary window.
                    let dict_offset = (tv - 0x80000000) as usize;
                    if dict_offset >= 1 && dict_offset <= dict_len && dict_len - dict_offset + 8
                        <= dict_len {
                        let cand = dict_len - dict_offset;
                        if cand + 8 <= dict_len {
                            let dict_cv = load64(dict, cand);
                            if cv == dict_cv {
                                candidate = cand;
                                from_dict = true;
                                hit = true;
                                proof {
                                    lemma_le64_inj(src@, s as int, dict@, candidate as int);
                                }
                            }
                        }
                    }
                } else {
                    let cand = tv as usize;
                    if cand > 0 && cand < s && cand + 8 <= n {
                        let cand_cv = load64(src, cand);
                        if cv == cand_cv {
                            candidate = cand;
                            from_dict = false;
                            hit = true;
                            proof {
                                lemma_le64_inj(src@, s as int, src@, candidate as int);
                            }
                        }
                    }
                }
                if hit {
                    found = true;
                } else {
                    s = next_s;
                }
            }
        }
        if !done {
            // Emit the pending literal.
            let base = s;
            if base > next_emit {
                let ghost pre = dst@;
                let ghost out0 = src@.take(next_emit as int);
                emit_literal(&mut dst, &src[next_emit..base]);
                proof {
                    lemma_decodes_lit(dict@, pre, out0, g_last, n as int,
                        src@.subrange(next_emit as int, base as int));
                    assert(out0 + src@.subrange(next_emit as int, base as int)
                        =~= src@.take(base as int));
                }
            }
            // Extend the match and emit the copy.
            let offset: usize;
            let mut length: usize = 4;
            if from_dict {
                let max_len = if dict_len - candidate < n - base {
                    dict_len - candidate
                } else {
                    n - base
                };
                while length < max_len && dict[candidate + length] == src[base + length]
                    invariant
                        n == src@.len(),
                        dict_len == dict@.len(),
                        4 <= length <= max_len,
                        max_len <= dict_len - candidate,
                        max_len <= n - base,
                        candidate + 4 <= dict_len,
                        forall|k: int| base <= k < base + length ==> #[trigger] src@[k]
                            == dict@[candidate + (k - base)],
                    decreases max_len - length,
                {
                    length = length + 1;
                }
                offset = dict_len - candidate + base;
            } else {
                let remain = n - base;
                while length < remain && src[candidate + length] == src[base + length]
                    invariant
                        n == src@.len(),
                        4 <= length <= remain,
                        remain == n - base,
                        candidate < base,
                        candidate + 4 <= n,
                        forall|k: int| base <= k < base + length ==> #[trigger] src@[k]
                            == src@[candidate + (k - base)],
                    decreases remain - length,
                {
                    length = length + 1;
                }
                offset = base - candidate;
            }
            let ghost pre = dst@;
            let ghost last0 = g_last;
            proof {
                if from_dict {
                    assert forall|j: int|
                        dict@.len() + base <= j < dict@.len() + base + length implies #[trigger] (
                    dict@ + src@)[j] == (dict@ + src@)[j - offset] by {
                        let i1 = j - dict@.len() - base;
                        assert((dict@ + src@)[j] == src@[base + i1]);
                        assert(j - offset == candidate + i1);
                        assert((dict@ + src@)[candidate + i1] == dict@[candidate + i1]);
                    }
                } else {
                    assert forall|j: int|
                        dict@.len() + base <= j < dict@.len() + base + length implies #[trigger] (
                    dict@ + src@)[j] == (dict@ + src@)[j - offset] by {
                        let i1 = j - dict@.len() - base;
                        assert((dict@ + src@)[j] == src@[base + i1]);
                        assert(j - offset == dict@.len() + (base - offset) + i1);
                        assert((dict@ + src@)[j - offset] == src@[base - offset + i1]);
                    }
                }
                lemma_copy_extend_matches(dict@, src@, base as int, offset as int, length as int);
            }
            if emitted && offset == repeat {
                emit_repeat(&mut dst, offset, length);
                proof {
                    lemma_decodes_rep(dict@, pre, src@.take(base as int), n as int, offset as int,
                        length as int);
                }
            } else {
                emit_copy(&mut dst, offset, length);
                repeat = offset;
                proof {
                    lemma_decodes_copy(dict@, pre, src@.take(base as int), last0, n as int,
                        offset as int, length as int);
                }
            }
            emitted = true;
            proof {
                g_last = offset as int;
            }
            next_emit = base + length;
            s = base + length;
            if dst.len() >= budget_break {
                done = true;
            } else if s >= s_limit {
                done = true;
            }
        }
    }
    // Emit the remaining bytes as one literal.
    if next_emit < n {
        let ghost pre = dst@;
        let ghost out0 = src@.take(next_emit as int);
        emit_literal(&mut dst, &src[next_emit..n]);
        proof {
            lemma_decodes_lit(dict@, pre, out0, g_last, n as int,
                src@.subrange(next_emit as int, n as int));
            assert(out0 + src@.subrange(next_emit as int, n as int) =~= src@.take(n as int));
        }
    }
    // The worthiness gate.
    if dst.len() >= n - n / 32 {
        return None;
    }
    proof {
        assert(src@.take(n as int) =~= src@);
        crate::block::lemma_decodes_complete(dict@, dst@, src@, g_last, n as int);
    }
    Some(dst)
}

} // verus!
