//! The best encoder: the largest tables, chained so each slot remembers
//! two positions, with candidates scored by the exact cost of emitting
//! them and probes one and two bytes ahead of every hit.

use vstd::prelude::*;

use crate::block::decodes_to;
use crate::block::lemma_copy_extend_matches;
use crate::block::lemma_decodes_copy;
use crate::block::lemma_decodes_empty;
use crate::block::lemma_decodes_lit;
use crate::block::lemma_decodes_rep;
use crate::emit::emit_copy;
use crate::emit::emit_literal;
use crate::emit::emit_repeat;
use crate::hashing::hash_u32;
use crate::hashing::hash_u64;
use crate::hashing::lemma_le32_inj;
use crate::hashing::load32;
use crate::hashing::load64;
use crate::hashing::zero_table_u64;
use crate::tags::exec_tags;

verus! {

/// A scored candidate match: `offset` is the candidate position, `s` the
/// position it matches, `length` its extent (zero for no match at all).
struct BestMatch {
    offset: usize,
    s: usize,
    length: usize,
    score: i64,
    rep: bool,
}

/// A candidate is sound when it stands for a real match within bounds,
/// with a bounded score; a repeat candidate repeats the current offset.
spec fn m_wf(m: BestMatch, src: Seq<u8>, rep_off: int) -> bool {
    m.length == 0 || {
        &&& 4 <= m.length
        &&& m.offset < m.s
        &&& m.s + m.length <= src.len()
        &&& forall|k: int|
            m.s <= k < m.s + m.length ==> #[trigger] src[k] == src[k - (m.s - m.offset)]
        &&& m.rep ==> m.s - m.offset == rep_off
        &&& m.s <= src.len()
        &&& -3 * (src.len() as int) - 10 <= m.score <= 3 * (src.len() as int) + 10
    }
}

/// The exact byte cost `emit_repeat` is assumed to take for scoring.
fn emit_repeat_size(offset: usize, length: usize) -> (r: usize)
    requires
        4 <= length < 0x100000000,
        length + 16 <= usize::MAX,
    ensures
        2 <= r <= length + 8,
    decreases length,
{
    if length <= 8 || (length < 12 && offset < 2048) {
        return 2;
    }
    if length < 264 {
        return 3;
    }
    if length < 65796 {
        return 4;
    }
    let remaining = length - 65532;
    if remaining > 0xffffff {
        let left = remaining - 0xffffff + 4;
        return 5 + emit_repeat_size(offset, left);
    }
    5
}

/// The exact byte cost `emit_copy` is assumed to take for scoring.
fn emit_copy_size(offset: usize, length: usize) -> (r: usize)
    requires
        4 <= length < 0x100000000,
        length + 16 <= usize::MAX,
    ensures
        2 <= r <= length + 8,
{
    if offset >= 65536 {
        if length > 64 {
            let remaining = length - 64;
            if remaining >= 4 {
                return 5 + emit_repeat_size(offset, remaining);
            }
            if remaining == 0 {
                return 5;
            }
            return 10;
        }
        return 5;
    }
    if length > 64 {
        if offset < 2048 {
            return 2 + emit_repeat_size(offset, length - 8);
        }
        return 3 + emit_repeat_size(offset, length - 60);
    }
    if length >= 12 || offset >= 2048 {
        return 3;
    }
    2
}

/// Probe one candidate position: verify four bytes, extend to the full
/// common extent, and score the result; an unusable candidate comes back
/// with length zero.
fn match_at(
    src: &[u8],
    cand: usize,
    m_s: usize,
    rep: bool,
    best: &BestMatch,
    next_emit: usize,
    repeat: usize,
) -> (m: BestMatch)
    requires
        m_s + 4 <= src@.len(),
        src@.len() < 0x100000000,
        src@.len() + 16 <= usize::MAX,
        m_wf(*best, src@, repeat as int),
        rep ==> cand + repeat == m_s && repeat >= 1,
    ensures
        m_wf(m, src@, repeat as int),
        m.length != 0 ==> m.s == m_s && m.rep == rep,
{
    let n = src.len();
    if cand >= m_s || cand + 4 > n {
        return BestMatch { offset: 0, s: 0, length: 0, score: 0, rep: false };
    }
    if best.length != 0 && best.s - best.offset == m_s - cand {
        // Same offset as the best so far: no point retesting.
        return BestMatch { offset: 0, s: 0, length: 0, score: 0, rep: false };
    }
    let v = load32(src, m_s);
    let w = load32(src, cand);
    if v != w {
        return BestMatch { offset: 0, s: 0, length: 0, score: 0, rep: false };
    }
    proof {
        lemma_le32_inj(src@, m_s as int, src@, cand as int);
    }
    let mut len: usize = 4;
    while m_s + len < n && src[m_s + len] == src[cand + len]
        invariant
            n == src@.len(),
            4 <= len,
            m_s + len <= n,
            cand < m_s,
            forall|k: int| m_s <= k < m_s + len ==> #[trigger] src@[k]
                == src@[k - (m_s - cand)],
        decreases n - (m_s + len),
    {
        len = len + 1;
    }
    let off = m_s - cand;
    let mut score: i64 = len as i64 - m_s as i64;
    if next_emit == m_s {
        score = score + 1;
    }
    let cost = if rep {
        emit_repeat_size(off, len)
    } else {
        emit_copy_size(off, len)
    };
    score = score - cost as i64;
    if score <= -(m_s as i64) {
        return BestMatch { offset: 0, s: 0, length: 0, score: 0, rep: false };
    }
    BestMatch { offset: cand, s: m_s, length: len, score, rep }
}

/// The better of two scored candidates, preferring the one placed earlier
/// on a tie.
fn best_of(src_len: usize, a: BestMatch, b: BestMatch, Ghost(src): Ghost<Seq<u8>>, Ghost(rep_off): Ghost<int>) -> (r: BestMatch)
    requires
        m_wf(a, src, rep_off),
        m_wf(b, src, rep_off),
        src.len() == src_len < 0x100000000,
    ensures
        m_wf(r, src, rep_off),
        r == a || r == b,
        b.length == 0 ==> r == a,
        a.length == 0 && b.length != 0 ==> r == b,
{
    if b.length == 0 {
        return a;
    }
    if a.length == 0 {
        return b;
    }
    let a_score = a.score + b.s as i64;
    let b_score = b.score + a.s as i64;
    if a_score >= b_score {
        a
    } else {
        b
    }
}

/// The current (low) half of a chained table slot.
fn get_cur(x: u64) -> (r: usize)
    ensures
        r < 0x100000000,
{
    (x % 0x100000000) as usize
}

/// The previous (high) half of a chained table slot.
fn get_prev(x: u64) -> (r: usize)
    ensures
        r < 0x100000000,
{
    (x / 0x100000000) as usize
}


/// After a hit, look one and two bytes ahead, and at the end of the best
/// match so far, for a better-scoring candidate. Reads the tables only.
#[verifier::rlimit(100)]
fn probe_more(
    src: &[u8],
    s: usize,
    cv: u64,
    best0: BestMatch,
    next_emit: usize,
    repeat: usize,
    l_table: &Vec<u64>,
    s_table: &Vec<u64>,
    s_limit: usize,
) -> (r: BestMatch)
    requires
        src@.len() < 0x100000000,
        src@.len() + 16 <= usize::MAX,
        s_limit == src@.len() - 8,
        32 <= src@.len(),
        s + 8 <= src@.len(),
        next_emit <= s,
        1 <= repeat < 0x100000000,
        l_table@.len() == 524288,
        s_table@.len() == 65536,
        m_wf(best0, src@, repeat as int),
        best0.length >= 4,
        next_emit <= best0.s,
        s <= best0.s,
    ensures
        m_wf(r, src@, repeat as int),
        r.length >= 4,
        next_emit <= r.s,
        s <= r.s,
{
    proof {
        vstd::arithmetic::power2::lemma2_to64();
        vstd::arithmetic::power2::lemma2_to64_rest();
    }
    let n = src.len();
    let ghost rep_off = repeat as int;
    let mut best = best0;
    // Look one and two bytes ahead for a better hit.
    let hash_s1 = hash_u32((cv / 256) as u32, 2654435761, 16);
    let next_short = s_table[hash_s1];
    let s1 = s + 1;
    if s1 + 8 < n {
        let cv1 = load64(src, s1);
        let hash_l1 = hash_u64(cv1, 0xcf1bbcdcb7a56463, 45);
        let next_long = l_table[hash_l1];
        let m6 = match_at(src, get_cur(next_short), s1, false, &best, next_emit, repeat);
        best = best_of(n, best, m6, Ghost(src@), Ghost(rep_off));
        assert(best.length >= 4 && next_emit <= best.s && s <= best.s);
        let m7 = match_at(src, get_prev(next_short), s1, false, &best, next_emit, repeat);
        best = best_of(n, best, m7, Ghost(src@), Ghost(rep_off));
        assert(best.length >= 4 && next_emit <= best.s && s <= best.s);
        let m8 = match_at(src, get_cur(next_long), s1, false, &best, next_emit, repeat);
        best = best_of(n, best, m8, Ghost(src@), Ghost(rep_off));
        assert(best.length >= 4 && next_emit <= best.s && s <= best.s);
        let m9 = match_at(src, get_prev(next_long), s1, false, &best, next_emit, repeat);
        best = best_of(n, best, m9, Ghost(src@), Ghost(rep_off));
        assert(best.length >= 4 && next_emit <= best.s && s <= best.s);
        let hash_s2 = hash_u32((cv1 / 256) as u32, 2654435761, 16);
        let next_short2 = s_table[hash_s2];
        let s2 = s + 2;
        if s2 + 8 < n {
            let cv2 = load64(src, s2);
            let hash_l2 = hash_u64(cv2, 0xcf1bbcdcb7a56463, 45);
            let next_long2 = l_table[hash_l2];
            if repeat <= s2 {
                let ma = match_at(src, s2 - repeat, s2, true, &best, next_emit, repeat);
                best = best_of(n, best, ma, Ghost(src@), Ghost(rep_off));
            assert(best.length >= 4 && next_emit <= best.s && s <= best.s);
            }
            let mb = match_at(src, get_cur(next_short2), s2, false, &best, next_emit, repeat);
            best = best_of(n, best, mb, Ghost(src@), Ghost(rep_off));
            assert(best.length >= 4 && next_emit <= best.s && s <= best.s);
            let mc = match_at(src, get_prev(next_short2), s2, false, &best, next_emit, repeat);
            best = best_of(n, best, mc, Ghost(src@), Ghost(rep_off));
            assert(best.length >= 4 && next_emit <= best.s && s <= best.s);
            let md = match_at(src, get_cur(next_long2), s2, false, &best, next_emit, repeat);
            best = best_of(n, best, md, Ghost(src@), Ghost(rep_off));
            assert(best.length >= 4 && next_emit <= best.s && s <= best.s);
            let me = match_at(src, get_prev(next_long2), s2, false, &best, next_emit, repeat);
            best = best_of(n, best, me, Ghost(src@), Ghost(rep_off));
            assert(best.length >= 4 && next_emit <= best.s && s <= best.s);
        }
    }
    // Check at the end of the current best for an overlapping extension.
    if best.length > 2 {
        let s_at = best.s + best.length - 1;
        if s_at < s_limit {
            let s_back = best.s + 1;
            let back_l = best.length - 2;
            if s_back + 8 < n && s_at + 8 < n {
                let cv_at = load64(src, s_at);
                let h_at = hash_u64(cv_at, 0xcf1bbcdcb7a56463, 45);
                let nxt = l_table[h_at];
                let cur = get_cur(nxt);
                if cur > back_l {
                    let check_at = cur - back_l;
                    let mf = match_at(src, check_at, s_back, false, &best, next_emit, repeat);
                    best = best_of(n, best, mf, Ghost(src@), Ghost(rep_off));
                    assert(best.length >= 4 && next_emit <= best.s && s <= best.s);
                }
                let prev = get_prev(nxt);
                if prev > back_l {
                    let check_at = prev - back_l;
                    let mg = match_at(src, check_at, s_back, false, &best, next_emit, repeat);
                    best = best_of(n, best, mg, Ghost(src@), Ghost(rep_off));
                    assert(best.length >= 4 && next_emit <= best.s && s <= best.s);
                }
            }
        }
    }
    best
}

/// Encode one block with the scored dual-chained-table search. `Some(b)`
/// decodes back to exactly `src` and beats the worthiness gate.
#[verifier::rlimit(100)]
pub(crate) fn encode_block_best(src: &[u8]) -> (r: Option<Vec<u8>>)
    requires
        32 <= src@.len() < 0x100000000,
        2 * src@.len() + 16 <= usize::MAX,
    ensures
        match r {
            Some(b) => {
                &&& exec_tags(Seq::<u8>::empty(), b@, Seq::<u8>::empty(), 0, src@.len() as int)
                    matches Some(p) && p.0 == src@
                &&& b@.len() < src@.len() - src@.len() / 32
            },
            None => true,
        },
{
    let ghost ed = Seq::<u8>::empty();
    let n = src.len();
    proof {
        vstd::arithmetic::power2::lemma2_to64();
        vstd::arithmetic::power2::lemma2_to64_rest();
    }
    let mut l_table = zero_table_u64(524288);
    let mut s_table = zero_table_u64(65536);
    let dst_limit = n - 5;
    let s_limit = n - 8;
    let mut dst: Vec<u8> = Vec::new();
    let mut next_emit: usize = 0;
    let mut s: usize = 1;
    let mut repeat: usize = 1;
    let ghost mut g_last: int = 0;
    proof {
        lemma_decodes_empty(ed, n as int);
        assert(src@.take(0) =~= Seq::<u8>::empty());
        assert(dst@ =~= Seq::<u8>::empty());
    }
    let mut done = false;
    while !done
        invariant
            n == src@.len(),
            32 <= n < 0x100000000,
            2 * n + 16 <= usize::MAX,
            s_limit == n - 8,
            dst_limit == n - 5,
            l_table@.len() == 524288,
            s_table@.len() == 65536,
            next_emit <= n,
            decodes_to(ed, dst@, src@.take(next_emit as int), g_last, n as int),
            0 <= g_last < 0x100000000,
            1 <= repeat < 0x100000000,
            next_emit > 0 ==> g_last == repeat,
            ed == Seq::<u8>::empty(),
            1 <= s <= n,
            !done ==> s <= s_limit && next_emit <= s,
        decreases n - next_emit, n - s, (if done { 0int } else { 1int }),
    {
        proof {
            vstd::arithmetic::power2::lemma2_to64();
            vstd::arithmetic::power2::lemma2_to64_rest();
        }
        let ghost s0 = s as int;
        let mut best = BestMatch { offset: 0, s: 0, length: 0, score: 0, rep: false };
        let mut found = false;
        while !found && !done
            invariant
                n == src@.len(),
                32 <= n < 0x100000000,
                2 * n + 16 <= usize::MAX,
                s_limit == n - 8,
                l_table@.len() == 524288,
                s_table@.len() == 65536,
                1 <= s <= s_limit,
                next_emit <= s,
                s0 <= s,
                1 <= repeat < 0x100000000,
                m_wf(best, src@, repeat as int),
                found ==> !done && best.length >= 4 && next_emit <= best.s && s0 <= best.s
                    && s <= best.s,
            decreases n - s, (if found || done { 0int } else { 1int }),
        {
            proof {
                vstd::arithmetic::power2::lemma2_to64();
                vstd::arithmetic::power2::lemma2_to64_rest();
            }
            let delta = (s - next_emit) / 256 + 1;
            let next_s = if delta > 64 {
                s + 64
            } else {
                s + delta
            };
            if next_s > s_limit {
                done = true;
            } else {
                let cv = load64(src, s);
                let hash_l = hash_u64(cv, 0xcf1bbcdcb7a56463, 45);
                let hash_s4 = hash_u32(cv as u32, 2654435761, 16);
                let candidate_l = l_table[hash_l];
                let candidate_s = s_table[hash_s4];
                let ghost rep_off = repeat as int;
                best = match_at(src, get_cur(candidate_l), s, false, &best, next_emit, repeat);
                let m2 = match_at(src, get_prev(candidate_l), s, false, &best, next_emit, repeat);
                best = best_of(n, best, m2, Ghost(src@), Ghost(rep_off));
                let m3 = match_at(src, get_cur(candidate_s), s, false, &best, next_emit, repeat);
                best = best_of(n, best, m3, Ghost(src@), Ghost(rep_off));
                let m4 = match_at(src, get_prev(candidate_s), s, false, &best, next_emit, repeat);
                best = best_of(n, best, m4, Ghost(src@), Ghost(rep_off));
                // The repeat offset, tried one byte ahead.
                if repeat <= s {
                    let m5 = match_at(src, s - repeat + 1, s + 1, true, &best, next_emit, repeat);
                    best = best_of(n, best, m5, Ghost(src@), Ghost(rep_off));
                }
                if best.length > 0 {
                    best = probe_more(src, s, cv, best, next_emit, repeat, &l_table, &s_table,
                        s_limit);
                }
                // Update the tables with chaining.
                l_table.set(hash_l, (s as u64) + 0x100000000u64 * (candidate_l % 0x100000000));
                s_table.set(hash_s4, (s as u64) + 0x100000000u64 * (candidate_s % 0x100000000));
                if best.length > 0 {
                    found = true;
                } else {
                    if next_s + 8 >= n {
                        done = true;
                    } else {
                        s = next_s;
                    }
                }
            }
        }
        if !done {
            // Extend backwards, but never a repeat.
            let mut cand = best.offset;
            let mut length = best.length;
            s = best.s;
            let ghost s_f = s as int;
            let ghost off0 = s - cand;
            if !best.rep {
                while cand > 0 && s > next_emit && src[cand - 1] == src[s - 1]
                    invariant
                        n == src@.len(),
                        next_emit <= s,
                        cand < s,
                        s - cand == off0,
                        s <= s_f,
                        s + length == s_f + best.length,
                        s_f + best.length <= n,
                        4 <= length,
                        forall|k: int| s <= k < s + length ==> #[trigger] src@[k]
                            == src@[k - off0],
                    decreases s,
                {
                    cand = cand - 1;
                    s = s - 1;
                    length = length + 1;
                }
            }
            // Bail if we cannot stay under the output ceiling.
            if s - next_emit > dst_limit || dst.len() > dst_limit - (s - next_emit) {
                return None;
            }
            let base = s;
            let offset = base - cand;
            // A short far match saves nothing; skip it.
            if offset > 65535 && length <= 5 && !best.rep {
                s = best.s + 1;
                if s >= s_limit {
                    done = true;
                }
            } else {
                // Emit the pending literal.
                if base > next_emit {
                    let ghost pre = dst@;
                    let ghost out0 = src@.take(next_emit as int);
                    emit_literal(&mut dst, &src[next_emit..base]);
                    proof {
                        lemma_decodes_lit(ed, pre, out0, g_last, n as int,
                            src@.subrange(next_emit as int, base as int));
                        assert(out0 + src@.subrange(next_emit as int, base as int)
                            =~= src@.take(base as int));
                    }
                }
                // Emit the match, as a repeat where it repeats.
                let ghost pre = dst@;
                let ghost last0 = g_last;
                proof {
                    lemma_copy_extend_matches(ed, src@, base as int, offset as int,
                        length as int);
                }
                if best.rep && next_emit > 0 {
                    emit_repeat(&mut dst, offset, length);
                    proof {
                        lemma_decodes_rep(ed, pre, src@.take(base as int), n as int,
                            offset as int, length as int);
                    }
                } else {
                    emit_copy(&mut dst, offset, length);
                    proof {
                        lemma_decodes_copy(ed, pre, src@.take(base as int), last0, n as int,
                            offset as int, length as int);
                    }
                }
                proof {
                    g_last = offset as int;
                }
                repeat = offset;
                s = base + length;
                next_emit = s;
                if s >= s_limit {
                    done = true;
                } else {
                    if dst.len() > dst_limit {
                        return None;
                    }
                    proof {
                        vstd::arithmetic::power2::lemma2_to64();
                        vstd::arithmetic::power2::lemma2_to64_rest();
                    }
                    // Fill the tables for the positions the match covered.
                    let mut i = base + 1;
                    while i < s
                        invariant
                            n == src@.len(),
                            n < 0x100000000,
                            2 * n + 16 <= usize::MAX,
                            l_table@.len() == 524288,
                            s_table@.len() == 65536,
                            s <= n,
                            i <= s,
                        decreases s - i,
                    {
                        proof {
                            vstd::arithmetic::power2::lemma2_to64();
                            vstd::arithmetic::power2::lemma2_to64_rest();
                        }
                        if i + 8 < n {
                            let cv0 = load64(src, i);
                            let h_l = hash_u64(cv0, 0xcf1bbcdcb7a56463, 45);
                            let h_s = hash_u32(cv0 as u32, 2654435761, 16);
                            let old_l = l_table[h_l];
                            let old_s = s_table[h_s];
                            l_table.set(h_l, (i as u64) + 0x100000000u64 * (old_l % 0x100000000));
                            s_table.set(h_s, (i as u64) + 0x100000000u64 * (old_s % 0x100000000));
                        }
                        i = i + 1;
                    }
                }
            }
        }
    }
    // Emit the remaining bytes as one literal.
    if next_emit < n {
        if n - next_emit > dst_limit || dst.len() > dst_limit - (n - next_emit) {
            return None;
        }
        let ghost pre = dst@;
        let ghost out0 = src@.take(next_emit as int);
        emit_literal(&mut dst, &src[next_emit..n]);
        proof {
            lemma_decodes_lit(ed, pre, out0, g_last, n as int,
                src@.subrange(next_emit as int, n as int));
            assert(out0 + src@.subrange(next_emit as int, n as int) =~= src@.take(n as int));
        }
    }
    if dst.len() >= n - n / 32 {
        return None;
    }
    proof {
        assert(src@.take(n as int) =~= src@);
        crate::block::lemma_decodes_complete(ed, dst@, src@, g_last, n as int);
    }
    Some(dst)
}

} // verus!
