//! The seek index: ordered pairs of compressed and uncompressed offsets,
//! appended as a skippable trailer chunk and searched by uncompressed
//! position.

use vstd::prelude::*;

use crate::error::Error;
use crate::varint::varint_enc;

verus! {

/// Maximum number of entries an index may keep.
pub const MAX_INDEX_ENTRIES: usize = 65536;

/// Minimum distance between kept uncompressed offsets (1MiB).
pub const MIN_INDEX_DIST: i64 = 1048576;

/// One offset pair.
#[derive(Debug, Clone, Copy)]
struct IndexEntry {
    compressed_offset: i64,
    uncompressed_offset: i64,
}

/// An index for seeking: offset pairs at regular intervals, ordered in
/// both coordinates.
#[derive(Debug)]
pub struct Index {
    /// Total uncompressed size if known, `-1` if unknown.
    pub total_uncompressed: i64,
    /// Total compressed size if known, `-1` if unknown.
    pub total_compressed: i64,
    info: Vec<IndexEntry>,
    est_block_uncomp: i64,
}

impl Index {
    /// The stored pairs, compressed offset first.
    pub closed spec fn pairs(&self) -> Seq<(i64, i64)> {
        self.info@.map(|i: int, e: IndexEntry| (e.compressed_offset, e.uncompressed_offset))
    }

    /// The estimated uncompressed block size.
    pub closed spec fn spec_est_block(&self) -> int {
        self.est_block_uncomp as int
    }

    /// The recorded total uncompressed size.
    pub closed spec fn spec_total_uncompressed(&self) -> int {
        self.total_uncompressed as int
    }

    /// The recorded total compressed size.
    pub closed spec fn spec_total_compressed(&self) -> int {
        self.total_compressed as int
    }

    /// A sound index: non-negative entries, strictly increasing
    /// uncompressed offsets, non-decreasing compressed offsets.
    pub open spec fn wf(&self) -> bool {
        &&& forall|i: int| 0 <= i < self.pairs().len()
            ==> (#[trigger] self.pairs()[i]).0 >= 0 && self.pairs()[i].1 >= 0
        &&& forall|i: int, j: int| 0 <= i < j < self.pairs().len()
            ==> (#[trigger] self.pairs()[i]).1 < (#[trigger] self.pairs()[j]).1
        &&& forall|i: int, j: int| 0 <= i < j < self.pairs().len()
            ==> (#[trigger] self.pairs()[i]).0 <= (#[trigger] self.pairs()[j]).0
        &&& self.spec_est_block() >= 0
    }

    /// Create a new empty index.
    pub fn new() -> (r: Index)
        ensures
            r.wf(),
            r.pairs().len() == 0,
            r.spec_total_uncompressed() == -1,
            r.spec_total_compressed() == -1,
    {
        let r = Index {
            total_uncompressed: -1,
            total_compressed: -1,
            info: Vec::new(),
            est_block_uncomp: 0,
        };
        proof {
            assert(r.pairs() =~= Seq::<(i64, i64)>::empty());
        }
        r
    }

    /// Reset the index with a block size hint.
    pub fn reset(&mut self, max_block: i64)
        requires
            max_block >= 0,
        ensures
            final(self).wf(),
            final(self).pairs().len() == 0,
            final(self).spec_total_uncompressed() == -1,
            final(self).spec_total_compressed() == -1,
            final(self).spec_est_block() == max_block as int,
    {
        self.est_block_uncomp = max_block;
        self.total_compressed = -1;
        self.total_uncompressed = -1;
        self.info.clear();
        proof {
            assert(self.pairs() =~= Seq::<(i64, i64)>::empty());
        }
    }

    /// Add an offset pair. Pairs must arrive in order; a pair whose
    /// uncompressed offset repeats the last one only moves its compressed
    /// offset; pairs closer than the minimum distance are dropped.
    #[verifier::rlimit(100)]
    pub fn add(&mut self, compressed_offset: i64, uncompressed_offset: i64) -> (r: Result<
        (),
        Error,
    >)
        requires
            old(self).wf(),
        ensures
            final(self).wf(),
            final(self).spec_total_uncompressed() == old(self).spec_total_uncompressed(),
            final(self).spec_total_compressed() == old(self).spec_total_compressed(),
            final(self).spec_est_block() == old(self).spec_est_block(),
            ({
                let ps = old(self).pairs();
                if compressed_offset < 0 || uncompressed_offset < 0 {
                    r == Err::<(), Error>(Error::Corrupt) && final(self).pairs() == ps
                } else if ps.len() == 0 {
                    r == Ok::<(), Error>(()) && final(self).pairs() == ps.push(
                        (compressed_offset, uncompressed_offset))
                } else {
                    let last = ps.last();
                    if last.1 == uncompressed_offset {
                        if ps.len() >= 2 && ps[ps.len() - 2].0 > compressed_offset {
                            r == Err::<(), Error>(Error::Corrupt) && final(self).pairs() == ps
                        } else {
                            r == Ok::<(), Error>(()) && final(self).pairs() == ps.update(
                                ps.len() - 1, (compressed_offset, last.1))
                        }
                    } else if last.1 > uncompressed_offset || last.0 > compressed_offset {
                        r == Err::<(), Error>(Error::Corrupt) && final(self).pairs() == ps
                    } else if uncompressed_offset - last.1 < MIN_INDEX_DIST {
                        r == Ok::<(), Error>(()) && final(self).pairs() == ps
                    } else {
                        r == Ok::<(), Error>(()) && final(self).pairs() == ps.push(
                            (compressed_offset, uncompressed_offset))
                    }
                }
            }),
    {
        if compressed_offset < 0 || uncompressed_offset < 0 {
            return Err(Error::Corrupt);
        }
        let n = self.info.len();
        if n > 0 {
            let last = self.info[n - 1];
            proof {
                assert(old(self).pairs()[n - 1]
                    == (last.compressed_offset, last.uncompressed_offset));
                assert(old(self).pairs()[n - 1].1 >= 0);
            }
            if last.uncompressed_offset == uncompressed_offset {
                // Same uncompressed offset: keep the later compressed one,
                // unless it would fall behind the entry before it.
                if n >= 2 {
                    let before = self.info[n - 2];
                    if before.compressed_offset > compressed_offset {
                        return Err(Error::Corrupt);
                    }
                }
                self.info.set(n - 1, IndexEntry {
                    compressed_offset,
                    uncompressed_offset: last.uncompressed_offset,
                });
                proof {
                    assert(self.pairs() =~= old(self).pairs().update(n - 1 as int,
                        (compressed_offset, last.uncompressed_offset)));
                    assert(forall|i: int| 0 <= i < n - 1 ==> (#[trigger] self.pairs()[i])
                        == old(self).pairs()[i]);
                    assert forall|i: int, j: int| 0 <= i < j < self.pairs().len()
                        implies (#[trigger] self.pairs()[i]).0
                            <= (#[trigger] self.pairs()[j]).0 by {
                        if j == n - 1 && i < n - 1 {
                            assert(old(self).pairs()[i].0 <= old(self).pairs()[n - 2].0);
                            assert(self.pairs()[j].0 == compressed_offset);
                        } else {
                            assert(old(self).pairs()[i].0 <= old(self).pairs()[j].0);
                        }
                    }
                }
                return Ok(());
            }
            if last.uncompressed_offset > uncompressed_offset
                || last.compressed_offset > compressed_offset {
                return Err(Error::Corrupt);
            }
            if uncompressed_offset - last.uncompressed_offset < MIN_INDEX_DIST {
                return Ok(());
            }
        }
        self.info.push(IndexEntry { compressed_offset, uncompressed_offset });
        proof {
            assert(self.pairs() =~= old(self).pairs().push(
                (compressed_offset, uncompressed_offset)));
            assert(forall|i: int| 0 <= i < old(self).pairs().len()
                ==> (#[trigger] self.pairs()[i]) == old(self).pairs()[i]);
        }
        Ok(())
    }


    /// Thin the index when it approaches the entry ceiling or its blocks
    /// are below the distance target: keep one entry of every group. An
    /// index under the ceiling with a large enough block estimate is
    /// left untouched.
    fn reduce(&mut self)
        requires
            old(self).wf(),
        ensures
            final(self).wf(),
            final(self).pairs().len() <= old(self).pairs().len(),
            final(self).spec_total_uncompressed() == old(self).spec_total_uncompressed(),
            final(self).spec_total_compressed() == old(self).spec_total_compressed(),
            (old(self).pairs().len() < MAX_INDEX_ENTRIES as int
                && old(self).spec_est_block() >= MIN_INDEX_DIST as int)
                ==> *final(self) == *old(self),
    {
        if self.info.len() < MAX_INDEX_ENTRIES && self.est_block_uncomp >= MIN_INDEX_DIST {
            return ;
        }
        let l = self.info.len();
        let mut remove_n = l / MAX_INDEX_ENTRIES;
        if l % MAX_INDEX_ENTRIES == MAX_INDEX_ENTRIES - 1 {
            remove_n = remove_n + 1;
        }
        let mut growing = true;
        while growing
            invariant
                old(self).wf(),
                self == old(self),
            decreases (if growing { 1int } else { 0int }), old(self).pairs().len() + 2 - remove_n,
        {
            if remove_n >= self.info.len() || remove_n >= 2 * MAX_INDEX_ENTRIES {
                growing = false;
            } else {
                let factor = remove_n as i64 + 1;
                let small = match self.est_block_uncomp.checked_mul(factor) {
                    Some(p) => p < MIN_INDEX_DIST,
                    None => false,
                };
                if small && self.info.len() / (remove_n + 1) > 1000 {
                    remove_n = remove_n + 1;
                } else {
                    growing = false;
                }
            }
        }
        if remove_n > 2 * MAX_INDEX_ENTRIES {
            remove_n = 2 * MAX_INDEX_ENTRIES;
        }
        // Keep one entry, drop the next `remove_n`.
        let mut kept: Vec<IndexEntry> = Vec::new();
        let mut idx: usize = 0;
        let step = remove_n + 1;
        while idx < self.info.len()
            invariant
                old(self).wf(),
                self == old(self),
                1 <= step,
                kept@.len() <= idx,
                idx <= self.pairs().len(),
                forall|k: int| 0 <= k < kept@.len()
                    ==> (#[trigger] kept@[k]).compressed_offset >= 0
                        && kept@[k].uncompressed_offset >= 0,
                kept@.len() > 0 ==> exists|i: int|
                    {
                        &&& 0 <= i < self.pairs().len()
                        &&& i < idx
                        &&& ((#[trigger] kept@[kept@.len() - 1]).compressed_offset,
                            kept@[kept@.len() - 1].uncompressed_offset) == self.pairs()[i]
                    },
                forall|k1: int, k2: int| 0 <= k1 < k2 < kept@.len()
                    ==> (#[trigger] kept@[k1]).uncompressed_offset
                        < (#[trigger] kept@[k2]).uncompressed_offset
                        && kept@[k1].compressed_offset <= kept@[k2].compressed_offset,
                kept@.len() > 0 ==> forall|k: int| 0 <= k < kept@.len() - 1
                    ==> (#[trigger] kept@[k]).uncompressed_offset
                        < kept@[kept@.len() - 1].uncompressed_offset
                        && kept@[k].compressed_offset
                        <= kept@[kept@.len() - 1].compressed_offset,
            decreases self.pairs().len() - idx,
        {
            let e = self.info[idx];
            let ghost kpre = kept@;
            proof {
                assert((e.compressed_offset, e.uncompressed_offset)
                    == self.pairs()[idx as int]);
                if kpre.len() > 0 {
                    let i = choose|i: int|
                        {
                            &&& 0 <= i < self.pairs().len()
                            &&& i < idx
                            &&& ((#[trigger] kpre[kpre.len() - 1]).compressed_offset,
                                kpre[kpre.len() - 1].uncompressed_offset) == self.pairs()[i]
                        };
                    assert(self.pairs()[i].1 < self.pairs()[idx as int].1);
                    assert(self.pairs()[i].0 <= self.pairs()[idx as int].0);
                }
            }
            kept.push(e);
            if self.info.len() - idx <= step {
                idx = self.info.len();
            } else {
                idx = idx + step;
            }
        }
        self.info = kept;
        proof {
            assert(forall|i: int| 0 <= i < self.pairs().len()
                ==> ((#[trigger] self.pairs()[i]).0 >= 0 && self.pairs()[i].1 >= 0));
        }
        let factor = remove_n as i64;
        match self.est_block_uncomp.checked_mul(factor) {
            Some(extra) => {
                match self.est_block_uncomp.checked_add(extra) {
                    Some(total) => {
                        self.est_block_uncomp = total;
                    },
                    None => {
                        self.est_block_uncomp = i64::MAX;
                    },
                }
            },
            None => {
                self.est_block_uncomp = i64::MAX;
            },
        }
    }

    /// Whether the uncompressed offsets can be left out of the frame.
    #[verifier::rlimit(100)]
    fn progression_flag(&self) -> (r: u8)
        requires
            self.wf(),
        ensures
            r == (if spec_prog_ok(self.pairs(), self.spec_est_block()) { 0u8 } else { 1u8 }),
    {
        let ghost ps = self.pairs();
        let ghost est = self.spec_est_block();
        let entries = self.info.len();
        let mut has_uncompressed: u8 = 0;
        let mut idx: usize = 0;
        while idx < entries
            invariant
                self.wf(),
                entries == self.pairs().len(),
                ps == self.pairs(),
                est == self.spec_est_block(),
                idx <= entries,
                has_uncompressed == 0 || has_uncompressed == 1,
                has_uncompressed == 0 ==> forall|j: int| 0 <= j < idx
                    ==> #[trigger] spec_prog_at(ps, est, j),
                has_uncompressed == 1 ==> !spec_prog_ok(ps, est),
            decreases entries - idx,
        {
            let expected: Option<i64> = if idx == 0 {
                Some(0)
            } else {
                let prev = self.info[idx - 1];
                proof {
                    assert(ps[idx - 1] == (prev.compressed_offset, prev.uncompressed_offset));
                }
                prev.uncompressed_offset.checked_add(self.est_block_uncomp)
            };
            proof {
                assert(ps[idx as int] == (self.info[idx as int].compressed_offset,
                    self.info[idx as int].uncompressed_offset));
            }
            let matches_expected = match expected {
                Some(x) => self.info[idx].uncompressed_offset == x,
                None => false,
            };
            if !matches_expected {
                has_uncompressed = 1;
                proof {
                    assert(!spec_prog_at(ps, est, idx as int));
                    assert(!spec_prog_ok(ps, est));
                }
                idx = entries;
            } else {
                proof {
                    assert(spec_prog_at(ps, est, idx as int));
                }
                idx = idx + 1;
            }
        }
        proof {
            if has_uncompressed == 0 {
                assert forall|j: int| 0 <= j < ps.len() implies #[trigger] spec_prog_at(ps,
                    est, j) by {
                    assert(0 <= j < idx);
                }
                assert(spec_prog_ok(ps, est));
            }
        }
        has_uncompressed
    }

    /// Append the delta-coded uncompressed offsets.
    fn serialize_offsets_u(&self, body: &mut Vec<u8>)
        requires
            self.wf(),
        ensures
            final(body)@ == old(body)@ + spec_u_deltas(self.pairs(), self.spec_est_block(), 0),
    {
        let ghost ps = self.pairs();
        let ghost est = self.spec_est_block();
        let entries = self.info.len();
        let mut k: usize = 0;
        while k < entries
            invariant
                self.wf(),
                entries == self.pairs().len(),
                ps == self.pairs(),
                est == self.spec_est_block(),
                k <= entries,
                old(body)@ + spec_u_deltas(ps, est, 0) == body@ + spec_u_deltas(ps, est,
                    k as int),
            decreases entries - k,
        {
            let e = self.info[k];
            proof {
                assert(ps[k as int] == (e.compressed_offset, e.uncompressed_offset));
            }
            let u_off: i64 = if k == 0 {
                e.uncompressed_offset
            } else {
                let prev = self.info[k - 1];
                proof {
                    assert(ps[k - 1] == (prev.compressed_offset, prev.uncompressed_offset));
                    assert(ps[k - 1].1 < ps[k as int].1);
                    assert(ps[k - 1].1 >= 0);
                }
                let d = e.uncompressed_offset - prev.uncompressed_offset;
                d - self.est_block_uncomp
            };
            proof {
                if k == 0 {
                    assert(spec_u_deltas(ps, est, 0) == zz_enc(ps[0].1)
                        + spec_u_deltas(ps, est, 1));
                } else {
                    assert(u_off as int == ps[k as int].1 - ps[k - 1].1 - est);
                    assert(spec_u_deltas(ps, est, k as int)
                        == zz_enc((ps[k as int].1 - ps[k - 1].1 - est) as i64)
                        + spec_u_deltas(ps, est, k + 1));
                }
            }
            encode_signed_varint(body, u_off);
            k = k + 1;
            proof {
                assert(old(body)@ + spec_u_deltas(ps, est, 0)
                    =~= body@ + spec_u_deltas(ps, est, k as int));
            }
        }
        proof {
            assert(spec_u_deltas(ps, est, entries as int) =~= Seq::<u8>::empty());
            assert(body@ =~= old(body)@ + spec_u_deltas(ps, est, 0));
        }
    }

    /// Append the compressed offsets against the moving prediction.
    fn serialize_offsets_c(&self, body: &mut Vec<u8>)
        requires
            self.wf(),
        ensures
            final(body)@ == old(body)@ + spec_c_deltas(self.pairs(), self.spec_est_block(), 0,
                self.spec_est_block() / 2),
    {
        let ghost ps = self.pairs();
        let ghost est = self.spec_est_block();
        let entries = self.info.len();
        let mut c_predict: i64 = self.est_block_uncomp / 2;
        let mut k: usize = 0;
        proof {
            assert(c_predict as int == est / 2);
        }
        while k < entries
            invariant
                self.wf(),
                entries == self.pairs().len(),
                ps == self.pairs(),
                est == self.spec_est_block(),
                k <= entries,
                0 <= c_predict,
                old(body)@ + spec_c_deltas(ps, est, 0, est / 2) == body@ + spec_c_deltas(ps,
                    est, k as int, c_predict as int),
            decreases entries - k,
        {
            let e = self.info[k];
            proof {
                assert(ps[k as int] == (e.compressed_offset, e.uncompressed_offset));
            }
            if k == 0 {
                proof {
                    assert(spec_c_deltas(ps, est, 0, c_predict as int) == zz_enc(ps[0].0)
                        + spec_c_deltas(ps, est, 1, c_predict as int));
                }
                encode_signed_varint(body, e.compressed_offset);
            } else {
                let prev = self.info[k - 1];
                proof {
                    assert(ps[k - 1] == (prev.compressed_offset, prev.uncompressed_offset));
                    assert(ps[k - 1].0 <= ps[k as int].0);
                    assert(ps[k - 1].0 >= 0);
                }
                let dc = e.compressed_offset - prev.compressed_offset;
                let off = dc - c_predict;
                proof {
                    assert(off as int == ps[k as int].0 - ps[k - 1].0 - c_predict);
                    assert(spec_c_deltas(ps, est, k as int, c_predict as int)
                        == zz_enc((ps[k as int].0 - ps[k - 1].0 - c_predict as int) as i64)
                        + spec_c_deltas(ps, est, k + 1, c_predict as int + spec_half(
                            ps[k as int].0 - ps[k - 1].0 - c_predict as int)));
                }
                encode_signed_varint(body, off);
                // Move the prediction by half the error, rounding toward
                // zero.
                let half: i64 = if off >= 0 {
                    off / 2
                } else {
                    -((-off) / 2)
                };
                proof {
                    assert(half as int == spec_half(off as int));
                    assert(0 <= c_predict + half <= i64::MAX) by (nonlinear_arith)
                        requires
                            0 <= c_predict,
                            0 <= dc <= i64::MAX,
                            off == dc - c_predict,
                            half == if off >= 0 { off / 2 } else { -((-off) / 2) },
                    ;
                }
                c_predict = c_predict + half;
            }
            k = k + 1;
            proof {
                assert(old(body)@ + spec_c_deltas(ps, est, 0, est / 2)
                    =~= body@ + spec_c_deltas(ps, est, k as int, c_predict as int));
            }
        }
        proof {
            assert(spec_c_deltas(ps, est, entries as int, c_predict as int)
                =~= Seq::<u8>::empty());
            assert(body@ =~= old(body)@ + spec_c_deltas(ps, est, 0, est / 2));
        }
    }

    /// Serialize the frame head: header, totals, estimated block size,
    /// entry count, flag and offset lists.
    #[verifier::rlimit(100)]
    fn serialize_head(&self, uncomp_total: i64, comp_total: i64) -> (r: Vec<u8>)
        requires
            self.wf(),
        ensures
            r@ == spec_index_head(self.pairs(), self.spec_est_block(), uncomp_total as int,
                comp_total as int),
    {
        let ghost ps = self.pairs();
        let ghost est = self.spec_est_block();
        let mut body: Vec<u8> = Vec::new();
        // Header: "s2idx" and a zero byte.
        body.push(0x73);
        body.push(0x32);
        body.push(0x69);
        body.push(0x64);
        body.push(0x78);
        body.push(0x00);
        encode_signed_varint(&mut body, uncomp_total);
        encode_signed_varint(&mut body, comp_total);
        encode_signed_varint(&mut body, self.est_block_uncomp);
        let entries = self.info.len();
        encode_signed_varint(&mut body, entries as i64);
        let ghost base = seq![0x73u8, 0x32u8, 0x69u8, 0x64u8, 0x78u8, 0x00u8]
            + zz_enc(uncomp_total) + zz_enc(comp_total) + zz_enc((est as i64))
            + zz_enc(ps.len() as i64);
        proof {
            assert(body@ =~= base);
        }
        let has_uncompressed = self.progression_flag();
        body.push(has_uncompressed);
        // Uncompressed offsets, delta-coded, only when needed.
        if has_uncompressed == 1 {
            self.serialize_offsets_u(&mut body);
        }
        // Compressed offsets, delta-coded against a moving prediction.
        self.serialize_offsets_c(&mut body);
        proof {
            reveal(spec_index_head);
            if has_uncompressed == 1 {
                assert(body@ =~= base + (seq![1u8] + spec_u_deltas(ps, est, 0)
                    + spec_c_deltas(ps, est, 0, est / 2)));
            } else {
                assert(body@ =~= base + (seq![0u8] + spec_c_deltas(ps, est, 0, est / 2)));
            }
            assert(body@ =~= spec_index_head(ps, est, uncomp_total as int, comp_total as int));
        }
        body
    }

    /// Serialize the index body: the head, then the total size and the
    /// trailer — exactly the spec-level serialization, unless the body
    /// outgrows the 24-bit chunk limit.
    #[verifier::rlimit(100)]
    fn serialize_body(&self, uncomp_total: i64, comp_total: i64) -> (r: Vec<u8>)
        requires
            self.wf(),
        ensures
            spec_index_head(self.pairs(), self.spec_est_block(), uncomp_total as int,
                comp_total as int).len() <= 0xffffff ==> r@ == spec_index_body(self.pairs(),
                self.spec_est_block(), uncomp_total as int, comp_total as int),
            spec_index_head(self.pairs(), self.spec_est_block(), uncomp_total as int,
                comp_total as int).len() > 0xffffff ==> r@.len() > 0xffffff,
    {
        let ghost ps = self.pairs();
        let ghost est = self.spec_est_block();
        let ghost head = spec_index_head(ps, est, uncomp_total as int, comp_total as int);
        let mut body = self.serialize_head(uncomp_total, comp_total);
        // Total size: chunk header, the head, this field, trailer.
        let blen = body.len();
        if blen > 0xffffff {
            return body;
        }
        let ts = (blen + 14) as u32;
        body.push((ts % 256) as u8);
        body.push(((ts / 256) % 256) as u8);
        body.push(((ts / 65536) % 256) as u8);
        body.push((ts / 16777216) as u8);
        // Trailer: a zero byte, then "xdi2s".
        body.push(0x00);
        body.push(0x78);
        body.push(0x64);
        body.push(0x69);
        body.push(0x32);
        body.push(0x73);
        proof {
            reveal(spec_index_body);
            assert(body@ =~= spec_index_body(ps, est, uncomp_total as int, comp_total as int));
        }
        body
    }

    /// Serialize the index and append it to `buf` as one skippable chunk:
    /// the chunk type, a 24-bit length, then the body. On failure the
    /// buffer is left as it was. An index under the entry ceiling whose
    /// block estimate is at least the distance target is owed to
    /// serialize, unchanged.
    #[verifier::rlimit(100)]
    pub fn append_to(&mut self, buf: &mut Vec<u8>, uncomp_total: i64, comp_total: i64) -> (r:
        Result<(), Error>)
        requires
            old(self).wf(),
        ensures
            final(self).wf(),
            match r {
                Ok(()) => {
                    let body = spec_index_body(final(self).pairs(),
                        final(self).spec_est_block(), uncomp_total as int, comp_total as int);
                    &&& body.len() <= 0xffffff
                    &&& final(buf)@ == old(buf)@ + spec_index_frame(final(self).pairs(),
                        final(self).spec_est_block(), uncomp_total as int, comp_total as int)
                    &&& final(buf)@ == old(buf)@ + seq![
                        0x99u8,
                        (body.len() % 256) as u8,
                        ((body.len() / 256) % 256) as u8,
                        ((body.len() / 65536) % 256) as u8,
                    ] + body
                    &&& final(buf)@.len() > old(buf)@.len() + 4
                    &&& final(buf)@.subrange(0, old(buf)@.len() as int) == old(buf)@
                    &&& final(buf)@[old(buf)@.len() as int] == 0x99u8
                    &&& crate::tags::le24(final(buf)@[old(buf)@.len() as int + 1],
                        final(buf)@[old(buf)@.len() as int + 2],
                        final(buf)@[old(buf)@.len() as int + 3])
                        == final(buf)@.len() - old(buf)@.len() - 4
                },
                Err(e) => final(buf)@ == old(buf)@,
            },
            (old(self).pairs().len() < MAX_INDEX_ENTRIES as int
                && old(self).spec_est_block() >= MIN_INDEX_DIST as int)
                ==> (r is Ok && final(self).pairs() == old(self).pairs()
                    && final(self).spec_est_block() == old(self).spec_est_block()),
    {
        let ghost small = old(self).pairs().len() < MAX_INDEX_ENTRIES as int
            && old(self).spec_est_block() >= MIN_INDEX_DIST as int;
        self.reduce();
        proof {
            if small {
                lemma_index_head_len(self.pairs(), self.spec_est_block(), uncomp_total as int,
                    comp_total as int);
            }
        }
        let mut body = self.serialize_body(uncomp_total, comp_total);
        let chunk_len = body.len();
        if chunk_len > 0xffffff || chunk_len == 0 {
            proof {
                assert(!small);
            }
            return Err(Error::TooLarge);
        }
        proof {
            assert(body@ == spec_index_body(self.pairs(), self.spec_est_block(),
                uncomp_total as int, comp_total as int));
        }
        let ghost pre = buf@;
        let ghost bview = body@;
        buf.push(0x99);
        buf.push((chunk_len % 256) as u8);
        buf.push(((chunk_len / 256) % 256) as u8);
        buf.push((chunk_len / 65536) as u8);
        buf.append(&mut body);
        proof {
            assert(buf@.subrange(0, pre.len() as int) =~= pre);
            assert(buf@[pre.len() as int] == 0x99u8);
            assert((bview.len() as int) / 65536 < 256);
            assert(buf@ =~= pre + seq![
                0x99u8,
                ((bview.len() as int) % 256) as u8,
                (((bview.len() as int) / 256) % 256) as u8,
                (((bview.len() as int) / 65536) % 256) as u8,
            ] + bview);
            assert(buf@ =~= pre + spec_index_frame(self.pairs(), self.spec_est_block(),
                uncomp_total as int, comp_total as int));
        }
        Ok(())
    }


    /// Parse the head of a serialized index chunk: type, length, magic,
    /// totals, block estimate, entry count and the presence flag. On
    /// success the parse model is pinned to the offset lists that follow
    /// the returned position.
    #[verifier::rlimit(100)]
    #[verifier::spinoff_prover]
    fn load_header(data: &[u8]) -> (r: Result<(i64, i64, i64, usize, u8, usize), Error>)
        ensures
            match r {
                Ok(p) => {
                    &&& data@.len() > 16
                    &&& data@[0] == 0x99u8
                    &&& p.0 >= 0 && p.2 >= 0
                    &&& p.3 <= MAX_INDEX_ENTRIES
                    &&& p.5 <= data@.len()
                    &&& zz_dec(data@, 10) matches Some((u_total, n1)) && u_total == p.0
                        && (zz_dec(data@, 10 + n1) matches Some((c_total, n2))
                            && c_total == p.1
                            && (zz_dec(data@, 10 + n1 + n2) matches Some((est, n3))
                                && est == p.2
                                && (zz_dec(data@, 10 + n1 + n2 + n3) matches Some((cnt, n4))
                                    && cnt == p.3 as i64)))
                    &&& spec_index_parse(data@) == spec_index_after_u(data@, p.3 as int,
                        p.2 as int, p.0 as int, p.1 as int,
                        (if p.4 == 1u8 {
                            spec_load_u_list(data@, p.5 as int, p.3 as int, 0, p.2 as int, 0)
                        } else {
                            match spec_prog_u_list(p.3 as int, 0, p.2 as int) {
                                Some(us) => Some((us, p.5 as int)),
                                None => None,
                            }
                        }))
                },
                Err(e) => spec_index_parse(data@) is None
                    && (e == Error::BufferTooSmall || e == Error::Corrupt
                        || e == Error::Unsupported),
            },
    {
        let ghost gp = spec_index_parse(data@);
        let hdr_len = 4 + 6 + 6;
        if data.len() <= hdr_len {
            proof {
                reveal(spec_index_parse);
                assert(gp is None);
            }
            return Err(Error::BufferTooSmall);
        }
        if data[0] != 0x99 {
            proof {
                reveal(spec_index_parse);
                assert(gp is None);
            }
            return Err(Error::Corrupt);
        }
        let chunk_len = data[1] as usize + 256 * (data[2] as usize) + 65536 * (data[3] as usize);
        proof {
            assert(chunk_len as int == crate::tags::le24(data@[1], data@[2], data@[3]));
        }
        if data.len() - 4 < chunk_len {
            proof {
                reveal(spec_index_parse);
                assert(gp is None);
            }
            return Err(Error::BufferTooSmall);
        }
        let mut b: usize = 4;
        // Validate the header.
        if data[b] != 0x73 || data[b + 1] != 0x32 || data[b + 2] != 0x69 || data[b + 3] != 0x64
            || data[b + 4] != 0x78 || data[b + 5] != 0x00 {
            proof {
                reveal(spec_index_parse);
                assert(gp is None);
            }
            return Err(Error::Unsupported);
        }
        b = b + 6;
        let rest: &[u8] = crate::decode::slice_tail(data, b);
        let (ut, n) = match decode_signed_varint(rest) {
            Ok(p) => p,
            Err(e) => {
                proof {
                    assert(zz_dec(data@, 10) is None);
                    reveal(spec_index_parse);
                    reveal(spec_index_after_u);
                    reveal(spec_index_after_c);
                    assert(gp is None);
                }
                return Err(Error::Corrupt);
            },
        };
        proof {
            assert(zz_dec(data@, 10) == Some((ut, n as int)));
        }
        let ghost gn1: int = n as int;
        if ut < 0 {
            proof {
                reveal(spec_index_parse);
                assert(gp is None);
            }
            return Err(Error::Corrupt);
        }
        b = b + n;
        let rest: &[u8] = crate::decode::slice_tail(data, b);
        let (ct, n) = match decode_signed_varint(rest) {
            Ok(p) => p,
            Err(e) => {
                proof {
                    assert(zz_dec(data@, 10 + gn1) is None);
                    reveal(spec_index_parse);
                    reveal(spec_index_after_u);
                    reveal(spec_index_after_c);
                    assert(gp is None);
                }
                return Err(Error::Corrupt);
            },
        };
        proof {
            assert(zz_dec(data@, 10 + gn1) == Some((ct, n as int)));
        }
        let ghost gn2: int = n as int;
        b = b + n;
        let rest: &[u8] = crate::decode::slice_tail(data, b);
        let (est, n) = match decode_signed_varint(rest) {
            Ok(p) => p,
            Err(e) => {
                proof {
                    assert(zz_dec(data@, 10 + gn1 + gn2) is None);
                    reveal(spec_index_parse);
                    reveal(spec_index_after_u);
                    reveal(spec_index_after_c);
                    assert(gp is None);
                }
                return Err(Error::Corrupt);
            },
        };
        proof {
            assert(zz_dec(data@, 10 + gn1 + gn2) == Some((est, n as int)));
        }
        let ghost gn3: int = n as int;
        if est < 0 {
            proof {
                reveal(spec_index_parse);
                assert(gp is None);
            }
            return Err(Error::Corrupt);
        }
        b = b + n;
        let rest: &[u8] = crate::decode::slice_tail(data, b);
        let (v, n) = match decode_signed_varint(rest) {
            Ok(p) => p,
            Err(e) => {
                proof {
                    assert(zz_dec(data@, 10 + gn1 + gn2 + gn3) is None);
                    reveal(spec_index_parse);
                    reveal(spec_index_after_u);
                    reveal(spec_index_after_c);
                    assert(gp is None);
                }
                return Err(Error::Corrupt);
            },
        };
        proof {
            assert(zz_dec(data@, 10 + gn1 + gn2 + gn3) == Some((v, n as int)));
        }
        if v < 0 || v > MAX_INDEX_ENTRIES as i64 {
            proof {
                reveal(spec_index_parse);
                assert(gp is None);
            }
            return Err(Error::Corrupt);
        }
        let entries = v as usize;
        b = b + n;
        if b >= data.len() {
            proof {
                reveal(spec_index_parse);
                assert(gp is None);
            }
            return Err(Error::Corrupt);
        }
        let ghost gb0: int = b as int;
        let has_uncompressed = data[b];
        b = b + 1;
        proof {
            reveal(spec_index_parse);
            assert(gp == spec_index_after_u(data@, entries as int, est as int, ut as int,
                ct as int,
                (if data@[gb0] == 1u8 {
                    spec_load_u_list(data@, gb0 + 1, entries as int, 0, est as int, 0)
                } else {
                    match spec_prog_u_list(entries as int, 0, est as int) {
                        Some(us) => Some((us, gb0 + 1)),
                        None => None,
                    }
                })));
        }
        Ok((ut, ct, est, entries, has_uncompressed, b))
    }

    /// Load an index from a serialized chunk. Returns the number of bytes
    /// consumed. Entries out of order are corruption. Whatever the parse
    /// model accepts — in particular, any frame `append_to` wrote for
    /// loadable pairs — is owed to load back to exactly its pairs,
    /// totals and block estimate.
    #[verifier::rlimit(100)]
    #[verifier::spinoff_prover]
    pub fn load(&mut self, data: &[u8]) -> (r: Result<usize, Error>)
        ensures
            final(self).wf(),
            match r {
                Ok(n) => {
                    &&& n <= data@.len()
                    &&& data@.len() > 16 && data@[0] == 0x99u8
                    &&& zz_dec(data@, 10) matches Some((u_total, n1))
                        && u_total >= 0 && final(self).spec_total_uncompressed() == u_total
                        && (zz_dec(data@, 10 + n1) matches Some((c_total, n2))
                            && final(self).spec_total_compressed() == c_total
                            && (zz_dec(data@, 10 + n1 + n2) matches Some((est, n3))
                                && est >= 0 && final(self).spec_est_block() == est
                                && (zz_dec(data@, 10 + n1 + n2 + n3) matches Some((cnt, n4))
                                    && 0 <= cnt <= MAX_INDEX_ENTRIES as int
                                    && final(self).pairs().len() == cnt)))
                },
                Err(e) => true,
            },
            spec_index_parse(data@) matches Some(p) ==> {
                &&& r == Ok::<usize, Error>(p.4 as usize)
                &&& final(self).pairs() == p.0
                &&& final(self).spec_est_block() == p.1
                &&& final(self).spec_total_uncompressed() == p.2
                &&& final(self).spec_total_compressed() == p.3
            },
    {
        let ghost gp = spec_index_parse(data@);
        self.info = Vec::new();
        self.est_block_uncomp = 0;
        proof {
            assert(self.pairs() =~= Seq::<(i64, i64)>::empty());
        }
        let (total_u, total_c, est_v, entries, has_uncompressed, bpos) =
            match Self::load_header(data) {
            Ok(h) => h,
            Err(e) => {
                return Err(e);
            },
        };
        self.total_uncompressed = total_u;
        self.total_compressed = total_c;
        self.est_block_uncomp = est_v;
        let mut b: usize = bpos;
        // Uncompressed offsets: delta-coded, or the plain progression.
        let mut uncomp_offsets: Vec<i64> = Vec::new();
        let ghost tu = self.spec_total_uncompressed();
        let ghost tc = self.spec_total_compressed();
        let ghost te = self.spec_est_block();
        let ghost gcnt: int = entries as int;
        proof {
            assert(gp == spec_index_after_u(data@, gcnt, te, tu, tc,
                (if has_uncompressed == 1u8 {
                    spec_load_u_list(data@, b as int, gcnt, 0, te, 0)
                } else {
                    match spec_prog_u_list(gcnt, 0, te) {
                        Some(us) => Some((us, b as int)),
                        None => None,
                    }
                })));
        }
        if has_uncompressed == 1 {
            proof {
                lemma_prepend_empty(spec_load_u_list(data@, b as int, gcnt, 0, te, 0));
            }
            let mut i: usize = 0;
            while i < entries
                invariant
                    self.wf(),
                    uncomp_offsets@.len() == i,
                    i <= entries,
                    b <= data@.len(),
                    gcnt == entries as int,
                    self.spec_total_uncompressed() == tu,
                    self.spec_total_compressed() == tc,
                    self.spec_est_block() == te,
                    gp == spec_index_parse(data@),
                    gp == spec_index_after_u(data@, gcnt, te, tu, tc,
                        spec_list_prepend(uncomp_offsets@, spec_load_u_list(data@, b as int,
                            gcnt, i as int, te,
                            if i == 0 { 0int } else { uncomp_offsets@[i - 1] as int }))),
                decreases entries - i,
            {
                let dl = data.len();
                let rest: &[u8] = crate::decode::slice_tail(data, b);
                let ghost gprev: int = if i == 0 { 0int } else { uncomp_offsets@[i - 1] as int };
                let (v, n) = match decode_signed_varint(rest) {
                    Ok(p) => p,
                    Err(e) => {
                        proof {
                            assert(zz_dec(data@, b as int) is None);
                            assert(spec_load_u_list(data@, b as int, gcnt, i as int, te,
                                gprev) is None);
                            reveal(spec_index_after_u);
                            reveal(spec_index_after_c);
                            assert(gp is None);
                        }
                        return Err(Error::Corrupt);
                    },
                };
                assert(b + n <= dl);
                proof {
                    assert(zz_dec(data@, b as int) == Some((v, n as int)));
                }
                let u_off: i64 = if i == 0 {
                    v
                } else {
                    let prev = uncomp_offsets[i - 1];
                    let stepped = match prev.checked_add(self.est_block_uncomp) {
                        Some(x) => x,
                        None => {
                            proof {
                                assert(!(i64::MIN <= gprev + te <= i64::MAX));
                                assert(spec_load_u_list(data@, b as int, gcnt, i as int, te,
                                    gprev) is None);
                                reveal(spec_index_after_u);
                                reveal(spec_index_after_c);
                                assert(gp is None);
                            }
                            return Err(Error::Corrupt);
                        },
                    };
                    match stepped.checked_add(v) {
                        Some(x) => x,
                        None => {
                            proof {
                                assert(!(i64::MIN <= gprev + te + v <= i64::MAX));
                                assert(spec_load_u_list(data@, b as int, gcnt, i as int, te,
                                    gprev) is None);
                                reveal(spec_index_after_u);
                                reveal(spec_index_after_c);
                                assert(gp is None);
                            }
                            return Err(Error::Corrupt);
                        },
                    }
                };
                proof {
                    assert(u_off as int == if i == 0 { v as int } else { gprev + te + v });
                }
                let ghost bprev: int = b as int;
                let ghost uprev = uncomp_offsets@;
                let ghost iprev: int = i as int;
                uncomp_offsets.push(u_off);
                b = b + n;
                i = i + 1;
                proof {
                    let tail = spec_load_u_list(data@, b as int, gcnt, iprev + 1, te,
                        u_off as int);
                    assert(spec_load_u_list(data@, bprev, gcnt, iprev, te, gprev)
                        == spec_list_prepend(seq![u_off], tail));
                    lemma_prepend_push(uprev, u_off, tail);
                    assert(uncomp_offsets@ == uprev.push(u_off));
                    assert(uncomp_offsets@[i - 1] == u_off);
                }
            }
            proof {
                lemma_u_done(uncomp_offsets@, data@, b as int, gcnt, te,
                    if entries == 0 { 0int } else { uncomp_offsets@[entries - 1] as int });
                assert(gp == spec_index_after_u(data@, gcnt, te, tu, tc,
                    Some((uncomp_offsets@, b as int))));
            }
        } else {
            proof {
                lemma_prog_prepend_empty(spec_prog_u_list(gcnt, 0, te));
            }
            let mut i: usize = 0;
            while i < entries
                invariant
                    self.wf(),
                    uncomp_offsets@.len() == i,
                    i <= entries,
                    entries <= MAX_INDEX_ENTRIES,
                    b <= data@.len(),
                    gcnt == entries as int,
                    self.spec_total_uncompressed() == tu,
                    self.spec_total_compressed() == tc,
                    self.spec_est_block() == te,
                    gp == spec_index_parse(data@),
                    gp == spec_index_after_u(data@, gcnt, te, tu, tc,
                        match spec_prog_prepend(uncomp_offsets@, spec_prog_u_list(gcnt,
                            i as int, te)) {
                            Some(us) => Some((us, b as int)),
                            None => None,
                        }),
                decreases entries - i,
            {
                let u_off = match self.est_block_uncomp.checked_mul(i as i64) {
                    Some(x) => x,
                    None => {
                        proof {
                            assert(!(i64::MIN <= te * (i as int) <= i64::MAX));
                            assert(spec_prog_u_list(gcnt, i as int, te) is None);
                            reveal(spec_index_after_u);
                            reveal(spec_index_after_c);
                            assert(gp is None);
                        }
                        return Err(Error::Corrupt);
                    },
                };
                proof {
                    assert(u_off as int == te * (i as int));
                }
                let ghost uprev = uncomp_offsets@;
                let ghost iprev: int = i as int;
                uncomp_offsets.push(u_off);
                i = i + 1;
                proof {
                    let tail = spec_prog_u_list(gcnt, iprev + 1, te);
                    assert(spec_prog_u_list(gcnt, iprev, te)
                        == spec_prog_prepend(seq![u_off], tail));
                    lemma_prog_prepend_push(uprev, u_off, tail);
                    assert(uncomp_offsets@ == uprev.push(u_off));
                }
            }
            proof {
                lemma_prog_done(uncomp_offsets@, gcnt, te);
                assert(gp == spec_index_after_u(data@, gcnt, te, tu, tc,
                    Some((uncomp_offsets@, b as int))));
            }
        }
        // Compressed offsets against the moving prediction.
        let mut c_predict: i64 = self.est_block_uncomp / 2;
        let mut comp_offsets: Vec<i64> = Vec::new();
        let mut i: usize = 0;
        proof {
            assert(c_predict as int == te / 2);
            lemma_after_u_some(data@, gcnt, te, tu, tc, uncomp_offsets@, b as int);
            assert(gp == spec_index_after_c(data@, te, tu, tc, uncomp_offsets@,
                spec_load_c_list(data@, b as int, gcnt, 0, 0, te / 2)));
            lemma_prepend_empty(spec_load_c_list(data@, b as int, gcnt, 0, 0, te / 2));
        }
        let ghost gus = uncomp_offsets@;
        while i < entries
            invariant
                self.wf(),
                comp_offsets@.len() == i,
                i <= entries,
                b <= data@.len(),
                gcnt == entries as int,
                gus == uncomp_offsets@,
                self.spec_total_uncompressed() == tu,
                self.spec_total_compressed() == tc,
                self.spec_est_block() == te,
                gp == spec_index_parse(data@),
                gp == spec_index_after_c(data@, te, tu, tc, gus,
                    spec_list_prepend(comp_offsets@, spec_load_c_list(data@, b as int, gcnt,
                        i as int,
                        if i == 0 { 0int } else { comp_offsets@[i - 1] as int },
                        c_predict as int))),
            decreases entries - i,
        {
            let dl = data.len();
            let rest: &[u8] = crate::decode::slice_tail(data, b);
            let ghost gprev: int = if i == 0 { 0int } else { comp_offsets@[i - 1] as int };
            let ghost gcp: int = c_predict as int;
            let (v, n) = match decode_signed_varint(rest) {
                Ok(p) => p,
                Err(e) => {
                    proof {
                        assert(zz_dec(data@, b as int) is None);
                        assert(spec_load_c_list(data@, b as int, gcnt, i as int, gprev,
                            gcp) is None);
                        reveal(spec_index_after_u);
                        reveal(spec_index_after_c);
                        assert(gp is None);
                    }
                    return Err(Error::Corrupt);
                },
            };
            assert(b + n <= dl);
            proof {
                assert(zz_dec(data@, b as int) == Some((v, n as int)));
            }
            let c_off: i64 = if i == 0 {
                v
            } else {
                let prev = comp_offsets[i - 1];
                let stepped = match prev.checked_add(c_predict) {
                    Some(x) => x,
                    None => {
                        proof {
                            assert(!(i64::MIN <= gprev + gcp <= i64::MAX));
                            assert(spec_load_c_list(data@, b as int, gcnt, i as int, gprev,
                                gcp) is None);
                            reveal(spec_index_after_u);
                            reveal(spec_index_after_c);
                            assert(gp is None);
                        }
                        return Err(Error::Corrupt);
                    },
                };
                let full = match stepped.checked_add(v) {
                    Some(x) => x,
                    None => {
                        proof {
                            assert(!(i64::MIN <= gprev + gcp + v <= i64::MAX));
                            assert(spec_load_c_list(data@, b as int, gcnt, i as int, gprev,
                                gcp) is None);
                            reveal(spec_index_after_u);
                            reveal(spec_index_after_c);
                            assert(gp is None);
                        }
                        return Err(Error::Corrupt);
                    },
                };
                // Move the prediction by half the error, as the encoder
                // did after writing this entry.
                let half: i64 = if v >= 0 {
                    v / 2
                } else {
                    if v == i64::MIN {
                        proof {
                            assert(spec_load_c_list(data@, b as int, gcnt, i as int, gprev,
                                gcp) is None);
                            reveal(spec_index_after_u);
                            reveal(spec_index_after_c);
                            assert(gp is None);
                        }
                        return Err(Error::Corrupt);
                    }
                    -((-v) / 2)
                };
                proof {
                    assert(half as int == spec_half(v as int));
                }
                let moved = match c_predict.checked_add(half) {
                    Some(x) => x,
                    None => {
                        proof {
                            assert(!(i64::MIN <= gcp + spec_half(v as int) <= i64::MAX));
                            assert(spec_load_c_list(data@, b as int, gcnt, i as int, gprev,
                                gcp) is None);
                            reveal(spec_index_after_u);
                            reveal(spec_index_after_c);
                            assert(gp is None);
                        }
                        return Err(Error::Corrupt);
                    },
                };
                c_predict = moved;
                full
            };
            proof {
                assert(c_off as int == if i == 0 { v as int } else { gprev + gcp + v });
                if i > 0 {
                    assert(c_predict as int == gcp + spec_half(v as int));
                }
            }
            let ghost bprev: int = b as int;
            let ghost cprev = comp_offsets@;
            let ghost iprev: int = i as int;
            comp_offsets.push(c_off);
            b = b + n;
            i = i + 1;
            proof {
                let tail = spec_load_c_list(data@, b as int, gcnt, iprev + 1, c_off as int,
                    c_predict as int);
                assert(spec_load_c_list(data@, bprev, gcnt, iprev, gprev, gcp)
                    == spec_list_prepend(seq![c_off], tail));
                lemma_prepend_push(cprev, c_off, tail);
                assert(comp_offsets@ == cprev.push(c_off));
                assert(comp_offsets@[i - 1] == c_off);
            }
        }
        proof {
            lemma_c_done(comp_offsets@, data@, b as int, gcnt,
                if entries == 0 { 0int } else { comp_offsets@[entries - 1] as int },
                c_predict as int);
            assert(gp == spec_index_after_c(data@, te, tu, tc, gus,
                Some((comp_offsets@, b as int))));
        }
        // Rebuild and validate the entries.
        let ghost gcs = comp_offsets@;
        proof {
            assert(gus.len() == gcnt && gcs.len() == gcnt);
        }
        let mut k: usize = 0;
        while k < entries
            invariant
                self.wf(),
                self.pairs().len() == k,
                k <= entries,
                gcnt == entries as int,
                entries == uncomp_offsets@.len(),
                entries == comp_offsets@.len(),
                gus == uncomp_offsets@,
                gcs == comp_offsets@,
                self.spec_total_uncompressed() == tu,
                self.spec_total_compressed() == tc,
                self.spec_est_block() == te,
                gp == spec_index_parse(data@),
                gp == spec_index_after_c(data@, te, tu, tc, gus, Some((gcs, b as int))),
                b <= data@.len(),
                forall|j: int| 0 <= j < k ==> (#[trigger] self.pairs()[j])
                    == (comp_offsets@[j], uncomp_offsets@[j]),
                forall|j: int| 0 <= j < k ==> #[trigger] gcs[j] >= 0 && gus[j] >= 0,
                forall|j: int| 1 <= j < k ==> gus[j - 1] < #[trigger] gus[j]
                    && gcs[j - 1] <= gcs[j],
            decreases entries - k,
        {
            let c = comp_offsets[k];
            let u = uncomp_offsets[k];
            if c < 0 || u < 0 {
                self.info = Vec::new();
                proof {
                    assert(self.pairs() =~= Seq::<(i64, i64)>::empty());
                    assert(!(gcs[k as int] >= 0 && gus[k as int] >= 0));
                    assert(!spec_entries_ok(gcs, gus));
                    reveal(spec_index_after_u);
                    reveal(spec_index_after_c);
                    assert(gp is None);
                }
                return Err(Error::Corrupt);
            }
            if k > 0 {
                let pc = comp_offsets[k - 1];
                let pu = uncomp_offsets[k - 1];
                if pu >= u || pc > c {
                    self.info = Vec::new();
                    proof {
                        assert(self.pairs() =~= Seq::<(i64, i64)>::empty());
                        assert(!(gus[k - 1] < gus[k as int] && gcs[k - 1] <= gcs[k as int]));
                        assert(!spec_entries_ok(gcs, gus));
                        reveal(spec_index_after_u);
                        reveal(spec_index_after_c);
                        assert(gp is None);
                    }
                    return Err(Error::Corrupt);
                }
            }
            let ghost ppre = self.pairs();
            self.info.push(IndexEntry { compressed_offset: c, uncompressed_offset: u });
            proof {
                assert(self.pairs() =~= ppre.push((c, u)));
                assert forall|i1: int, j1: int| 0 <= i1 < j1 < self.pairs().len()
                    implies (#[trigger] self.pairs()[i1]).1 < (#[trigger] self.pairs()[j1]).1
                        && self.pairs()[i1].0 <= self.pairs()[j1].0 by {
                    if j1 == self.pairs().len() - 1 {
                        assert(k > 0);
                        assert(ppre[k - 1] == (comp_offsets@[k - 1], uncomp_offsets@[k - 1]));
                        if i1 < k - 1 {
                            assert(ppre[i1].1 < ppre[k - 1].1 && ppre[i1].0 <= ppre[k - 1].0);
                        }
                    } else {
                        assert(ppre[i1].1 < ppre[j1].1 && ppre[i1].0 <= ppre[j1].0);
                    }
                }
            }
            k = k + 1;
        }
        proof {
            assert(spec_entries_ok(gcs, gus));
        }
        // Validate the trailer.
        if data.len() - b < 10 {
            self.info = Vec::new();
            proof {
                assert(self.pairs() =~= Seq::<(i64, i64)>::empty());
                lemma_after_c_fail(data@, te, tu, tc, gus, gcs, b as int);
                assert(gp is None);
            }
            return Err(Error::Corrupt);
        }
        let t = b + 4;
        if data[t] != 0x00 || data[t + 1] != 0x78 || data[t + 2] != 0x64 || data[t + 3] != 0x69
            || data[t + 4] != 0x32 || data[t + 5] != 0x73 {
            self.info = Vec::new();
            proof {
                assert(self.pairs() =~= Seq::<(i64, i64)>::empty());
                lemma_after_c_fail(data@, te, tu, tc, gus, gcs, b as int);
                assert(gp is None);
            }
            return Err(Error::Corrupt);
        }
        proof {
            lemma_after_c_some(data@, te, tu, tc, gus, gcs, b as int);
            assert(gp == Some((Seq::new(gcs.len(), |i: int| (gcs[i], gus[i])), te, tu, tc,
                b as int + 10)));
            assert(self.pairs() =~= Seq::new(gcs.len(), |i: int| (gcs[i], gus[i])));
        }
        Ok(t + 6)
    }

    /// Find the pair at or before the wanted uncompressed offset. A
    /// negative offset counts back from the end. With no stored pair at or
    /// before the target, both offsets come back zero.
    pub fn find(&self, offset: i64) -> (r: Result<(i64, i64), Error>)
        requires
            self.wf(),
        ensures
            match r {
                Ok(p) => {
                    &&& self.spec_total_uncompressed() >= 0
                    &&& ({
                        let t = if offset < 0 {
                            offset + self.spec_total_uncompressed()
                        } else {
                            offset as int
                        };
                        &&& 0 <= t <= self.spec_total_uncompressed()
                        &&& (p.0, p.1) == spec_find_entry(self.pairs(), t)
                    })
                },
                Err(e) => {
                    ||| self.spec_total_uncompressed() < 0 && e == Error::Corrupt
                    ||| (offset < 0 && offset + self.spec_total_uncompressed() < 0
                        && e == Error::InvalidInput("offset before start"))
                    ||| ({
                        let t = if offset < 0 {
                            offset + self.spec_total_uncompressed()
                        } else {
                            offset as int
                        };
                        t > self.spec_total_uncompressed() && e == Error::InvalidInput(
                            "offset beyond end")
                    })
                },
            },
    {
        if self.total_uncompressed < 0 {
            return Err(Error::Corrupt);
        }
        let target: i64;
        if offset < 0 {
            let t = offset + self.total_uncompressed;
            if t < 0 {
                return Err(Error::InvalidInput("offset before start"));
            }
            target = t;
        } else {
            target = offset;
        }
        if target > self.total_uncompressed {
            return Err(Error::InvalidInput("offset beyond end"));
        }
        if self.info.len() > 200 {
            // Binary search for the greatest entry at or before the target.
            let mut lo: usize = 0;
            let mut hi: usize = self.info.len();
            // After the loop, entries below `lo` are at or before the
            // target and entries from `hi` on are beyond it.
            while lo < hi
                invariant
                    self.wf(),
                    lo <= hi <= self.pairs().len(),
                    forall|i: int| 0 <= i < lo ==> (#[trigger] self.pairs()[i]).1 <= target,
                    forall|i: int| hi <= i < self.pairs().len()
                        ==> (#[trigger] self.pairs()[i]).1 > target,
                decreases hi - lo,
            {
                let mid = lo + (hi - lo) / 2;
                let e = self.info[mid];
                if e.uncompressed_offset <= target {
                    lo = mid + 1;
                    proof {
                        assert(forall|i: int| 0 <= i < lo ==> (#[trigger] self.pairs()[i]).1
                            <= self.pairs()[mid as int].1);
                    }
                } else {
                    hi = mid;
                    proof {
                        assert(forall|i: int| hi <= i < self.pairs().len()
                            ==> (#[trigger] self.pairs()[i]).1 >= self.pairs()[mid as int].1);
                    }
                }
            }
            if lo == 0 {
                proof {
                    lemma_find_entry_none(self.pairs(), target as int);
                }
                return Ok((0, 0));
            }
            let e = self.info[lo - 1];
            proof {
                lemma_find_entry_at(self.pairs(), target as int, lo - 1 as int);
            }
            return Ok((e.compressed_offset, e.uncompressed_offset));
        }
        // Linear scan for small indexes.
        let mut compressed_off: i64 = 0;
        let mut uncompressed_off: i64 = 0;
        let mut k: usize = 0;
        let mut taken: usize = 0;
        while k < self.info.len()
            invariant
                self.wf(),
                k <= self.pairs().len(),
                taken <= k,
                forall|i: int| taken <= i < k ==> (#[trigger] self.pairs()[i]).1 > target,
                taken == 0 ==> compressed_off == 0 && uncompressed_off == 0
                    && (forall|i: int| 0 <= i < k ==> (#[trigger] self.pairs()[i]).1 > target),
                taken > 0 ==> taken - 1 < self.pairs().len()
                    && (compressed_off, uncompressed_off) == self.pairs()[taken - 1]
                    && self.pairs()[taken - 1].1 <= target,
            decreases self.pairs().len() - k,
        {
            let e = self.info[k];
            if e.uncompressed_offset > target {
                k = k + 1;
            } else {
                compressed_off = e.compressed_offset;
                uncompressed_off = e.uncompressed_offset;
                k = k + 1;
                taken = k;
            }
        }
        proof {
            if taken == 0 {
                lemma_find_entry_none(self.pairs(), target as int);
            } else {
                assert(forall|i: int| taken <= i < self.pairs().len()
                    ==> (#[trigger] self.pairs()[i]).1 > target);
                lemma_find_entry_at(self.pairs(), target as int, taken - 1 as int);
            }
        }
        Ok((compressed_off, uncompressed_off))
    }
}

/// The pair `find` answers with: the last pair at or before `t`, or zeros
/// where none is.
pub open spec fn spec_find_entry(s: Seq<(i64, i64)>, t: int) -> (i64, i64)
    decreases s.len(),
{
    if s.len() == 0 {
        (0, 0)
    } else if s.last().1 <= t {
        s.last()
    } else {
        spec_find_entry(s.drop_last(), t)
    }
}

/// With no pair at or before the target, the answer is zeros.
proof fn lemma_find_entry_none(s: Seq<(i64, i64)>, t: int)
    requires
        forall|i: int| 0 <= i < s.len() ==> (#[trigger] s[i]).1 > t,
    ensures
        spec_find_entry(s, t) == (0i64, 0i64),
    decreases s.len(),
{
    if s.len() > 0 {
        assert(forall|i: int| 0 <= i < s.drop_last().len() ==> (#[trigger] s.drop_last()[i]).1
            > t) by {
            assert(forall|i: int| 0 <= i < s.drop_last().len()
                ==> (#[trigger] s.drop_last()[i]) == s[i]);
        }
        lemma_find_entry_none(s.drop_last(), t);
    }
}

/// The pair at `k` is the answer when it is at or before the target and
/// everything after it is beyond.
proof fn lemma_find_entry_at(s: Seq<(i64, i64)>, t: int, k: int)
    requires
        0 <= k < s.len(),
        s[k].1 <= t,
        forall|i: int| k < i < s.len() ==> (#[trigger] s[i]).1 > t,
    ensures
        spec_find_entry(s, t) == s[k],
    decreases s.len(),
{
    if k == s.len() - 1 {
    } else {
        assert(s.last().1 > t);
        assert(forall|i: int| 0 <= i < s.drop_last().len() ==> (#[trigger] s.drop_last()[i])
            == s[i]);
        lemma_find_entry_at(s.drop_last(), t, k);
    }
}

/// The pair `find` returns is the largest stored pair not beyond the
/// target: its uncompressed offset is at or before `t`, and every stored
/// pair at or before `t` sits at or before it.
pub proof fn lemma_find_entry_max(s: Seq<(i64, i64)>, t: int)
    requires
        forall|i: int, j: int| 0 <= i < j < s.len() ==> (#[trigger] s[i]).1 < (#[trigger] s[j]).1,
        exists|i: int| 0 <= i < s.len() && (#[trigger] s[i]).1 <= t,
    ensures
        exists|i: int|
            {
                &&& 0 <= i < s.len()
                &&& (#[trigger] s[i]) == spec_find_entry(s, t)
                &&& s[i].1 <= t
                &&& forall|j: int| 0 <= j < s.len() && (#[trigger] s[j]).1 <= t ==> s[j].1 <= s[i].1
            },
    decreases s.len(),
{
    let w = choose|i: int| 0 <= i < s.len() && (#[trigger] s[i]).1 <= t;
    if s.last().1 <= t {
        let k = s.len() - 1;
        assert(s[k] == spec_find_entry(s, t));
        assert(forall|j: int| 0 <= j < s.len() && (#[trigger] s[j]).1 <= t ==> s[j].1 <= s[k].1);
    } else {
        assert(w < s.len() - 1);
        assert(forall|i: int| 0 <= i < s.drop_last().len() ==> (#[trigger] s.drop_last()[i])
            == s[i]);
        assert(0 <= w < s.drop_last().len() && s.drop_last()[w].1 <= t);
        lemma_find_entry_max(s.drop_last(), t);
        let k = choose|i: int|
            {
                &&& 0 <= i < s.drop_last().len()
                &&& (#[trigger] s.drop_last()[i]) == spec_find_entry(s.drop_last(), t)
                &&& s.drop_last()[i].1 <= t
                &&& forall|j: int| 0 <= j < s.drop_last().len()
                    && (#[trigger] s.drop_last()[j]).1 <= t ==> s.drop_last()[j].1
                    <= s.drop_last()[i].1
            };
        assert(s[k] == spec_find_entry(s, t));
        assert forall|j: int| 0 <= j < s.len() && (#[trigger] s[j]).1 <= t implies s[j].1
            <= s[k].1 by {
            if j < s.len() - 1 {
                assert(s.drop_last()[j] == s[j]);
                assert(s.drop_last()[j].1 <= s.drop_last()[k].1);
            } else {
                assert(s[j].1 > t);
            }
        }
    }
}



/// The zig-zag varint encoding of a signed value.
pub open spec fn zz_enc(v: i64) -> Seq<u8> {
    varint_enc(spec_zigzag(v))
}

/// The zig-zag varint parsed at absolute position `b` of `data`: the
/// signed value and the bytes consumed.
pub open spec fn zz_dec(data: Seq<u8>, b: int) -> Option<(i64, int)> {
    match crate::varint::spec_parse_varint(data.skip(b)) {
        Some((v, n)) => Some((spec_unzigzag(v as u64), n)),
        None => None,
    }
}

/// Entry `j` of the arithmetic progression `0, est, 2*est, ...`, with
/// the step representable.
pub open spec fn spec_prog_at(ps: Seq<(i64, i64)>, est: int, j: int) -> bool {
    if j == 0 {
        ps[0].1 == 0
    } else {
        ps[j - 1].1 + est <= i64::MAX && ps[j].1 == ps[j - 1].1 + est
    }
}

/// Whether the uncompressed offsets are exactly the arithmetic
/// progression `0, est, 2*est, ...` (with every step representable), so
/// that the serialized frame may omit them.
pub open spec fn spec_prog_ok(ps: Seq<(i64, i64)>, est: int) -> bool {
    forall|i: int| 0 <= i < ps.len() ==> #[trigger] spec_prog_at(ps, est, i)
}

/// The serialized uncompressed-offset deltas from entry `i` on: the first
/// entry plain, later ones as the distance beyond the estimated block.
pub open spec fn spec_u_deltas(ps: Seq<(i64, i64)>, est: int, i: int) -> Seq<u8>
    decreases ps.len() - i,
{
    if i < 0 || i >= ps.len() {
        Seq::<u8>::empty()
    } else if i == 0 {
        zz_enc(ps[0].1) + spec_u_deltas(ps, est, 1)
    } else {
        zz_enc((ps[i].1 - ps[i - 1].1 - est) as i64) + spec_u_deltas(ps, est, i + 1)
    }
}

/// The truncating half used to move the compressed-offset prediction.
pub open spec fn spec_half(v: int) -> int {
    if v >= 0 {
        v / 2
    } else {
        -((-v) / 2)
    }
}

/// The serialized compressed-offset deltas from entry `i` on, against the
/// moving prediction `cp`.
pub open spec fn spec_c_deltas(ps: Seq<(i64, i64)>, est: int, i: int, cp: int) -> Seq<u8>
    decreases ps.len() - i,
{
    if i < 0 || i >= ps.len() {
        Seq::<u8>::empty()
    } else if i == 0 {
        zz_enc(ps[0].0) + spec_c_deltas(ps, est, 1, cp)
    } else {
        zz_enc((ps[i].0 - ps[i - 1].0 - cp) as i64) + spec_c_deltas(ps, est, i + 1,
            cp + spec_half(ps[i].0 - ps[i - 1].0 - cp))
    }
}

/// The index frame body before its size field: the header, the totals,
/// the estimated block size, the entry count, the presence flag and the
/// offset lists. Opaque so that callers treat the frame as a value.
#[verifier::opaque]
pub open spec fn spec_index_head(ps: Seq<(i64, i64)>, est: int, u_total: int, c_total: int)
    -> Seq<u8> {
    seq![0x73u8, 0x32u8, 0x69u8, 0x64u8, 0x78u8, 0x00u8] + zz_enc(u_total as i64)
        + zz_enc(c_total as i64) + zz_enc(est as i64) + zz_enc(ps.len() as i64)
        + (if spec_prog_ok(ps, est) {
            seq![0u8] + spec_c_deltas(ps, est, 0, est / 2)
        } else {
            seq![1u8] + spec_u_deltas(ps, est, 0) + spec_c_deltas(ps, est, 0, est / 2)
        })
}

/// The whole serialized index body: the head, a 32-bit total size that
/// counts the chunk header, the body and the trailer, then the trailer.
/// Opaque so that callers treat the frame as a value.
#[verifier::opaque]
pub open spec fn spec_index_body(ps: Seq<(i64, i64)>, est: int, u_total: int, c_total: int)
    -> Seq<u8> {
    let head = spec_index_head(ps, est, u_total, c_total);
    let ts = head.len() + 14;
    head + seq![
        (ts % 256) as u8,
        ((ts / 256) % 256) as u8,
        ((ts / 65536) % 256) as u8,
        ((ts / 16777216) % 256) as u8,
        0x00u8,
        0x78u8,
        0x64u8,
        0x69u8,
        0x32u8,
        0x73u8,
    ]
}

/// The serialized index chunk as `append_to` emits it: the skippable
/// chunk type, a 24-bit body length, then the body.
pub open spec fn spec_index_frame(ps: Seq<(i64, i64)>, est: int, u_total: int, c_total: int)
    -> Seq<u8> {
    let body = spec_index_body(ps, est, u_total, c_total);
    seq![
        0x99u8,
        (body.len() % 256) as u8,
        ((body.len() / 256) % 256) as u8,
        ((body.len() / 65536) % 256) as u8,
    ] + body
}

/// Parse the delta-coded uncompressed offsets: entries `i` to `cnt` from
/// position `b` on, `prev` the previous offset. Mirrors the loader: a bad
/// varint or an offset outside `i64` is a failure.
pub open spec fn spec_load_u_list(data: Seq<u8>, b: int, cnt: int, i: int, est: int, prev: int)
    -> Option<(Seq<i64>, int)>
    decreases cnt - i,
{
    if i >= cnt {
        Some((Seq::<i64>::empty(), b))
    } else {
        match zz_dec(data, b) {
            Some((v, n)) => {
                if i > 0 && !(i64::MIN <= prev + est <= i64::MAX) {
                    None
                } else {
                    let u = if i == 0 {
                        v as int
                    } else {
                        prev + est + v
                    };
                    if !(i64::MIN <= u <= i64::MAX) {
                        None
                    } else {
                        match spec_load_u_list(data, b + n, cnt, i + 1, est, u) {
                            Some((tail, e)) => Some((seq![u as i64] + tail, e)),
                            None => None,
                        }
                    }
                }
            },
            None => None,
        }
    }
}

/// The uncompressed offsets when the frame omits them: the arithmetic
/// progression of the estimated block size, while it stays in `i64`.
pub open spec fn spec_prog_u_list(cnt: int, i: int, est: int) -> Option<Seq<i64>>
    decreases cnt - i,
{
    if i >= cnt {
        Some(Seq::<i64>::empty())
    } else if !(i64::MIN <= est * i <= i64::MAX) {
        None
    } else {
        match spec_prog_u_list(cnt, i + 1, est) {
            Some(tail) => Some(seq![(est * i) as i64] + tail),
            None => None,
        }
    }
}

/// Parse the compressed offsets against the moving prediction `cp`,
/// `prev` the previous offset. Mirrors the loader's overflow checks.
pub open spec fn spec_load_c_list(data: Seq<u8>, b: int, cnt: int, i: int, prev: int, cp: int)
    -> Option<(Seq<i64>, int)>
    decreases cnt - i,
{
    if i >= cnt {
        Some((Seq::<i64>::empty(), b))
    } else {
        match zz_dec(data, b) {
            Some((v, n)) => {
                if i == 0 {
                    match spec_load_c_list(data, b + n, cnt, 1, v as int, cp) {
                        Some((tail, e)) => Some((seq![v] + tail, e)),
                        None => None,
                    }
                } else if !(i64::MIN <= prev + cp <= i64::MAX) {
                    None
                } else if !(i64::MIN <= prev + cp + v <= i64::MAX) {
                    None
                } else if v == i64::MIN {
                    None
                } else if !(i64::MIN <= cp + spec_half(v as int) <= i64::MAX) {
                    None
                } else {
                    match spec_load_c_list(data, b + n, cnt, i + 1, prev + cp + v,
                        cp + spec_half(v as int)) {
                        Some((tail, e)) => Some((seq![(prev + cp + v) as i64] + tail, e)),
                        None => None,
                    }
                }
            },
            None => None,
        }
    }
}

/// Reconstructed offset lists that make a sound index: non-negative,
/// uncompressed strictly increasing, compressed non-decreasing.
pub open spec fn spec_entries_ok(cs: Seq<i64>, us: Seq<i64>) -> bool {
    &&& forall|i: int| 0 <= i < cs.len() ==> #[trigger] cs[i] >= 0 && us[i] >= 0
    &&& forall|i: int| 1 <= i < cs.len() ==> us[i - 1] < #[trigger] us[i] && cs[i - 1] <= cs[i]
}

/// The tail of the index parse, after the offset lists: validate the
/// entries, skip the size field and check the trailer. Opaque so that
/// the loader's loops treat it as a value.
#[verifier::opaque]
pub open spec fn spec_index_after_c(data: Seq<u8>, est: int, ut: int, ct: int, us: Seq<i64>,
    cres: Option<(Seq<i64>, int)>) -> Option<(Seq<(i64, i64)>, int, int, int, int)> {
    match cres {
        Some(p) => {
            let cs = p.0;
            let b2 = p.1;
            if us.len() != cs.len() {
                None
            } else if !spec_entries_ok(cs, us) {
                None
            } else if data.len() - b2 < 10 {
                None
            } else if !(data[b2 + 4] == 0x00u8 && data[b2 + 5] == 0x78u8
                && data[b2 + 6] == 0x64u8 && data[b2 + 7] == 0x69u8 && data[b2 + 8] == 0x32u8
                && data[b2 + 9] == 0x73u8) {
                None
            } else {
                Some((Seq::new(cs.len(), |i: int| (cs[i], us[i])), est, ut, ct, b2 + 10))
            }
        },
        None => None,
    }
}

/// The middle of the index parse: the compressed offsets after the
/// uncompressed ones. Opaque so that the loader's loops treat it as a
/// value.
#[verifier::opaque]
pub open spec fn spec_index_after_u(data: Seq<u8>, cnt: int, est: int, ut: int, ct: int,
    ures: Option<(Seq<i64>, int)>) -> Option<(Seq<(i64, i64)>, int, int, int, int)> {
    match ures {
        Some(p) => spec_index_after_c(data, est, ut, ct, p.0,
            spec_load_c_list(data, p.1, cnt, 0, 0, est / 2)),
        None => None,
    }
}

/// What loading a serialized index yields: the reconstructed pairs, the
/// estimated block size, the totals and the bytes consumed — or `None`
/// exactly where the loader reports an error. Opaque so that callers
/// treat the parse as a value.
#[verifier::opaque]
pub open spec fn spec_index_parse(data: Seq<u8>) -> Option<(Seq<(i64, i64)>, int, int, int, int)> {
    if data.len() <= 16 {
        None
    } else if data[0] != 0x99u8 {
        None
    } else if data.len() - 4 < crate::tags::le24(data[1], data[2], data[3]) {
        None
    } else if !(data[4] == 0x73u8 && data[5] == 0x32u8 && data[6] == 0x69u8 && data[7] == 0x64u8
        && data[8] == 0x78u8 && data[9] == 0x00u8) {
        None
    } else {
        match zz_dec(data, 10) {
            Some((ut, n1)) => {
                if ut < 0 {
                    None
                } else {
                    match zz_dec(data, 10 + n1) {
                        Some((ct, n2)) => {
                            match zz_dec(data, 10 + n1 + n2) {
                                Some((est, n3)) => {
                                    if est < 0 {
                                        None
                                    } else {
                                        match zz_dec(data, 10 + n1 + n2 + n3) {
                                            Some((cnt, n4)) => {
                                                if !(0 <= cnt && cnt
                                                    <= MAX_INDEX_ENTRIES as i64) {
                                                    None
                                                } else {
                                                    let b0 = 10 + n1 + n2 + n3 + n4;
                                                    if b0 >= data.len() {
                                                        None
                                                    } else {
                                                        let ures = if data[b0] == 1u8 {
                                                            spec_load_u_list(data, b0 + 1,
                                                                cnt as int, 0, est as int, 0)
                                                        } else {
                                                            match spec_prog_u_list(cnt as int,
                                                                0, est as int) {
                                                                Some(us) => Some((us, b0 + 1)),
                                                                None => None,
                                                            }
                                                        };
                                                        spec_index_after_u(data, cnt as int,
                                                            est as int, ut as int, ct as int,
                                                            ures)
                                                    }
                                                }
                                            },
                                            None => None,
                                        }
                                    }
                                },
                                None => None,
                            }
                        },
                        None => None,
                    }
                }
            },
            None => None,
        }
    }
}

/// Prefix an already-reconstructed list onto a partial offset parse.
spec fn spec_list_prepend(pre: Seq<i64>, t: Option<(Seq<i64>, int)>) -> Option<(Seq<i64>, int)> {
    match t {
        Some(p) => Some((pre + p.0, p.1)),
        None => None,
    }
}

/// Prefix an already-reconstructed list onto a partial progression.
spec fn spec_prog_prepend(pre: Seq<i64>, t: Option<Seq<i64>>) -> Option<Seq<i64>> {
    match t {
        Some(tail) => Some(pre + tail),
        None => None,
    }
}

proof fn lemma_prepend_empty(t: Option<(Seq<i64>, int)>)
    ensures
        spec_list_prepend(Seq::<i64>::empty(), t) == t,
{
    match t {
        Some(p) => {
            assert(Seq::<i64>::empty() + p.0 =~= p.0);
        },
        None => {},
    }
}

proof fn lemma_prepend_push(pre: Seq<i64>, u: i64, t: Option<(Seq<i64>, int)>)
    ensures
        spec_list_prepend(pre, spec_list_prepend(seq![u], t)) == spec_list_prepend(pre.push(u),
            t),
{
    match t {
        Some(p) => {
            assert(pre + (seq![u] + p.0) =~= pre.push(u) + p.0);
        },
        None => {},
    }
}

proof fn lemma_prog_prepend_empty(t: Option<Seq<i64>>)
    ensures
        spec_prog_prepend(Seq::<i64>::empty(), t) == t,
{
    match t {
        Some(tail) => {
            assert(Seq::<i64>::empty() + tail =~= tail);
        },
        None => {},
    }
}

proof fn lemma_prog_prepend_push(pre: Seq<i64>, u: i64, t: Option<Seq<i64>>)
    ensures
        spec_prog_prepend(pre, spec_prog_prepend(seq![u], t)) == spec_prog_prepend(pre.push(u),
            t),
{
    match t {
        Some(tail) => {
            assert(pre + (seq![u] + tail) =~= pre.push(u) + tail);
        },
        None => {},
    }
}

proof fn lemma_u_done(pre: Seq<i64>, data: Seq<u8>, b: int, cnt: int, est: int, prev: int)
    ensures
        spec_list_prepend(pre, spec_load_u_list(data, b, cnt, cnt, est, prev))
            == Some((pre, b)),
{
    assert(pre + Seq::<i64>::empty() =~= pre);
}

proof fn lemma_c_done(pre: Seq<i64>, data: Seq<u8>, b: int, cnt: int, prev: int, cp: int)
    ensures
        spec_list_prepend(pre, spec_load_c_list(data, b, cnt, cnt, prev, cp))
            == Some((pre, b)),
{
    assert(pre + Seq::<i64>::empty() =~= pre);
}

proof fn lemma_prog_done(pre: Seq<i64>, cnt: int, est: int)
    ensures
        spec_prog_prepend(pre, spec_prog_u_list(cnt, cnt, est)) == Some(pre),
{
    assert(pre + Seq::<i64>::empty() =~= pre);
}

proof fn lemma_after_u_some(data: Seq<u8>, cnt: int, est: int, ut: int, ct: int, us: Seq<i64>,
    b1: int)
    ensures
        spec_index_after_u(data, cnt, est, ut, ct, Some((us, b1)))
            == spec_index_after_c(data, est, ut, ct, us,
                spec_load_c_list(data, b1, cnt, 0, 0, est / 2)),
{
    reveal(spec_index_after_u);
}

proof fn lemma_after_c_some(data: Seq<u8>, est: int, ut: int, ct: int, us: Seq<i64>,
    cs: Seq<i64>, b2: int)
    requires
        us.len() == cs.len(),
        spec_entries_ok(cs, us),
        data.len() - b2 >= 10,
        data[b2 + 4] == 0x00u8,
        data[b2 + 5] == 0x78u8,
        data[b2 + 6] == 0x64u8,
        data[b2 + 7] == 0x69u8,
        data[b2 + 8] == 0x32u8,
        data[b2 + 9] == 0x73u8,
    ensures
        spec_index_after_c(data, est, ut, ct, us, Some((cs, b2)))
            == Some((Seq::new(cs.len(), |i: int| (cs[i], us[i])), est, ut, ct, b2 + 10)),
{
    reveal(spec_index_after_c);
}

proof fn lemma_after_c_fail(data: Seq<u8>, est: int, ut: int, ct: int, us: Seq<i64>,
    cs: Seq<i64>, b2: int)
    requires
        us.len() != cs.len() || !spec_entries_ok(cs, us) || data.len() - b2 < 10
            || !(data[b2 + 4] == 0x00u8 && data[b2 + 5] == 0x78u8 && data[b2 + 6] == 0x64u8
                && data[b2 + 7] == 0x69u8 && data[b2 + 8] == 0x32u8
                && data[b2 + 9] == 0x73u8),
    ensures
        spec_index_after_c(data, est, ut, ct, us, Some((cs, b2))) is None,
{
    reveal(spec_index_after_c);
}

/// A zig-zag varint takes between one and ten bytes.
proof fn lemma_zz_len(x: i64)
    ensures
        1 <= zz_enc(x).len() <= 10,
{
    crate::varint::lemma_varint_round_trip(spec_zigzag(x), Seq::<u8>::empty());
}

/// A zig-zag varint placed at `b`, with anything behind it, decodes
/// back to the value it encodes.
proof fn lemma_zz_round_trip(data: Seq<u8>, b: int, x: i64, rest: Seq<u8>)
    requires
        0 <= b <= data.len(),
        data.skip(b) == zz_enc(x) + rest,
    ensures
        zz_dec(data, b) == Some((x, zz_enc(x).len() as int)),
        1 <= zz_enc(x).len() <= 10,
        b + zz_enc(x).len() <= data.len(),
        data.skip(b + zz_enc(x).len()) == rest,
{
    crate::varint::lemma_varint_round_trip(spec_zigzag(x), rest);
    lemma_zigzag_round_trip(x);
    let n = zz_enc(x).len() as int;
    assert(data.skip(b).len() == data.len() - b);
    assert forall|k: int| 0 <= k < rest.len() implies data.skip(b + n)[k] == rest[k] by {
        assert(data.skip(b + n)[k] == data[b + n + k]);
        assert(data.skip(b)[n + k] == data[b + n + k]);
        assert((zz_enc(x) + rest)[n + k] == rest[k]);
    }
    assert(data.skip(b + n).len() == rest.len());
    assert(data.skip(b + n) =~= rest);
}

/// The uncompressed deltas take at most ten bytes an entry.
proof fn lemma_u_deltas_len(ps: Seq<(i64, i64)>, est: int, i: int)
    requires
        0 <= i <= ps.len(),
    ensures
        spec_u_deltas(ps, est, i).len() <= 10 * (ps.len() - i),
    decreases ps.len() - i,
{
    if i < ps.len() {
        lemma_u_deltas_len(ps, est, i + 1);
        if i == 0 {
            lemma_zz_len(ps[0].1);
        } else {
            lemma_zz_len((ps[i].1 - ps[i - 1].1 - est) as i64);
        }
    }
}

/// The compressed deltas take at most ten bytes an entry.
proof fn lemma_c_deltas_len(ps: Seq<(i64, i64)>, est: int, i: int, cp: int)
    requires
        0 <= i <= ps.len(),
    ensures
        spec_c_deltas(ps, est, i, cp).len() <= 10 * (ps.len() - i),
    decreases ps.len() - i,
{
    if i < ps.len() {
        if i == 0 {
            lemma_c_deltas_len(ps, est, 1, cp);
            lemma_zz_len(ps[0].0);
        } else {
            lemma_c_deltas_len(ps, est, i + 1, cp + spec_half(ps[i].0 - ps[i - 1].0 - cp));
            lemma_zz_len((ps[i].0 - ps[i - 1].0 - cp) as i64);
        }
    }
}

/// An index within the entry ceiling serializes to a head well under the
/// 24-bit chunk limit.
proof fn lemma_index_head_len(ps: Seq<(i64, i64)>, est: int, ut: int, ct: int)
    requires
        ps.len() <= MAX_INDEX_ENTRIES as int,
    ensures
        11 <= spec_index_head(ps, est, ut, ct).len() <= 47 + 20 * ps.len(),
        spec_index_head(ps, est, ut, ct).len() <= 0xffffff - 14,
        spec_index_body(ps, est, ut, ct).len() == spec_index_head(ps, est, ut, ct).len() + 10,
        21 <= spec_index_body(ps, est, ut, ct).len() <= 0xffffff,
{
    reveal(spec_index_head);
    reveal(spec_index_body);
    lemma_zz_len(ut as i64);
    lemma_zz_len(ct as i64);
    lemma_zz_len(est as i64);
    lemma_zz_len(ps.len() as i64);
    lemma_u_deltas_len(ps, est, 0);
    lemma_c_deltas_len(ps, est, 0, est / 2);
}

/// The serialized uncompressed deltas parse back to the offsets
/// themselves, entry `i` on.
proof fn lemma_u_list_round_trip(data: Seq<u8>, b: int, ps: Seq<(i64, i64)>, est: int, i: int,
    rest: Seq<u8>)
    requires
        forall|k: int| 0 <= k < ps.len() ==> (#[trigger] ps[k]).1 >= 0,
        forall|k: int, j: int| 0 <= k < j < ps.len()
            ==> (#[trigger] ps[k]).1 < (#[trigger] ps[j]).1,
        0 <= est <= i64::MAX,
        ps.len() > 0 ==> ps.last().1 + est <= i64::MAX,
        0 <= i <= ps.len(),
        0 <= b <= data.len(),
        data.skip(b) == spec_u_deltas(ps, est, i) + rest,
    ensures
        spec_load_u_list(data, b, ps.len() as int, i, est,
            if i == 0 { 0int } else { ps[i - 1].1 as int })
            == Some((Seq::new((ps.len() - i) as nat, |j: int| ps[i + j].1),
                b + spec_u_deltas(ps, est, i).len())),
    decreases ps.len() - i,
{
    let cnt = ps.len() as int;
    if i >= cnt {
        assert(spec_u_deltas(ps, est, i) =~= Seq::<u8>::empty());
        assert(Seq::new(0nat, |j: int| ps[i + j].1) =~= Seq::<i64>::empty());
    } else {
        let d: i64 = if i == 0 {
            ps[0].1
        } else {
            (ps[i].1 - ps[i - 1].1 - est) as i64
        };
        assert(spec_u_deltas(ps, est, i) == zz_enc(d) + spec_u_deltas(ps, est, i + 1));
        let tail_rest = spec_u_deltas(ps, est, i + 1) + rest;
        assert(data.skip(b) =~= zz_enc(d) + tail_rest);
        lemma_zz_round_trip(data, b, d, tail_rest);
        let n = zz_enc(d).len() as int;
        let prev: int = if i == 0 { 0int } else { ps[i - 1].1 as int };
        if i > 0 {
            assert(ps[i - 1].1 <= ps.last().1);
            assert(i64::MIN <= prev + est <= i64::MAX);
            assert(ps[i - 1].1 < ps[i].1);
            assert(d as int == ps[i].1 - ps[i - 1].1 - est);
        }
        let u: int = if i == 0 { d as int } else { prev + est + d };
        assert(u == ps[i].1);
        lemma_u_list_round_trip(data, b + n, ps, est, i + 1, rest);
        assert(seq![ps[i].1] + Seq::new((ps.len() - i - 1) as nat, |j: int| ps[i + 1 + j].1)
            =~= Seq::new((ps.len() - i) as nat, |j: int| ps[i + j].1));
    }
}

/// When the offsets are the plain progression, the loader rebuilds them
/// from the estimated block size alone.
proof fn lemma_prog_u_round_trip(ps: Seq<(i64, i64)>, est: int, i: int)
    requires
        spec_prog_ok(ps, est),
        0 <= est,
        0 <= i <= ps.len(),
        i > 0 ==> ps[i - 1].1 == est * (i - 1),
    ensures
        spec_prog_u_list(ps.len() as int, i, est)
            == Some(Seq::new((ps.len() - i) as nat, |j: int| ps[i + j].1)),
    decreases ps.len() - i,
{
    if i >= ps.len() {
        assert(Seq::new(0nat, |j: int| ps[i + j].1) =~= Seq::<i64>::empty());
    } else {
        assert(spec_prog_at(ps, est, i));
        if i == 0 {
            assert(est * 0 == 0) by (nonlinear_arith);
            assert(ps[0].1 == est * 0);
        } else {
            assert(est * i == est * (i - 1) + est) by (nonlinear_arith);
            assert(ps[i].1 == est * i);
        }
        assert(i64::MIN <= est * i <= i64::MAX);
        lemma_prog_u_round_trip(ps, est, i + 1);
        assert(seq![(est * i) as i64]
            + Seq::new((ps.len() - i - 1) as nat, |j: int| ps[i + 1 + j].1)
            =~= Seq::new((ps.len() - i) as nat, |j: int| ps[i + j].1));
    }
}

/// The serialized compressed deltas parse back to the offsets
/// themselves: the loader's moving prediction retraces the writer's.
proof fn lemma_c_list_round_trip(data: Seq<u8>, b: int, ps: Seq<(i64, i64)>, est: int, i: int,
    cp: int, rest: Seq<u8>)
    requires
        forall|k: int| 0 <= k < ps.len() ==> (#[trigger] ps[k]).0 >= 0,
        forall|k: int, j: int| 0 <= k < j < ps.len()
            ==> (#[trigger] ps[k]).0 <= (#[trigger] ps[j]).0,
        0 <= est <= i64::MAX,
        ps.len() > 0 ==> ps.last().0 + est / 2 <= i64::MAX,
        ps.len() > 0 ==> 2 * ps.last().0 <= i64::MAX,
        0 <= i <= ps.len(),
        0 <= cp,
        cp <= est / 2 || (ps.len() > 0 && cp <= ps.last().0),
        0 <= b <= data.len(),
        data.skip(b) == spec_c_deltas(ps, est, i, cp) + rest,
    ensures
        spec_load_c_list(data, b, ps.len() as int, i,
            if i == 0 { 0int } else { ps[i - 1].0 as int }, cp)
            == Some((Seq::new((ps.len() - i) as nat, |j: int| ps[i + j].0),
                b + spec_c_deltas(ps, est, i, cp).len())),
    decreases ps.len() - i,
{
    let cnt = ps.len() as int;
    if i >= cnt {
        assert(spec_c_deltas(ps, est, i, cp) =~= Seq::<u8>::empty());
        assert(Seq::new(0nat, |j: int| ps[i + j].0) =~= Seq::<i64>::empty());
    } else if i == 0 {
        let d: i64 = ps[0].0;
        assert(spec_c_deltas(ps, est, 0, cp) == zz_enc(d) + spec_c_deltas(ps, est, 1, cp));
        let tail_rest = spec_c_deltas(ps, est, 1, cp) + rest;
        assert(data.skip(b) =~= zz_enc(d) + tail_rest);
        lemma_zz_round_trip(data, b, d, tail_rest);
        let n = zz_enc(d).len() as int;
        lemma_c_list_round_trip(data, b + n, ps, est, 1, cp, rest);
        assert(seq![ps[0].0] + Seq::new((ps.len() - 1) as nat, |j: int| ps[1 + j].0)
            =~= Seq::new(ps.len() as nat, |j: int| ps[j].0));
    } else {
        let dc: int = ps[i].0 - ps[i - 1].0;
        assert(ps[i - 1].0 <= ps[i].0);
        assert(ps[i].0 <= ps.last().0 && ps[i - 1].0 <= ps.last().0);
        let v: int = dc - cp;
        assert(i64::MIN < v <= i64::MAX);
        let d: i64 = v as i64;
        assert(spec_c_deltas(ps, est, i, cp) == zz_enc(d)
            + spec_c_deltas(ps, est, i + 1, cp + spec_half(v)));
        let tail_rest = spec_c_deltas(ps, est, i + 1, cp + spec_half(v)) + rest;
        assert(data.skip(b) =~= zz_enc(d) + tail_rest);
        lemma_zz_round_trip(data, b, d, tail_rest);
        let n = zz_enc(d).len() as int;
        let prev: int = ps[i - 1].0 as int;
        assert(i64::MIN <= prev + cp <= i64::MAX);
        assert(prev + cp + v == ps[i].0);
        assert(d != i64::MIN);
        // The moved prediction keeps its bound: toward the distance when
        // it grows, never past the old value when it shrinks.
        let cp2 = cp + spec_half(v);
        if v >= 0 {
            assert(v / 2 >= 0 && v / 2 <= v);
            assert(cp2 <= dc && cp2 >= cp);
        } else {
            assert((-v) / 2 >= 0 && (-v) / 2 <= -v);
            assert(cp2 >= dc && cp2 <= cp);
        }
        assert(0 <= cp2);
        assert(cp2 <= est / 2 || cp2 <= ps.last().0);
        assert(i64::MIN <= cp + spec_half(d as int) <= i64::MAX);
        lemma_c_list_round_trip(data, b + n, ps, est, i + 1, cp2, rest);
        assert(seq![ps[i].0] + Seq::new((ps.len() - i - 1) as nat, |j: int| ps[i + 1 + j].0)
            =~= Seq::new((ps.len() - i) as nat, |j: int| ps[i + j].0));
    }
}

/// Pairs, block estimate and totals whose serialized frame is owed to
/// load back: sorted non-negative pairs within the entry ceiling, and
/// offsets far enough from the integer limits that the delta
/// reconstruction cannot overflow.
pub open spec fn spec_index_loadable(ps: Seq<(i64, i64)>, est: int, u_total: int, c_total: int)
    -> bool {
    &&& forall|i: int| 0 <= i < ps.len() ==> (#[trigger] ps[i]).0 >= 0 && ps[i].1 >= 0
    &&& forall|i: int, j: int| 0 <= i < j < ps.len()
        ==> (#[trigger] ps[i]).1 < (#[trigger] ps[j]).1
    &&& forall|i: int, j: int| 0 <= i < j < ps.len()
        ==> (#[trigger] ps[i]).0 <= (#[trigger] ps[j]).0
    &&& 0 <= est <= i64::MAX
    &&& 0 <= u_total <= i64::MAX
    &&& i64::MIN <= c_total <= i64::MAX
    &&& ps.len() <= MAX_INDEX_ENTRIES as int
    &&& ps.len() > 0 ==> ps.last().1 + est <= i64::MAX
    &&& ps.len() > 0 ==> ps.last().0 + est / 2 <= i64::MAX
    &&& ps.len() > 0 ==> 2 * ps.last().0 <= i64::MAX
}

/// The index round trip: the frame `append_to` writes for loadable pairs
/// and totals parses back — and so, by `load`'s contract, loads back —
/// to exactly those pairs and totals, consuming the whole frame.
/// The serialized frame flattened into its fields, with its lengths.
#[verifier::rlimit(100)]
#[verifier::spinoff_prover]
proof fn lemma_index_frame_flat(ps: Seq<(i64, i64)>, est: int, ut: int, ct: int)
    requires
        spec_index_loadable(ps, est, ut, ct),
    ensures
        ({
            let data = spec_index_frame(ps, est, ut, ct);
            let head = spec_index_head(ps, est, ut, ct);
            let l = spec_index_body(ps, est, ut, ct).len() as int;
            let flag_lists: Seq<u8> = if spec_prog_ok(ps, est) {
                seq![0u8] + spec_c_deltas(ps, est, 0, est / 2)
            } else {
                seq![1u8] + spec_u_deltas(ps, est, 0) + spec_c_deltas(ps, est, 0, est / 2)
            };
            let size_trailer = seq![
                ((head.len() + 14) % 256) as u8,
                (((head.len() + 14) / 256) % 256) as u8,
                (((head.len() + 14) / 65536) % 256) as u8,
                (((head.len() + 14) / 16777216) % 256) as u8,
                0x00u8,
                0x78u8,
                0x64u8,
                0x69u8,
                0x32u8,
                0x73u8,
            ];
            &&& data == seq![0x99u8, (l % 256) as u8, ((l / 256) % 256) as u8,
                ((l / 65536) % 256) as u8, 0x73u8, 0x32u8, 0x69u8, 0x64u8, 0x78u8, 0x00u8]
                + zz_enc(ut as i64) + zz_enc(ct as i64) + zz_enc(est as i64)
                + zz_enc(ps.len() as i64) + flag_lists + size_trailer
            &&& data.len() == 4 + l
            &&& 21 <= l <= 0xffffff
            &&& crate::tags::le24((l % 256) as u8, ((l / 256) % 256) as u8,
                ((l / 65536) % 256) as u8) == l
        }),
{
    reveal(spec_index_head);
    reveal(spec_index_body);
    let head = spec_index_head(ps, est, ut, ct);
    let body = spec_index_body(ps, est, ut, ct);
    let data = spec_index_frame(ps, est, ut, ct);
    lemma_index_head_len(ps, est, ut, ct);
    let l = body.len() as int;
    assert(crate::tags::le24((l % 256) as u8, ((l / 256) % 256) as u8,
        ((l / 65536) % 256) as u8) == l) by {
        assert(l == 65536 * (l / 65536) + 256 * ((l / 256) % 256) + l % 256) by (nonlinear_arith)
            requires 0 <= l < 0x1000000;
        assert((l / 65536) % 256 == l / 65536) by (nonlinear_arith)
            requires 0 <= l < 0x1000000;
    }
    let flag_lists: Seq<u8> = if spec_prog_ok(ps, est) {
        seq![0u8] + spec_c_deltas(ps, est, 0, est / 2)
    } else {
        seq![1u8] + spec_u_deltas(ps, est, 0) + spec_c_deltas(ps, est, 0, est / 2)
    };
    let size_trailer = seq![
        ((head.len() + 14) % 256) as u8,
        (((head.len() + 14) / 256) % 256) as u8,
        (((head.len() + 14) / 65536) % 256) as u8,
        (((head.len() + 14) / 16777216) % 256) as u8,
        0x00u8,
        0x78u8,
        0x64u8,
        0x69u8,
        0x32u8,
        0x73u8,
    ];
    assert(data =~= seq![0x99u8, (l % 256) as u8, ((l / 256) % 256) as u8,
        ((l / 65536) % 256) as u8, 0x73u8, 0x32u8, 0x69u8, 0x64u8, 0x78u8, 0x00u8]
        + zz_enc(ut as i64) + zz_enc(ct as i64) + zz_enc(est as i64)
        + zz_enc(ps.len() as i64) + flag_lists + size_trailer);
}

/// The byte layout of a serialized index frame: where each field sits
/// and what the loader's guards see there.
#[verifier::rlimit(100)]
#[verifier::spinoff_prover]
proof fn lemma_index_frame_layout(ps: Seq<(i64, i64)>, est: int, ut: int, ct: int)
    requires
        spec_index_loadable(ps, est, ut, ct),
    ensures
        ({
            let data = spec_index_frame(ps, est, ut, ct);
            let n1 = zz_enc(ut as i64).len() as int;
            let n2 = zz_enc(ct as i64).len() as int;
            let n3 = zz_enc(est as i64).len() as int;
            let n4 = zz_enc(ps.len() as i64).len() as int;
            let b0 = 10 + n1 + n2 + n3 + n4;
            let uds = spec_u_deltas(ps, est, 0);
            let cds = spec_c_deltas(ps, est, 0, est / 2);
            let st = data.skip(data.len() - 10);
            &&& data.len() > 16
            &&& data[0] == 0x99u8
            &&& data.len() - 4 >= crate::tags::le24(data[1], data[2], data[3])
            &&& data[4] == 0x73u8 && data[5] == 0x32u8 && data[6] == 0x69u8
                && data[7] == 0x64u8 && data[8] == 0x78u8 && data[9] == 0x00u8
            &&& zz_dec(data, 10) == Some((ut as i64, n1))
            &&& zz_dec(data, 10 + n1) == Some((ct as i64, n2))
            &&& zz_dec(data, 10 + n1 + n2) == Some((est as i64, n3))
            &&& zz_dec(data, 10 + n1 + n2 + n3) == Some((ps.len() as i64, n4))
            &&& b0 < data.len()
            &&& data[b0] == (if spec_prog_ok(ps, est) { 0u8 } else { 1u8 })
            &&& (if spec_prog_ok(ps, est) {
                data.skip(b0 + 1) == cds + st && b0 + 1 + cds.len() == data.len() - 10
            } else {
                data.skip(b0 + 1) == uds + (cds + st)
                    && b0 + 1 + uds.len() + cds.len() == data.len() - 10
                    && data.skip(b0 + 1 + uds.len()) == cds + st
            })
            &&& st.len() == 10
            &&& st[4] == 0x00u8 && st[5] == 0x78u8 && st[6] == 0x64u8 && st[7] == 0x69u8
                && st[8] == 0x32u8 && st[9] == 0x73u8
        }),
{
    lemma_index_frame_flat(ps, est, ut, ct);
    let head = spec_index_head(ps, est, ut, ct);
    let body = spec_index_body(ps, est, ut, ct);
    let data = spec_index_frame(ps, est, ut, ct);
    lemma_index_head_len(ps, est, ut, ct);
    let l = body.len() as int;
    let zz1 = zz_enc(ut as i64);
    let zz2 = zz_enc(ct as i64);
    let zz3 = zz_enc(est as i64);
    let zz4 = zz_enc(ps.len() as i64);
    let n1 = zz1.len() as int;
    let n2 = zz2.len() as int;
    let n3 = zz3.len() as int;
    let n4 = zz4.len() as int;
    lemma_zz_len(ut as i64);
    lemma_zz_len(ct as i64);
    lemma_zz_len(est as i64);
    lemma_zz_len(ps.len() as i64);
    let uds = spec_u_deltas(ps, est, 0);
    let cds = spec_c_deltas(ps, est, 0, est / 2);
    let flag_lists: Seq<u8> = if spec_prog_ok(ps, est) {
        seq![0u8] + cds
    } else {
        seq![1u8] + uds + cds
    };
    let size_trailer = seq![
        ((head.len() + 14) % 256) as u8,
        (((head.len() + 14) / 256) % 256) as u8,
        (((head.len() + 14) / 65536) % 256) as u8,
        (((head.len() + 14) / 16777216) % 256) as u8,
        0x00u8,
        0x78u8,
        0x64u8,
        0x69u8,
        0x32u8,
        0x73u8,
    ];
    assert(data == seq![0x99u8, (l % 256) as u8, ((l / 256) % 256) as u8,
        ((l / 65536) % 256) as u8, 0x73u8, 0x32u8, 0x69u8, 0x64u8, 0x78u8, 0x00u8]
        + zz1 + zz2 + zz3 + zz4 + flag_lists + size_trailer);
    let st = data.skip(data.len() - 10);
    assert(st =~= size_trailer);
    // The four header varints decode in place.
    assert(data.skip(10) =~= zz1 + (zz2 + zz3 + zz4 + flag_lists + size_trailer));
    lemma_zz_round_trip(data, 10, ut as i64, zz2 + zz3 + zz4 + flag_lists + size_trailer);
    assert(data.skip(10 + n1) =~= zz2 + (zz3 + zz4 + flag_lists + size_trailer));
    lemma_zz_round_trip(data, 10 + n1, ct as i64, zz3 + zz4 + flag_lists + size_trailer);
    assert(data.skip(10 + n1 + n2) =~= zz3 + (zz4 + flag_lists + size_trailer));
    lemma_zz_round_trip(data, 10 + n1 + n2, est as i64, zz4 + flag_lists + size_trailer);
    assert(data.skip(10 + n1 + n2 + n3) =~= zz4 + (flag_lists + size_trailer));
    lemma_zz_round_trip(data, 10 + n1 + n2 + n3, ps.len() as i64, flag_lists + size_trailer);
    let b0 = 10 + n1 + n2 + n3 + n4;
    assert(data.skip(b0) =~= flag_lists + size_trailer);
    assert(data[b0] == flag_lists[0]);
    if spec_prog_ok(ps, est) {
        assert(data.skip(b0 + 1) =~= cds + st);
    } else {
        assert(data.skip(b0 + 1) =~= uds + (cds + st));
        assert(data.skip(b0 + 1 + uds.len()) =~= cds + st);
    }
}

/// A frame whose guards and header varints check out parses into its
/// offset lists: the one unfolding of the parse model.
#[verifier::rlimit(100)]
proof fn lemma_parse_steps(data: Seq<u8>, utv: i64, n1: int, ctv: i64, n2: int, estv: i64,
    n3: int, cntv: i64, n4: int)
    requires
        data.len() > 16,
        data[0] == 0x99u8,
        data.len() - 4 >= crate::tags::le24(data[1], data[2], data[3]),
        data[4] == 0x73u8 && data[5] == 0x32u8 && data[6] == 0x69u8 && data[7] == 0x64u8
            && data[8] == 0x78u8 && data[9] == 0x00u8,
        zz_dec(data, 10) == Some((utv, n1)),
        utv >= 0,
        zz_dec(data, 10 + n1) == Some((ctv, n2)),
        zz_dec(data, 10 + n1 + n2) == Some((estv, n3)),
        estv >= 0,
        zz_dec(data, 10 + n1 + n2 + n3) == Some((cntv, n4)),
        0 <= cntv <= MAX_INDEX_ENTRIES as i64,
        10 + n1 + n2 + n3 + n4 < data.len(),
    ensures
        spec_index_parse(data) == spec_index_after_u(data, cntv as int, estv as int,
            utv as int, ctv as int,
            (if data[10 + n1 + n2 + n3 + n4] == 1u8 {
                spec_load_u_list(data, 10 + n1 + n2 + n3 + n4 + 1, cntv as int, 0,
                    estv as int, 0)
            } else {
                match spec_prog_u_list(cntv as int, 0, estv as int) {
                    Some(us) => Some((us, 10 + n1 + n2 + n3 + n4 + 1)),
                    None => None,
                }
            })),
{
    reveal(spec_index_parse);
}

/// The index round trip: the frame `append_to` writes for loadable
/// pairs and totals parses back — and so, by `load`'s contract, loads
/// back — to exactly those pairs and totals, consuming the whole frame.
#[verifier::rlimit(100)]
pub proof fn lemma_index_round_trip(ps: Seq<(i64, i64)>, est: int, ut: int, ct: int)
    requires
        spec_index_loadable(ps, est, ut, ct),
    ensures
        spec_index_parse(spec_index_frame(ps, est, ut, ct))
            == Some((ps, est, ut, ct, spec_index_frame(ps, est, ut, ct).len() as int)),
{
    lemma_index_frame_layout(ps, est, ut, ct);
    lemma_index_frame_lists(ps, est, ut, ct);
    let data = spec_index_frame(ps, est, ut, ct);
    let n1 = zz_enc(ut as i64).len() as int;
    let n2 = zz_enc(ct as i64).len() as int;
    let n3 = zz_enc(est as i64).len() as int;
    let n4 = zz_enc(ps.len() as i64).len() as int;
    let b0 = 10 + n1 + n2 + n3 + n4;
    lemma_parse_steps(data, ut as i64, n1, ct as i64, n2, est as i64, n3, ps.len() as i64, n4);
    let us = Seq::new(ps.len() as nat, |j: int| ps[j].1);
    let cs = Seq::new(ps.len() as nat, |j: int| ps[j].0);
    let b1: int = if spec_prog_ok(ps, est) {
        b0 + 1
    } else {
        b0 + 1 + spec_u_deltas(ps, est, 0).len()
    };
    let b2 = data.len() - 10;
    assert(spec_index_after_u(data, ps.len() as int, est, ut, ct,
        Some((us, b1))) == spec_index_after_c(data, est, ut, ct, us,
        spec_load_c_list(data, b1, ps.len() as int, 0, 0, est / 2))) by {
        reveal(spec_index_after_u);
    }
    assert(spec_index_after_c(data, est, ut, ct, us, Some((cs, b2)))
        == Some((ps, est, ut, ct, data.len() as int))) by {
        reveal(spec_index_after_c);
        let st = data.skip(b2);
        assert(data[b2 + 4] == st[4] && data[b2 + 5] == st[5] && data[b2 + 6] == st[6]
            && data[b2 + 7] == st[7] && data[b2 + 8] == st[8] && data[b2 + 9] == st[9]);
        assert(Seq::new(cs.len(), |i: int| (cs[i], us[i])) =~= ps);
    }
    assert(0 <= ps.len() as i64 && ps.len() as i64 <= MAX_INDEX_ENTRIES as i64);
}

/// The offset lists of a serialized frame parse back to the offsets,
/// which pass the loader's validation.
#[verifier::rlimit(100)]
proof fn lemma_index_frame_lists(ps: Seq<(i64, i64)>, est: int, ut: int, ct: int)
    requires
        spec_index_loadable(ps, est, ut, ct),
    ensures
        ({
            let data = spec_index_frame(ps, est, ut, ct);
            let b0 = 10 + zz_enc(ut as i64).len() as int + zz_enc(ct as i64).len() as int
                + zz_enc(est as i64).len() as int + zz_enc(ps.len() as i64).len() as int;
            let us = Seq::new(ps.len() as nat, |j: int| ps[j].1);
            let cs = Seq::new(ps.len() as nat, |j: int| ps[j].0);
            let b1 = if spec_prog_ok(ps, est) {
                b0 + 1
            } else {
                b0 + 1 + spec_u_deltas(ps, est, 0).len()
            };
            &&& (if spec_prog_ok(ps, est) {
                spec_prog_u_list(ps.len() as int, 0, est) == Some(us)
            } else {
                spec_load_u_list(data, b0 + 1, ps.len() as int, 0, est, 0)
                    == Some((us, b1 as int))
            })
            &&& spec_load_c_list(data, b1 as int, ps.len() as int, 0, 0, est / 2)
                == Some((cs, data.len() - 10))
            &&& spec_entries_ok(cs, us)
            &&& us.len() == cs.len()
        }),
{
    lemma_index_frame_layout(ps, est, ut, ct);
    let data = spec_index_frame(ps, est, ut, ct);
    let b0: int = 10 + zz_enc(ut as i64).len() as int + zz_enc(ct as i64).len() as int
        + zz_enc(est as i64).len() as int + zz_enc(ps.len() as i64).len() as int;
    let uds = spec_u_deltas(ps, est, 0);
    let cds = spec_c_deltas(ps, est, 0, est / 2);
    let st = data.skip(data.len() - 10);
    let us = Seq::new(ps.len() as nat, |j: int| ps[j].1);
    let cs = Seq::new(ps.len() as nat, |j: int| ps[j].0);
    let b1: int = if spec_prog_ok(ps, est) {
        lemma_prog_u_round_trip(ps, est, 0);
        b0 + 1
    } else {
        lemma_u_list_round_trip(data, b0 + 1, ps, est, 0, cds + st);
        b0 + 1 + uds.len()
    };
    lemma_c_list_round_trip(data, b1, ps, est, 0, est / 2, st);
    assert(b1 + cds.len() == data.len() - 10);
    assert(spec_entries_ok(cs, us)) by {
        assert(forall|i: int| 0 <= i < cs.len() ==> #[trigger] cs[i] == ps[i].0
            && us[i] == ps[i].1);
    }
}

/// The zig-zag image of a signed value: non-negatives to evens,
/// negatives to odds.
pub open spec fn spec_zigzag(v: i64) -> u64 {
    if v >= 0 {
        (2 * v) as u64
    } else {
        (-2 * (v as int) - 1) as u64
    }
}

/// The signed value a zig-zag image stands for.
pub open spec fn spec_unzigzag(v: u64) -> i64 {
    if v % 2 == 0 {
        (v / 2) as i64
    } else {
        (-((v / 2) as int) - 1) as i64
    }
}

/// Zig-zag is undone by its inverse.
pub proof fn lemma_zigzag_round_trip(v: i64)
    ensures
        spec_unzigzag(spec_zigzag(v)) == v,
{
}

/// Append the zig-zag varint encoding of a signed value.
pub fn encode_signed_varint(buf: &mut Vec<u8>, value: i64) -> (n: usize)
    ensures
        final(buf)@ == old(buf)@ + varint_enc(spec_zigzag(value)),
        n == varint_enc(spec_zigzag(value)).len(),
{
    let uvalue: u64 = if value >= 0 {
        (value as u64) * 2
    } else {
        ((-(value + 1)) as u64) * 2 + 1
    };
    assert(uvalue == spec_zigzag(value));
    crate::varint::encode_varint(buf, uvalue)
}

/// Decode a zig-zag varint; returns the value and the bytes read.
pub fn decode_signed_varint(data: &[u8]) -> (r: Result<(i64, usize), Error>)
    ensures
        match crate::varint::spec_parse_varint(data@) {
            Some((v, n)) => r matches Ok(p) && 0 <= v < 0x10000000000000000
                && p.0 == spec_unzigzag(v as u64) && p.1 == n && n <= data@.len(),
            None => r == Err::<(i64, usize), Error>(Error::Corrupt),
        },
{
    let (v, n) = match crate::varint::decode_varint(data) {
        Ok(p) => p,
        Err(e) => {
            return Err(Error::Corrupt);
        },
    };
    let value: i64 = if v % 2 == 0 {
        (v / 2) as i64
    } else {
        -((v / 2) as i64) - 1
    };
    Ok((value, n))
}

} // verus!
