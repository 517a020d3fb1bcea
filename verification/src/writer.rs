//! The stream writer: buffers input into block-sized windows, compresses
//! each into a framed chunk with a masked checksum, and can pad the
//! stream to a multiple of a configured size on close.

use vstd::prelude::*;

use crate::constants::spec_magic_chunk;
use crate::constants::DEFAULT_BLOCK_SIZE;
use crate::constants::MAX_BLOCK_SIZE;
use crate::constants::MIN_BLOCK_SIZE;
use crate::crc::crc;
use crate::encode::encode;
use crate::error::Error;
use crate::frame::chunks_payload;
use crate::frame::lemma_chunks_concat;
use crate::frame::lemma_chunks_single;

verus! {

/// Writer compresses data into the stream format, in memory: the
/// compressed stream accumulates in an owned sink, one framed chunk per
/// flushed block.
pub struct Writer {
    out: Vec<u8>,
    buf: Vec<u8>,
    block_size: usize,
    wrote_header: bool,
    padding: usize,
}

impl Writer {
    /// The compressed stream accumulated so far.
    pub closed spec fn sink(&self) -> Seq<u8> {
        self.out@
    }

    /// The bytes accepted but not yet flushed into a chunk.
    pub closed spec fn pending(&self) -> Seq<u8> {
        self.buf@
    }

    /// The configured block size.
    pub closed spec fn spec_block_size(&self) -> int {
        self.block_size as int
    }

    /// The configured padding, zero when off.
    pub closed spec fn spec_padding(&self) -> int {
        self.padding as int
    }

    /// A sound writer: the sink is empty or the magic followed by
    /// well-formed chunks, and the pending window fits one block.
    pub closed spec fn wf(&self) -> bool {
        &&& MIN_BLOCK_SIZE as int <= self.block_size as int <= MAX_BLOCK_SIZE as int
        &&& self.padding == 0 || 2 <= self.padding <= MAX_BLOCK_SIZE as int
        &&& self.buf@.len() <= self.block_size
        &&& if self.wrote_header {
            &&& self.out@.len() >= 10
            &&& self.out@.subrange(0, 10) == spec_magic_chunk()
            &&& chunks_payload(self.out@.skip(10), MAX_BLOCK_SIZE as int) is Some
        } else {
            self.out@.len() == 0
        }
    }

    /// The reader-visible payload of the chunks flushed so far.
    pub closed spec fn flushed(&self) -> Seq<u8> {
        if self.wrote_header {
            chunks_payload(self.out@.skip(10), MAX_BLOCK_SIZE as int).unwrap()
        } else {
            Seq::<u8>::empty()
        }
    }

    /// Everything accepted so far: flushed payload plus the pending bytes.
    pub open spec fn written(&self) -> Seq<u8> {
        self.flushed() + self.pending()
    }

    /// Create a new writer with the default block size.
    pub fn new() -> (r: Writer)
        ensures
            r.wf(),
            r.sink() == Seq::<u8>::empty(),
            r.written() == Seq::<u8>::empty(),
            r.spec_padding() == 0,
            r.spec_block_size() == DEFAULT_BLOCK_SIZE as int,
    {
        let r = Writer {
            out: Vec::new(),
            buf: Vec::new(),
            block_size: DEFAULT_BLOCK_SIZE,
            wrote_header: false,
            padding: 0,
        };
        proof {
            assert(r.written() =~= Seq::<u8>::empty());
        }
        r
    }

    /// Create a writer with a block size, clamped between 4KiB and 4MiB.
    pub fn with_block_size(block_size: usize) -> (r: Writer)
        ensures
            r.wf(),
            r.sink() == Seq::<u8>::empty(),
            r.written() == Seq::<u8>::empty(),
            r.spec_padding() == 0,
            r.spec_block_size() == if block_size < MIN_BLOCK_SIZE as int {
                MIN_BLOCK_SIZE as int
            } else if block_size > MAX_BLOCK_SIZE as int {
                MAX_BLOCK_SIZE as int
            } else {
                block_size as int
            },
    {
        let bs = if block_size < MIN_BLOCK_SIZE {
            MIN_BLOCK_SIZE
        } else if block_size > MAX_BLOCK_SIZE {
            MAX_BLOCK_SIZE
        } else {
            block_size
        };
        let r = Writer {
            out: Vec::new(),
            buf: Vec::new(),
            block_size: bs,
            wrote_header: false,
            padding: 0,
        };
        proof {
            assert(r.written() =~= Seq::<u8>::empty());
        }
        r
    }

    /// Create a writer whose closed stream is padded to a multiple of
    /// `padding` bytes. Padding must be at least 2 and at most 4MiB.
    pub fn with_padding(padding: usize) -> (r: Writer)
        requires
            2 <= padding <= MAX_BLOCK_SIZE as int,
        ensures
            r.wf(),
            r.sink() == Seq::<u8>::empty(),
            r.written() == Seq::<u8>::empty(),
            r.spec_padding() == padding as int,
            r.spec_block_size() == DEFAULT_BLOCK_SIZE as int,
    {
        let r = Writer {
            out: Vec::new(),
            buf: Vec::new(),
            block_size: DEFAULT_BLOCK_SIZE,
            wrote_header: false,
            padding,
        };
        proof {
            assert(r.written() =~= Seq::<u8>::empty());
        }
        r
    }

    /// Write the stream identifier if not already written.
    fn write_header(&mut self)
        requires
            old(self).wf(),
        ensures
            final(self).wf(),
            final(self).written() == old(self).written(),
            final(self).flushed() == old(self).flushed(),
            final(self).buf == old(self).buf,
            final(self).block_size == old(self).block_size,
            final(self).padding == old(self).padding,
            final(self).wrote_header,
            final(self).sink() == old(self).sink() + (if old(self).sink().len() == 0 {
                spec_magic_chunk()
            } else {
                Seq::<u8>::empty()
            }),
    {
        proof {
            if old(self).wrote_header {
                assert(old(self).sink() + Seq::<u8>::empty() =~= old(self).sink());
            } else {
                assert(old(self).sink() + spec_magic_chunk() =~= spec_magic_chunk());
            }
        }
        if !self.wrote_header {
            let magic = crate::constants::magic_chunk();
            let mut i: usize = 0;
            while i < magic.len()
                invariant
                    i <= magic@.len(),
                    magic@ == spec_magic_chunk(),
                    self.out@ == old(self).out@ + magic@.subrange(0, i as int),
                    self.buf == old(self).buf,
                    self.block_size == old(self).block_size,
                    self.padding == old(self).padding,
                    self.wrote_header == old(self).wrote_header,
                decreases magic@.len() - i,
            {
                let b = magic[i];
                self.out.push(b);
                i = i + 1;
                proof {
                    assert(old(self).out@ + magic@.subrange(0, i as int)
                        =~= (old(self).out@ + magic@.subrange(0, i - 1)).push(magic@[i - 1]));
                }
            }
            self.wrote_header = true;
            proof {
                assert(self.out@ =~= spec_magic_chunk());
                assert(self.out@.subrange(0, 10) =~= spec_magic_chunk());
                assert(self.out@.skip(10) =~= Seq::<u8>::empty());
            }
        }
    }

    /// Compress one block; the stream layer needs only that the block
    /// decodes back and fits its size bound.
    fn encode_stream_block(src: &[u8]) -> (r: Vec<u8>)
        requires
            crate::encode::spec_max_encoded_len(src@.len() as int) <= 0xffffffff,
            2 * src@.len() + 16 <= usize::MAX,
        ensures
            crate::tags::spec_block_decode(r@) == Some(src@),
            r@.len() <= crate::encode::spec_max_encoded_len(src@.len() as int),
    {
        encode(src)
    }

    /// Flush any buffered data as one compressed chunk.
    #[verifier::rlimit(100)]
    #[verifier::spinoff_prover]
    fn flush_block(&mut self) -> (r: Result<(), Error>)
        requires
            old(self).wf(),
        ensures
            final(self).wf(),
            r == Ok::<(), Error>(()),
            final(self).pending() == Seq::<u8>::empty(),
            final(self).flushed() == old(self).written(),
            final(self).written() == old(self).written(),
            final(self).spec_padding() == old(self).spec_padding(),
            final(self).spec_block_size() == old(self).spec_block_size(),
            old(self).pending().len() == 0 ==> final(self).sink() == old(self).sink(),
            old(self).pending().len() > 0 ==> (exists|b: Seq<u8>|
                {
                    &&& crate::tags::spec_block_decode(b) == Some(old(self).pending())
                    &&& final(self).sink() == old(self).sink()
                        + (if old(self).sink().len() == 0 {
                            spec_magic_chunk()
                        } else {
                            Seq::<u8>::empty()
                        }) + chunk_prefix(b.len() as int + 4,
                        crate::crc::spec_crc(old(self).pending())) + b
                }),
    {
        if self.buf.len() == 0 {
            proof {
                assert(old(self).written() =~= old(self).flushed());
            }
            return Ok(());
        }
        self.write_header();
        proof {
            crate::encode::lemma_spec_max_bound(self.buf@.len() as int);
        }
        let compressed = Self::encode_stream_block(self.buf.as_slice());
        let checksum = crc(self.buf.as_slice());
        let chunk_len = compressed.len() + 4;
        // A block is at most 4MiB, so its chunk always fits the 24-bit
        // length field.
        assert(chunk_len <= crate::constants::MAX_CHUNK_SIZE);
        let ghost pre = self.out@;
        let ghost pre_payload = self.flushed();
        // Chunk header: type, then the 24-bit length.
        self.out.push(0x00);
        self.out.push((chunk_len % 256) as u8);
        self.out.push(((chunk_len / 256) % 256) as u8);
        self.out.push((chunk_len / 65536) as u8);
        // The masked checksum of the uncompressed bytes, little-endian.
        self.out.push((checksum % 256) as u8);
        self.out.push(((checksum / 256) % 256) as u8);
        self.out.push(((checksum / 65536) % 256) as u8);
        self.out.push((checksum / 16777216) as u8);
        // The compressed block.
        let mut i: usize = 0;
        while i < compressed.len()
            invariant
                i <= compressed@.len(),
                self.out@ == pre + chunk_prefix(chunk_len as int, checksum)
                    + compressed@.subrange(0, i as int),
                self.buf == old(self).buf,
                self.block_size == old(self).block_size,
                self.padding == old(self).padding,
                self.wrote_header,
            decreases compressed@.len() - i,
        {
            let b = compressed[i];
            self.out.push(b);
            i = i + 1;
            proof {
                assert(pre + chunk_prefix(chunk_len as int, checksum)
                    + compressed@.subrange(0, i as int)
                    =~= (pre + chunk_prefix(chunk_len as int, checksum)
                        + compressed@.subrange(0, i - 1)).push(compressed@[i - 1]));
            }
        }
        proof {
            let chunk = chunk_prefix(chunk_len as int, checksum) + compressed@;
            assert(self.out@ =~= pre + chunk);
            assert(chunk.len() == 4 + chunk_len);
            assert(crate::tags::le24(chunk[1], chunk[2], chunk[3]) == chunk_len as int);
            let payload = chunk.subrange(4, 4 + chunk_len as int);
            assert(payload.skip(4) =~= compressed@);
            assert(crate::tags::le32(payload[0], payload[1], payload[2], payload[3])
                == checksum as int);
            lemma_chunks_single(chunk, old(self).buf@, MAX_BLOCK_SIZE as int);
            lemma_chunks_concat(pre.skip(10), chunk, pre_payload, MAX_BLOCK_SIZE as int);
            assert(self.out@.skip(10) =~= pre.skip(10) + chunk);
            assert(self.out@.subrange(0, 10) =~= pre.subrange(0, 10));
        }
        self.buf.clear();
        proof {
            assert(self.written() =~= self.flushed());
            // The sink grew by exactly one compressed chunk: maybe the
            // magic, then the type byte, length, masked checksum and the
            // block, whose decoding is the flushed window.
            let ext: Seq<u8> = if old(self).sink().len() == 0 {
                spec_magic_chunk()
            } else {
                Seq::<u8>::empty()
            };
            assert(pre == old(self).out@ + ext);
            assert(checksum == crate::crc::spec_crc(old(self).pending()));
            assert(crate::tags::spec_block_decode(compressed@) == Some(old(self).pending()));
            assert(self.out@ =~= old(self).sink() + ext
                + chunk_prefix(compressed@.len() as int + 4, checksum) + compressed@);
            assert((exists|b: Seq<u8>|
                {
                    &&& crate::tags::spec_block_decode(b) == Some(old(self).pending())
                    &&& self.out@ == old(self).sink() + (if old(self).sink().len() == 0 {
                        spec_magic_chunk()
                    } else {
                        Seq::<u8>::empty()
                    }) + chunk_prefix(b.len() as int + 4,
                        crate::crc::spec_crc(old(self).pending())) + b
                })) by {
                assert(crate::tags::spec_block_decode(compressed@) == Some(old(self).pending())
                    && self.out@ == old(self).sink() + (if old(self).sink().len() == 0 {
                        spec_magic_chunk()
                    } else {
                        Seq::<u8>::empty()
                    }) + chunk_prefix(compressed@.len() as int + 4,
                        crate::crc::spec_crc(old(self).pending())) + compressed@);
            }
        }
        Ok(())
    }

    /// Accept `data`, flushing full blocks along the way. Returns the
    /// number of bytes accepted: always all of them. Until a block fills,
    /// the data is only buffered and the sink stays untouched.
    pub fn write(&mut self, data: &[u8]) -> (r: Result<usize, Error>)
        requires
            old(self).wf(),
        ensures
            final(self).wf(),
            r == Ok::<usize, Error>(data@.len() as usize),
            final(self).written() == old(self).written() + data@,
            final(self).spec_padding() == old(self).spec_padding(),
            final(self).spec_block_size() == old(self).spec_block_size(),
            old(self).pending().len() + data@.len() <= old(self).spec_block_size()
                ==> final(self).sink() == old(self).sink(),
    {
        let ghost base = old(self).written();
        let ghost pad0 = old(self).spec_padding();
        let ghost bs0 = old(self).spec_block_size();
        let ghost sink0 = old(self).sink();
        let ghost p0 = old(self).pending().len() as int;
        let ghost dl = data@.len() as int;
        let mut written: usize = 0;
        while written < data.len()
            invariant
                self.wf(),
                written <= data@.len(),
                self.written() == base + data@.subrange(0, written as int),
                self.spec_padding() == pad0,
                self.spec_block_size() == bs0,
                p0 + dl <= bs0 ==> self.sink() == sink0 && self.pending().len() == p0 + written,
                dl == data@.len(),
            decreases data@.len() - written, self.pending().len(),
        {
            let remaining = data.len() - written;
            let space = self.block_size - self.buf.len();
            if space == 0 {
                let ghost w0 = self.written();
                let _ = self.flush_block();
                proof {
                    assert(self.written() == w0);
                }
            } else {
                let to_write = if remaining < space {
                    remaining
                } else {
                    space
                };
                let ghost w0 = written as int;
                let ghost pre_f = self.flushed();
                let ghost pre_p = self.pending();
                crate::decode::push_range(&mut self.buf, data, written, written + to_write);
                written = written + to_write;
                proof {
                    assert(self.flushed() == pre_f);
                    assert(self.pending() =~= pre_p + data@.subrange(w0, written as int));
                    assert(data@.subrange(0, written as int)
                        =~= data@.subrange(0, w0) + data@.subrange(w0, written as int));
                    assert(pre_f + pre_p == base + data@.subrange(0, w0));
                    assert(self.written() =~= (pre_f + pre_p)
                        + data@.subrange(w0, written as int));
                    assert((base + data@.subrange(0, w0)) + data@.subrange(w0, written as int)
                        =~= base + data@.subrange(0, written as int));
                }
            }
        }
        proof {
            assert(data@.subrange(0, data@.len() as int) =~= data@);
        }
        Ok(written)
    }

    /// Flush the buffered window into a chunk. Afterwards everything
    /// written so far is readable from the sink: the sink is empty only
    /// when nothing was ever written, and otherwise it is a well-formed
    /// stream whose payload is exactly the flushed bytes.
    pub fn flush(&mut self) -> (r: Result<(), Error>)
        requires
            old(self).wf(),
        ensures
            final(self).wf(),
            r == Ok::<(), Error>(()),
            final(self).pending() == Seq::<u8>::empty(),
            final(self).flushed() == old(self).written(),
            final(self).written() == old(self).written(),
            final(self).spec_padding() == old(self).spec_padding(),
            final(self).spec_block_size() == old(self).spec_block_size(),
            final(self).flushed().len() > 0 ==> final(self).sink().len() > 0,
            final(self).sink().len() > 0 ==> crate::reader::spec_stream_payload(
                final(self).sink(), MAX_BLOCK_SIZE as int) == Some(final(self).flushed()),
            old(self).pending().len() == 0 ==> final(self).sink() == old(self).sink(),
            old(self).pending().len() > 0 ==> (exists|b: Seq<u8>|
                {
                    &&& crate::tags::spec_block_decode(b) == Some(old(self).pending())
                    &&& final(self).sink() == old(self).sink()
                        + (if old(self).sink().len() == 0 {
                            spec_magic_chunk()
                        } else {
                            Seq::<u8>::empty()
                        }) + chunk_prefix(b.len() as int + 4,
                        crate::crc::spec_crc(old(self).pending())) + b
                }),
    {
        let r = self.flush_block();
        proof {
            if self.out@.len() > 0 {
                lemma_stream_round_trip(self);
            }
        }
        r
    }

    /// How many padding bytes bring `total` up to a multiple of
    /// `want_multiple`, never fewer than a frame header's worth.
    fn calc_skippable_frame(total: usize, want_multiple: usize) -> (r: usize)
        requires
            2 <= want_multiple <= MAX_BLOCK_SIZE as int,
        ensures
            r == 0 || 4 <= r,
            (total + r) % (want_multiple as int) == 0 || r == 0,
            r == 0 ==> total % want_multiple == 0,
            r <= 2 * want_multiple + 4,
    {
        let leftover = total % want_multiple;
        if leftover == 0 {
            return 0;
        }
        let mut to_add = want_multiple - leftover;
        proof {
            assert((total + to_add) % (want_multiple as int) == 0) by (nonlinear_arith)
                requires
                    total % want_multiple == leftover,
                    to_add == want_multiple - leftover,
                    0 < leftover < want_multiple,
            ;
        }
        while to_add < 4
            invariant
                2 <= want_multiple <= MAX_BLOCK_SIZE as int,
                1 <= to_add <= 2 * want_multiple + 4,
                (total + to_add) % (want_multiple as int) == 0,
            decreases (if to_add < 4 { 4int - to_add } else { 0int }),
        {
            let ghost t0 = to_add as int;
            to_add = to_add + want_multiple;
            proof {
                assert((total + to_add) % (want_multiple as int) == 0) by (nonlinear_arith)
                    requires
                        (total + t0) % (want_multiple as int) == 0,
                        to_add == t0 + want_multiple,
                        want_multiple >= 2,
                        total >= 0,
                        t0 >= 0,
                ;
            }
        }
        to_add
    }

    /// Write one skippable padding chunk of `total` bytes in all.
    #[verifier::rlimit(100)]
    fn write_skippable_frame(&mut self, total: usize)
        requires
            old(self).wf(),
            old(self).wrote_header_spec(),
            4 <= total <= 2 * MAX_BLOCK_SIZE as int + 4,
        ensures
            final(self).wf(),
            final(self).written() == old(self).written(),
            final(self).flushed() == old(self).flushed(),
            final(self).pending() == old(self).pending(),
            final(self).sink().len() == old(self).sink().len() + total,
            final(self).spec_padding() == old(self).spec_padding(),
            final(self).spec_block_size() == old(self).spec_block_size(),
    {
        let data_len = total - 4;
        let ghost pre = self.out@;
        let ghost pre_payload = self.flushed();
        self.out.push(0xfe);
        self.out.push((data_len % 256) as u8);
        self.out.push(((data_len / 256) % 256) as u8);
        self.out.push((data_len / 65536) as u8);
        proof {
            assert(self.out@.subrange(0, pre.len() as int + 4) =~= pre + seq![
                0xfeu8,
                ((data_len as int) % 256) as u8,
                (((data_len as int) / 256) % 256) as u8,
                ((data_len as int) / 65536) as u8,
            ]);
        }
        let mut i: usize = 0;
        while i < data_len
            invariant
                i <= data_len,
                self.out@.len() == pre.len() + 4 + i,
                self.out@.subrange(0, pre.len() as int + 4) == pre + seq![
                    0xfeu8,
                    ((data_len as int) % 256) as u8,
                    (((data_len as int) / 256) % 256) as u8,
                    ((data_len as int) / 65536) as u8,
                ],
                self.buf == old(self).buf,
                self.block_size == old(self).block_size,
                self.padding == old(self).padding,
                self.wrote_header == old(self).wrote_header,
            decreases data_len - i,
        {
            self.out.push((i % 256) as u8);
            i = i + 1;
            proof {
                assert(self.out@.subrange(0, pre.len() as int + 4)
                    =~= self.out@.subrange(0, self.out@.len() - 1).subrange(0, pre.len() as int + 4));
            }
        }
        proof {
            let pl = pre.len() as int;
            let chunk = self.out@.skip(pl);
            assert(chunk.len() == 4 + data_len);
            assert(chunk[0] == self.out@.subrange(0, pl + 4)[pl]);
            assert(chunk[1] == self.out@.subrange(0, pl + 4)[pl + 1]);
            assert(chunk[2] == self.out@.subrange(0, pl + 4)[pl + 2]);
            assert(chunk[3] == self.out@.subrange(0, pl + 4)[pl + 3]);
            assert(chunk[0] == 0xfeu8 && chunk[1] == ((data_len as int) % 256) as u8
                && chunk[2] == (((data_len as int) / 256) % 256) as u8
                && chunk[3] == ((data_len as int) / 65536) as u8);
            assert(forall|j: int| 0 <= j < pl + 4
                ==> self.out@[j] == #[trigger] self.out@.subrange(0, pl + 4)[j]);
            assert forall|j: int| 0 <= j < pl implies self.out@[j] == pre[j] by {
                assert(self.out@[j] == self.out@.subrange(0, pl + 4)[j]);
            }
            assert forall|j: int| pl <= j < self.out@.len() implies self.out@[j]
                == chunk[j - pl] by {
                assert(chunk[j - pl] == self.out@[pl + (j - pl)]);
            }
            assert(crate::tags::le24(chunk[1], chunk[2], chunk[3]) == data_len as int);
            lemma_chunks_single(chunk, Seq::<u8>::empty(), MAX_BLOCK_SIZE as int);
            lemma_chunks_concat(pre.skip(10), chunk, pre_payload, MAX_BLOCK_SIZE as int);
            assert(self.out@.skip(10) =~= pre.skip(10) + chunk);
            assert(self.out@.subrange(0, 10) =~= pre.subrange(0, 10));
            assert(self.flushed() =~= pre_payload + Seq::<u8>::empty());
            assert(pre_payload + Seq::<u8>::empty() =~= pre_payload);
        }
    }

    /// Whether the magic has been written.
    pub closed spec fn wrote_header_spec(&self) -> bool {
        self.wrote_header
    }

    /// Flush the remaining window and, with padding configured, pad the
    /// stream to the next multiple.
    pub fn close(&mut self) -> (r: Result<(), Error>)
        requires
            old(self).wf(),
        ensures
            final(self).wf(),
            r == Ok::<(), Error>(()),
            final(self).flushed() == old(self).written(),
            final(self).written() == old(self).written(),
            old(self).spec_padding() > 1 && final(self).sink().len() > 0
                ==> final(self).sink().len() as int % old(self).spec_padding() == 0,
            final(self).flushed().len() > 0 ==> final(self).sink().len() > 0,
            final(self).sink().len() > 0 ==> crate::reader::spec_stream_payload(
                final(self).sink(), MAX_BLOCK_SIZE as int) == Some(final(self).flushed()),
    {
        let _ = self.flush_block();
        if self.padding > 1 {
            if self.out.len() > 0 {
                let need = Self::calc_skippable_frame(self.out.len(), self.padding);
                if need > 0 {
                    self.write_skippable_frame(need);
                }
            }
        }
        proof {
            if self.out@.len() > 0 {
                lemma_stream_round_trip(self);
            }
        }
        Ok(())
    }

    /// Reset the writer, handing back the stream accumulated so far.
    pub fn reset(&mut self) -> (r: Vec<u8>)
        requires
            old(self).wf(),
        ensures
            final(self).wf(),
            r@ == old(self).sink(),
            final(self).sink() == Seq::<u8>::empty(),
            final(self).written() == Seq::<u8>::empty(),
            final(self).spec_padding() == old(self).spec_padding(),
            final(self).spec_block_size() == old(self).spec_block_size(),
    {
        let mut taken: Vec<u8> = Vec::new();
        core::mem::swap(&mut taken, &mut self.out);
        self.buf.clear();
        self.wrote_header = false;
        proof {
            assert(self.written() =~= Seq::<u8>::empty());
        }
        taken
    }

    /// The compressed stream accumulated so far.
    pub fn get_ref(&self) -> (r: &Vec<u8>)
        ensures
            r@ == self.sink(),
    {
        &self.out
    }
}

/// Compress one block and frame it as a single stream chunk: the chunk
/// type, a 24-bit length, the masked checksum of the uncompressed bytes,
/// then the compressed block. A conformant reader yields exactly `data`
/// from it.
#[verifier::rlimit(100)]
pub fn frame_compressed_block(data: &[u8]) -> (r: Vec<u8>)
    requires
        data@.len() <= MAX_BLOCK_SIZE as int,
    ensures
        chunks_payload(r@, MAX_BLOCK_SIZE as int) == Some(data@),
        r@.len() >= 4,
        r@[0] == 0x00u8,
{
    proof {
        crate::encode::lemma_spec_max_bound(data@.len() as int);
    }
    let compressed = Writer::encode_stream_block(data);
    let checksum = crc(data);
    let chunk_len = compressed.len() + 4;
    assert(chunk_len <= crate::constants::MAX_CHUNK_SIZE);
    let mut out: Vec<u8> = Vec::new();
    out.push(0x00);
    out.push((chunk_len % 256) as u8);
    out.push(((chunk_len / 256) % 256) as u8);
    out.push((chunk_len / 65536) as u8);
    out.push((checksum % 256) as u8);
    out.push(((checksum / 256) % 256) as u8);
    out.push(((checksum / 65536) % 256) as u8);
    out.push((checksum / 16777216) as u8);
    let ghost pre = out@;
    let ghost cview = compressed@;
    let mut compressed = compressed;
    out.append(&mut compressed);
    proof {
        assert(out@ =~= chunk_prefix(chunk_len as int, checksum) + cview);
        let chunk = out@;
        assert(chunk.len() == 4 + chunk_len);
        assert(crate::tags::le24(chunk[1], chunk[2], chunk[3]) == chunk_len as int);
        let payload = chunk.subrange(4, 4 + chunk_len as int);
        assert(payload.skip(4) =~= cview);
        assert(crate::tags::le32(payload[0], payload[1], payload[2], payload[3])
            == checksum as int);
        lemma_chunks_single(chunk, data@, MAX_BLOCK_SIZE as int);
    }
    out
}

/// Every stream the writer has produced reads back to exactly the bytes
/// accepted and flushed: the sink opens with the magic and its chunks'
/// payload is the flushed data, whatever the chunking was.
pub proof fn lemma_stream_round_trip(w: &Writer)
    requires
        w.wf(),
        w.sink().len() > 0,
    ensures
        crate::reader::spec_stream_payload(w.sink(), MAX_BLOCK_SIZE as int) == Some(w.flushed()),
{
}

/// The fixed bytes in front of a compressed chunk's block: the
/// chunk header and the checksum, little-endian.
pub open spec fn chunk_prefix(chunk_len: int, checksum: u32) -> Seq<u8> {
    seq![
        0x00u8,
        (chunk_len % 256) as u8,
        ((chunk_len / 256) % 256) as u8,
        (chunk_len / 65536) as u8,
        ((checksum as int) % 256) as u8,
        (((checksum as int) / 256) % 256) as u8,
        (((checksum as int) / 65536) % 256) as u8,
        ((checksum as int) / 16777216) as u8,
    ]
}

} // verus!
