//! The stream reader: verifies the magic, dispatches chunks, checks each
//! data chunk against its masked checksum, and hands decoded bytes out
//! through a drainable buffer.

use vstd::prelude::*;

use crate::constants::spec_magic_chunk;
use crate::constants::spec_magic_chunk_snappy;
use crate::constants::MAX_BLOCK_SIZE;
use crate::crc::crc;
use crate::error::Error;
use crate::frame::chunks_payload;

verus! {

/// Reader decompresses a stream held in memory, chunk by chunk.
pub struct Reader {
    src: Vec<u8>,
    spos: usize,
    buf: Vec<u8>,
    pos: usize,
    read_header: bool,
    eof: bool,
    max_block_size: usize,
    ignore_stream_id: bool,
    current_offset: u64,
}

impl Reader {
    /// The unread part of the source stream.
    pub closed spec fn remaining(&self) -> Seq<u8> {
        self.src@.skip(self.spos as int)
    }

    /// Decoded bytes not yet handed out.
    pub closed spec fn buffered(&self) -> Seq<u8> {
        self.buf@.skip(self.pos as int)
    }

    /// A sound reader.
    pub closed spec fn wf(&self) -> bool {
        &&& self.pos <= self.buf@.len()
        &&& self.spos <= self.src@.len()
        &&& 1 <= self.max_block_size <= MAX_BLOCK_SIZE as int
        &&& self.pos <= self.current_offset
    }

    /// How many uncompressed bytes have been handed out.
    pub closed spec fn stream_offset(&self) -> int {
        self.current_offset as int
    }

    /// Everything a caller can still read: what is buffered, then the
    /// payload of the rest of the stream; `None` is a corrupt stream.
    pub closed spec fn drainable(&self) -> Option<Seq<u8>> {
        if self.eof {
            Some(self.buffered())
        } else if !self.read_header {
            if self.remaining().len() >= 10 && (self.remaining().subrange(0, 10)
                == spec_magic_chunk() || self.remaining().subrange(0, 10)
                == spec_magic_chunk_snappy()) {
                match chunks_payload(self.remaining().skip(10), self.max_block_size as int) {
                    Some(p) => Some(self.buffered() + p),
                    None => None,
                }
            } else {
                None
            }
        } else {
            match chunks_payload(self.remaining(), self.max_block_size as int) {
                Some(p) => Some(self.buffered() + p),
                None => None,
            }
        }
    }

    /// What a caller can still read of a stream that may be corrupt
    /// further on: the buffered bytes, then the payload of the longest
    /// well-formed chunk prefix of the rest. On a fully well-formed
    /// stream this is everything `drainable()` promises; on a corrupt
    /// one it ends before the first bad chunk.
    pub closed spec fn drainable_prefix(&self) -> Seq<u8> {
        if self.eof {
            self.buffered()
        } else if !self.read_header {
            if self.remaining().len() >= 10 && (self.remaining().subrange(0, 10)
                == spec_magic_chunk() || self.remaining().subrange(0, 10)
                == spec_magic_chunk_snappy()) {
                self.buffered() + crate::frame::chunks_prefix_payload(
                    self.remaining().skip(10), self.max_block_size as int)
            } else {
                self.buffered()
            }
        } else {
            self.buffered() + crate::frame::chunks_prefix_payload(self.remaining(),
                self.max_block_size as int)
        }
    }

    /// Create a reader with the default 4MiB block ceiling.
    pub fn new(src: Vec<u8>) -> (r: Reader)
        ensures
            r.wf(),
            r.drainable() == spec_stream_payload(src@, MAX_BLOCK_SIZE as int),
    {
        let r = Reader {
            src,
            spos: 0,
            buf: Vec::new(),
            pos: 0,
            read_header: false,
            eof: false,
            max_block_size: MAX_BLOCK_SIZE,
            ignore_stream_id: false,
            current_offset: 0,
        };
        proof {
            assert(r.remaining() =~= r.source());
            assert(r.buffered() =~= Seq::<u8>::empty());
            lemma_fresh_drainable(r);
        }
        r
    }

    /// Create a reader with a block ceiling between 1 byte and 4MiB.
    pub fn with_max_block_size(src: Vec<u8>, max_block_size: usize) -> (r: Reader)
        requires
            1 <= max_block_size <= MAX_BLOCK_SIZE as int,
        ensures
            r.wf(),
            r.drainable() == spec_stream_payload(src@, max_block_size as int),
    {
        let r = Reader {
            src,
            spos: 0,
            buf: Vec::new(),
            pos: 0,
            read_header: false,
            eof: false,
            max_block_size,
            ignore_stream_id: false,
            current_offset: 0,
        };
        proof {
            assert(r.remaining() =~= r.source());
            assert(r.buffered() =~= Seq::<u8>::empty());
            lemma_fresh_drainable(r);
        }
        r
    }

    /// Create a reader that expects no stream identifier in front.
    pub fn with_ignore_stream_id(src: Vec<u8>) -> (r: Reader)
        ensures
            r.wf(),
            r.drainable() == match chunks_payload(src@, MAX_BLOCK_SIZE as int) {
                Some(p) => Some(p),
                None => None::<Seq<u8>>,
            },
    {
        let r = Reader {
            src,
            spos: 0,
            buf: Vec::new(),
            pos: 0,
            read_header: true,
            eof: false,
            max_block_size: MAX_BLOCK_SIZE,
            ignore_stream_id: true,
            current_offset: 0,
        };
        proof {
            assert(r.remaining() =~= r.src@);
            assert(r.buffered() =~= Seq::<u8>::empty());
            match chunks_payload(r.src@, MAX_BLOCK_SIZE as int) {
                Some(p) => {
                    assert(r.buffered() + p =~= p);
                },
                None => {},
            }
        }
        r
    }

    /// Create a reader with a pre-sized scratch buffer; behaves as `new`.
    pub fn with_alloc_block_size(src: Vec<u8>, alloc_block_size: usize) -> (r: Reader)
        requires
            1024 <= alloc_block_size <= MAX_BLOCK_SIZE as int,
        ensures
            r.wf(),
            r.drainable() == spec_stream_payload(src@, MAX_BLOCK_SIZE as int),
    {
        let r = Reader {
            src,
            spos: 0,
            buf: Vec::with_capacity(alloc_block_size),
            pos: 0,
            read_header: false,
            eof: false,
            max_block_size: MAX_BLOCK_SIZE,
            ignore_stream_id: false,
            current_offset: 0,
        };
        proof {
            assert(r.remaining() =~= r.source());
            assert(r.buffered() =~= Seq::<u8>::empty());
            lemma_fresh_drainable(r);
        }
        r
    }

    /// Consume and verify the stream identifier.
    fn read_stream_identifier(&mut self) -> (r: Result<(), Error>)
        requires
            old(self).wf(),
            !old(self).header_read(),
            !old(self).at_eof(),
        ensures
            final(self).wf(),
            final(self).stream_offset() == old(self).stream_offset(),
            match r {
                Ok(()) => final(self).drainable() == old(self).drainable()
                    && final(self).drainable_prefix() == old(self).drainable_prefix()
                    && final(self).header_read() && !final(self).at_eof(),
                Err(e) => old(self).drainable() is None
                    && final(self).drainable_prefix() == old(self).drainable_prefix(),
            },
    {
        if self.src.len() - self.spos < 10 {
            return Err(Error::Corrupt);
        }
        let magic = crate::constants::magic_chunk();
        let mut s2 = true;
        let mut snappy = true;
        // The Snappy identifier shares the first four bytes.
        let snappy_tail: [u8; 6] = [0x73, 0x4e, 0x61, 0x50, 0x70, 0x59];
        let slen = self.src.len();
        let mut i: usize = 0;
        while i < 10
            invariant
                i <= 10,
                old(self).wf(),
                self == old(self),
                self.src@.len() == slen,
                self.spos + 10 <= self.src@.len(),
                magic@ == spec_magic_chunk(),
                snappy_tail@ =~= spec_magic_chunk_snappy().skip(4),
                s2 <==> (forall|k: int| 0 <= k < i ==> #[trigger] self.remaining()[k]
                    == spec_magic_chunk()[k]),
                snappy <==> (forall|k: int| 0 <= k < i ==> #[trigger] self.remaining()[k]
                    == spec_magic_chunk_snappy()[k]),
            decreases 10 - i,
        {
            let b = self.src[self.spos + i];
            assert(b == self.remaining()[i as int]);
            let want_s2 = magic[i];
            let want_sn: u8 = if i < 4 {
                magic[i]
            } else {
                snappy_tail[i - 4]
            };
            assert(want_sn == spec_magic_chunk_snappy()[i as int]);
            if b != want_s2 {
                s2 = false;
            }
            if b != want_sn {
                snappy = false;
            }
            i = i + 1;
        }
        if !s2 && !snappy {
            proof {
                if old(self).remaining().subrange(0, 10) == spec_magic_chunk() {
                    assert(forall|k: int| 0 <= k < 10 ==> #[trigger] self.remaining()[k]
                        == self.remaining().subrange(0, 10)[k]);
                    assert(false);
                }
                if old(self).remaining().subrange(0, 10) == spec_magic_chunk_snappy() {
                    assert(forall|k: int| 0 <= k < 10 ==> #[trigger] self.remaining()[k]
                        == self.remaining().subrange(0, 10)[k]);
                    assert(false);
                }
            }
            return Err(Error::Corrupt);
        }
        proof {
            if s2 {
                assert(self.remaining().subrange(0, 10) =~= spec_magic_chunk());
            } else {
                assert(self.remaining().subrange(0, 10) =~= spec_magic_chunk_snappy());
            }
        }
        let ghost pre = *self;
        self.spos = self.spos + 10;
        self.read_header = true;
        proof {
            assert(self.remaining() =~= pre.remaining().skip(10));
        }
        Ok(())
    }

    /// Whether the stream identifier has been consumed (or waived).
    pub closed spec fn header_read(&self) -> bool {
        self.read_header
    }

    /// Whether the end of the stream has been reached.
    pub closed spec fn at_eof(&self) -> bool {
        self.eof
    }

    /// Decode one framed block; the stream layer only needs to know
    /// whether the model accepts it.
    fn decode_stream_block(compressed: &[u8]) -> (r: Result<Vec<u8>, Error>)
        ensures
            match crate::tags::spec_block_decode(compressed@) {
                Some(d) => r matches Ok(v) && v@ == d,
                None => r is Err,
            },
    {
        crate::decode::decode(compressed)
    }

    /// Consume one data chunk at the front of the stream: check its
    /// length, decode it, check the size ceiling and the checksum, and
    /// buffer the payload.
    #[verifier::rlimit(100)]
    #[verifier::spinoff_prover]
    fn read_data_chunk(&mut self, chunk_len: usize) -> (r: Result<(), Error>)
        requires
            old(self).wf(),
            old(self).header_read(),
            !old(self).at_eof(),
            old(self).remaining().len() >= 4,
            old(self).remaining()[0] == 0x00u8 || old(self).remaining()[0] == 0x01u8,
            chunk_len as int == crate::tags::le24(old(self).remaining()[1],
                old(self).remaining()[2], old(self).remaining()[3]),
            4 + chunk_len <= old(self).remaining().len(),
        ensures
            final(self).wf(),
            final(self).header_read(),
            final(self).stream_offset() == old(self).stream_offset(),
            final(self).max_block() == old(self).max_block(),
            match r {
                Ok(()) => {
                    &&& final(self).drainable() == old(self).drainable()
                    &&& final(self).drainable_prefix() == old(self).drainable_prefix()
                    &&& final(self).remaining().len() < old(self).remaining().len()
                },
                Err(e) => old(self).drainable() is None,
            },
    {
        let ghost pre = *self;
        let slen = self.src.len();
        let chunk_type = self.src[self.spos];
        proof {
            assert(chunk_type == pre.remaining()[0]);
            assert(pre.remaining().len() == slen - self.spos);
        }
        let body_start = self.spos + 4;
        let body_end = body_start + chunk_len;
        let ghost payload = pre.remaining().subrange(4, 4 + chunk_len as int);
        proof {
            assert(forall|k: int| 0 <= k < chunk_len ==> #[trigger] payload[k]
                == self.src@[body_start + k]);
        }
        if chunk_len < 4 {
            return Err(Error::Corrupt);
        }
        let want = self.src[body_start] as u32 + 256 * (self.src[body_start + 1] as u32)
            + 65536 * (self.src[body_start + 2] as u32)
            + 16777216 * (self.src[body_start + 3] as u32);
        assert(want as int == crate::tags::le32(payload[0], payload[1], payload[2],
            payload[3]));
        let mut data: Vec<u8> = Vec::new();
        if chunk_type == 0x00 {
            let mut compressed: Vec<u8> = Vec::new();
            crate::decode::push_range(&mut compressed, self.src.as_slice(), body_start + 4,
                body_end);
            proof {
                assert(compressed@ =~= payload.skip(4));
            }
            match Self::decode_stream_block(compressed.as_slice()) {
                Ok(d) => {
                    data = d;
                },
                Err(e) => {
                    return Err(Error::Corrupt);
                },
            }
        } else {
            crate::decode::push_range(&mut data, self.src.as_slice(), body_start + 4,
                body_end);
            proof {
                assert(data@ =~= payload.skip(4));
            }
        }
        if data.len() > self.max_block_size {
            return Err(Error::Corrupt);
        }
        let actual = crc(data.as_slice());
        if actual != want {
            // A checksum mismatch is corruption.
            return Err(Error::Corrupt);
        }
        let ghost dview = data@;
        let mut data = data;
        self.buf.append(&mut data);
        self.spos = body_end;
        proof {
            assert(self.remaining() =~= pre.remaining().skip(4 + chunk_len as int));
            assert(self.buffered() =~= pre.buffered() + dview);
            match chunks_payload(self.remaining(), self.max_block_size as int) {
                Some(p) => {
                    assert(pre.buffered() + (dview + p) =~= (pre.buffered() + dview) + p);
                },
                None => {},
            }
            crate::frame::lemma_prefix_step(pre.remaining(), dview,
                self.max_block_size as int);
            let pfx = crate::frame::chunks_prefix_payload(self.remaining(),
                self.max_block_size as int);
            assert(pre.buffered() + (dview + pfx) =~= (pre.buffered() + dview) + pfx);
        }
        Ok(())
    }

    /// Read chunks until one yields data, the stream ends, or it turns
    /// out corrupt. Skippable chunks are passed over.
    #[verifier::rlimit(100)]
    #[verifier::spinoff_prover]
    fn read_chunk(&mut self) -> (r: Result<(), Error>)
        requires
            old(self).wf(),
            old(self).header_read(),
            !old(self).at_eof(),
        ensures
            final(self).wf(),
            final(self).header_read(),
            final(self).stream_offset() == old(self).stream_offset(),
            final(self).max_block() == old(self).max_block(),
            match r {
                Ok(()) => {
                    &&& final(self).drainable() == old(self).drainable()
                    &&& final(self).drainable_prefix() == old(self).drainable_prefix()
                    &&& (final(self).at_eof() || final(self).remaining().len()
                        < old(self).remaining().len())
                    &&& final(self).remaining().len() <= old(self).remaining().len()
                },
                Err(e) => old(self).drainable() is None,
            },
    {
        let ghost pre = *self;
        if self.src.len() - self.spos == 0 {
            self.eof = true;
            proof {
                assert(pre.remaining() =~= Seq::<u8>::empty());
                assert(self.buffered() + Seq::<u8>::empty() =~= self.buffered());
                crate::frame::lemma_prefix_empty(pre.remaining(), self.max_block_size as int);
            }
            return Ok(());
        }
        if self.src.len() - self.spos < 4 {
            return Err(Error::Corrupt);
        }
        let chunk_type = self.src[self.spos];
        let chunk_len = self.src[self.spos + 1] as usize
            + 256 * (self.src[self.spos + 2] as usize)
            + 65536 * (self.src[self.spos + 3] as usize);
        assert(chunk_type == pre.remaining()[0]);
        assert(chunk_len as int == crate::tags::le24(pre.remaining()[1], pre.remaining()[2],
            pre.remaining()[3]));
        if self.src.len() - self.spos - 4 < chunk_len {
            return Err(Error::Corrupt);
        }
        let body_end = self.spos + 4 + chunk_len;
        if chunk_type == 0x00 || chunk_type == 0x01 {
            self.read_data_chunk(chunk_len)
        } else if chunk_type == 0xff || chunk_type == 0xfe || chunk_type == 0x99
            || (0x80 <= chunk_type && chunk_type <= 0xfd) {
            self.spos = body_end;
            proof {
                assert(self.remaining() =~= pre.remaining().skip(4 + chunk_len as int));
                crate::frame::lemma_prefix_step(pre.remaining(), Seq::<u8>::empty(),
                    self.max_block_size as int);
                assert(Seq::<u8>::empty() + crate::frame::chunks_prefix_payload(
                    self.remaining(), self.max_block_size as int)
                    =~= crate::frame::chunks_prefix_payload(self.remaining(),
                    self.max_block_size as int));
            }
            Ok(())
        } else {
            return Err(Error::Corrupt);
        }
    }

    /// Read everything left in the stream; afterwards the reader is
    /// drained.
    pub fn read_to_end(&mut self) -> (r: Result<Vec<u8>, Error>)
        requires
            old(self).wf(),
        ensures
            final(self).wf(),
            match r {
                Ok(v) => old(self).drainable() == Some(v@)
                    && final(self).drainable() == Some(Seq::<u8>::empty()),
                Err(e) => old(self).drainable() is None,
            },
    {
        if !self.read_header {
            if self.eof {
                let ghost pre = *self;
                let mut out: Vec<u8> = Vec::new();
                drain_buffer(&mut self.buf, &mut self.pos, &mut out);
                proof {
                    assert(out@ == pre.buffered());
                }
                return Ok(out);
            }
            let res = self.read_stream_identifier();
            if let Err(e) = res {
                return Err(e);
            }
        }
        let ghost dr_target = old(self).drainable();
        while !self.eof
            invariant
                self.wf(),
                self.header_read(),
                self.drainable() == old(self).drainable(),
            decreases self.remaining().len() + 1, (if self.at_eof() { 0int } else { 1int }),
        {
            let res = self.read_chunk();
            if let Err(e) = res {
                return Err(e);
            }
        }
        let ghost pre = *self;
        let mut out: Vec<u8> = Vec::new();
        drain_buffer(&mut self.buf, &mut self.pos, &mut out);
        self.current_offset = match self.current_offset.checked_add(out.len() as u64) {
            Some(x) => x,
            None => u64::MAX,
        };
        proof {
            assert(out@ == pre.buffered());
            assert(self.buffered() =~= Seq::<u8>::empty());
        }
        Ok(out)
    }

    /// Read up to `want` bytes; an empty result with `want > 0` means the
    /// end of the stream.
    pub fn read(&mut self, want: usize) -> (r: Result<Vec<u8>, Error>)
        requires
            old(self).wf(),
        ensures
            final(self).wf(),
            match r {
                Ok(v) => old(self).drainable() matches Some(p)
                    ==> v@ == p.take(v@.len() as int)
                        && final(self).drainable() == Some(p.skip(v@.len() as int))
                        && v@.len() <= want
                        && (v@.len() == 0 ==> p.len() == 0 || want == 0)
                        && (old(self).stream_offset() + v@.len() <= u64::MAX
                            ==> final(self).stream_offset() == old(self).stream_offset()
                                + v@.len()),
                Err(e) => old(self).drainable() is None,
            },
            r matches Ok(v) ==> v@.len() <= old(self).drainable_prefix().len()
                && v@ == old(self).drainable_prefix().take(v@.len() as int),
            (old(self).drainable() is None && old(self).drainable_prefix().len() == 0
                && want > 0) ==> r is Err,
    {
        if !self.read_header {
            if !self.eof {
                let res = self.read_stream_identifier();
                if let Err(e) = res {
                    return Err(e);
                }
            }
        }
        while self.pos >= self.buf.len() && !self.eof
            invariant
                self.wf(),
                self.header_read() || self.at_eof(),
                self.drainable() == old(self).drainable(),
                self.drainable_prefix() == old(self).drainable_prefix(),
                self.stream_offset() == old(self).stream_offset(),
            decreases self.remaining().len() + 1, (if self.at_eof() { 0int } else { 1int }),
        {
            let ghost dr0 = self.drainable();
            let ghost pf0 = self.drainable_prefix();
            let ghost bpre = self.buffered();
            proof {
                assert(bpre =~= Seq::<u8>::empty());
            }
            self.buf.clear();
            self.pos = 0;
            proof {
                assert(self.buffered() =~= Seq::<u8>::empty());
                assert(self.drainable() == dr0);
                assert(self.drainable_prefix() == pf0);
            }
            let res = self.read_chunk();
            if let Err(e) = res {
                return Err(e);
            }
        }
        let ghost pre = *self;
        let available = self.buf.len() - self.pos;
        let to_copy = if available < want {
            available
        } else {
            want
        };
        let mut out: Vec<u8> = Vec::new();
        crate::decode::push_range(&mut out, self.buf.as_slice(), self.pos, self.pos + to_copy);
        self.pos = self.pos + to_copy;
        self.current_offset = match self.current_offset.checked_add(to_copy as u64) {
            Some(x) => x,
            None => u64::MAX,
        };
        proof {
            assert(out@ =~= pre.buffered().take(to_copy as int));
            if pre.drainable() is Some {
                let p = self.drainable_now_helper(pre);
                if to_copy == 0 {
                    if want > 0 {
                        assert(available == 0);
                        assert(pre.buffered() =~= Seq::<u8>::empty());
                        if !pre.eof {
                            assert(pre.pos < pre.buf@.len() || pre.at_eof());
                            assert(false);
                        }
                        assert(p =~= Seq::<u8>::empty());
                    }
                }
            }
            // The handed-out bytes are a prefix of what the stream can
            // still deliver, corrupt remainder or not.
            assert(pre.drainable_prefix().take(to_copy as int)
                =~= pre.buffered().take(to_copy as int));
            assert(out@.len() <= pre.drainable_prefix().len());
            if old(self).drainable() is None && old(self).drainable_prefix().len() == 0
                && want > 0 {
                if pre.eof {
                    assert(pre.drainable() is Some);
                    assert(false);
                } else {
                    assert(pre.pos < pre.buf@.len());
                    assert(pre.buffered().len() > 0);
                    assert(pre.drainable_prefix().len() > 0);
                    assert(false);
                }
            }
        }
        Ok(out)
    }

    /// Helper fact for `read`: after moving the cursor, the drainable
    /// bytes lose exactly the handed-out prefix.
    proof fn drainable_now_helper(&self, pre: Reader) -> (p: Seq<u8>)
        requires
            self.wf(),
            pre.wf(),
            self.src == pre.src,
            self.spos == pre.spos,
            self.buf == pre.buf,
            self.read_header == pre.read_header,
            self.eof == pre.eof,
            self.max_block_size == pre.max_block_size,
            self.ignore_stream_id == pre.ignore_stream_id,
            pre.pos <= self.pos <= self.buf@.len(),
            pre.drainable() is Some,
            pre.at_eof() || pre.header_read(),
        ensures
            p == pre.drainable().unwrap(),
            pre.buffered().take(self.pos - pre.pos) == p.take(self.pos - pre.pos),
            self.drainable() == Some(p.skip(self.pos - pre.pos)),
            self.pos - pre.pos <= p.len(),
    {
        let p = pre.drainable().unwrap();
        let k = self.pos - pre.pos;
        assert(self.buffered() =~= pre.buffered().skip(k));
        if pre.eof {
            assert(p == pre.buffered());
            assert(self.drainable() == Some(self.buffered()));
            assert(self.buffered() =~= p.skip(k));
            assert(pre.buffered().take(k) =~= p.take(k));
        } else {
            match chunks_payload(pre.remaining(), pre.max_block_size as int) {
                Some(rest) => {
                    assert(p == pre.buffered() + rest);
                    assert(self.drainable() == Some(self.buffered() + rest));
                    assert(self.buffered() + rest =~= p.skip(k));
                    assert(pre.buffered().take(k) =~= p.take(k));
                },
                None => {
                    assert(false);
                },
            }
        }
        p
    }

    /// Reset the reader onto a new source, handing the old one back.
    pub fn reset(&mut self, src: Vec<u8>) -> (r: Vec<u8>)
        requires
            old(self).wf(),
        ensures
            final(self).wf(),
            r@ == old(self).source(),
            final(self).source() == src@,
            final(self).stream_offset() == 0,
            final(self).max_block() == old(self).max_block(),
            final(self).ignores_stream_id() == old(self).ignores_stream_id(),
            !old(self).ignores_stream_id() ==> final(self).drainable()
                == spec_stream_payload(src@, old(self).max_block()),
            old(self).ignores_stream_id() ==> final(self).drainable()
                == chunks_payload(src@, old(self).max_block()),
    {
        let mut taken = src;
        core::mem::swap(&mut taken, &mut self.src);
        self.buf.clear();
        self.pos = 0;
        self.read_header = self.ignore_stream_id;
        self.eof = false;
        self.spos = 0;
        self.current_offset = 0;
        proof {
            if !self.read_header {
                assert(self.remaining() =~= self.source());
                assert(self.buffered() =~= Seq::<u8>::empty());
                lemma_fresh_drainable(*self);
            } else {
                assert(self.remaining() =~= self.src@);
                assert(self.buffered() =~= Seq::<u8>::empty());
                match chunks_payload(self.src@, self.max_block_size as int) {
                    Some(p) => {
                        assert(self.buffered() + p =~= p);
                    },
                    None => {},
                }
            }
        }
        taken
    }

    /// The configured block ceiling.
    pub closed spec fn max_block(&self) -> int {
        self.max_block_size as int
    }

    /// Whether this reader waives the stream identifier.
    pub closed spec fn ignores_stream_id(&self) -> bool {
        self.ignore_stream_id
    }

    /// The source bytes this reader drains.
    pub closed spec fn source(&self) -> Seq<u8> {
        self.src@
    }

    /// A reference to the source stream.
    pub fn get_ref(&self) -> (r: &Vec<u8>)
        ensures
            r@ == self.source(),
    {
        &self.src
    }
}


/// A seek target for `Reader::seek`: from the start, from the current
/// uncompressed position, or from the end.
#[derive(Debug, Clone, Copy, PartialEq, Eq)]
pub enum SeekFrom {
    /// An absolute uncompressed offset.
    Start(u64),
    /// A signed distance from the current uncompressed offset.
    Current(i64),
    /// A signed distance from the end; not supported without an index.
    End(i64),
}

/// Seeking backwards succeeds when the whole source is a well-formed
/// stream that covers the target.
pub open spec fn seek_back_ok(t: int, off: int, fp: Option<Seq<u8>>) -> bool {
    t < off && (fp matches Some(p) && t <= p.len())
}

/// Seeking forwards succeeds when what remains drainable covers the
/// distance.
pub open spec fn seek_fwd_ok(t: int, off: int, dr: Option<Seq<u8>>) -> bool {
    t >= off && (dr matches Some(q) && t - off <= q.len())
}

/// The resolved uncompressed target of a seek from offset `cur`, or
/// `None` where it cannot be resolved (from the end, or out of range).
pub open spec fn spec_seek_target(pos: SeekFrom, cur: int) -> Option<int> {
    match pos {
        SeekFrom::Start(o) => Some(o as int),
        SeekFrom::Current(d) => if 0 <= cur + d <= u64::MAX {
            Some(cur + d)
        } else {
            None
        },
        SeekFrom::End(d) => None,
    }
}

impl Reader {
    /// What this reader's whole source yields from its start, honouring
    /// whether a stream identifier is expected in front.
    pub open spec fn full_payload(&self) -> Option<Seq<u8>> {
        if self.ignores_stream_id() {
            chunks_payload(self.source(), self.max_block())
        } else {
            spec_stream_payload(self.source(), self.max_block())
        }
    }

    /// Seek to an uncompressed position. Within the buffered window only
    /// the cursor moves; otherwise the reader rewinds to the start and
    /// skips forward by bounded reads. Success is owed whenever the
    /// target lies within the stream: behind the cursor when the whole
    /// source is well-formed, ahead of it when what remains drainable
    /// covers the distance. Seeking from the end needs an index and is
    /// unsupported here.
    #[verifier::rlimit(100)]
    pub fn seek(&mut self, pos: SeekFrom) -> (r: Result<u64, Error>)
        requires
            old(self).wf(),
        ensures
            final(self).wf(),
            match r {
                Ok(p) => {
                    &&& final(self).stream_offset() == p as int
                    &&& Some(p as int) == spec_seek_target(pos, old(self).stream_offset())
                },
                Err(e) => match pos {
                    SeekFrom::Start(o) => e == Error::Corrupt || e is InvalidInput,
                    SeekFrom::Current(d) => (old(self).stream_offset() + d < 0
                        || old(self).stream_offset() + d > u64::MAX) && e is InvalidInput
                        || e == Error::Corrupt || e is InvalidInput,
                    SeekFrom::End(d) => e == Error::Unsupported,
                },
            },
            (spec_seek_target(pos, old(self).stream_offset()) matches Some(t)
                && seek_back_ok(t, old(self).stream_offset(), old(self).full_payload()))
                ==> r is Ok,
            (spec_seek_target(pos, old(self).stream_offset()) matches Some(t)
                && seek_fwd_ok(t, old(self).stream_offset(), old(self).drainable()))
                ==> r is Ok,
    {
        let ghost start_off = self.stream_offset();
        let ghost fp = self.full_payload();
        let ghost dr = self.drainable();
        let target: u64;
        match pos {
            SeekFrom::Start(o) => {
                target = o;
            },
            SeekFrom::Current(d) => {
                match self.current_offset.checked_add_signed(d) {
                    Some(t) => {
                        target = t;
                    },
                    None => {
                        return Err(Error::InvalidInput("cannot seek to negative position"));
                    },
                }
            },
            SeekFrom::End(_) => {
                return Err(Error::Unsupported);
            },
        }
        assert(spec_seek_target(pos, start_off) == Some(target as int));
        let ghost pa = seek_back_ok(target as int, start_off, fp);
        let ghost pb = seek_fwd_ok(target as int, start_off, dr);
        // Within the buffered window, only the cursor moves.
        let buffer_start = self.current_offset - self.pos as u64;
        if target >= buffer_start && target - buffer_start < self.buf.len() as u64 {
            let new_pos = (target - buffer_start) as usize;
            self.pos = new_pos;
            self.current_offset = target;
            return Ok(target);
        }
        if target < self.current_offset {
            // Backwards: rewind and decode forward again.
            self.spos = 0;
            self.buf.clear();
            self.pos = 0;
            self.read_header = self.ignore_stream_id;
            self.eof = false;
            self.current_offset = 0;
            proof {
                assert(self.remaining() =~= self.source());
                assert(self.buffered() =~= Seq::<u8>::empty());
                if !self.read_header {
                    lemma_fresh_drainable(*self);
                } else {
                    match chunks_payload(self.source(), self.max_block()) {
                        Some(p) => {
                            assert(self.buffered() + p =~= p);
                        },
                        None => {},
                    }
                }
                assert(self.drainable() == fp);
            }
        }
        let ghost ok = pa || pb;
        // Skip forward by bounded reads.
        let mut remaining = match target.checked_sub(self.current_offset) {
            Some(x) => x,
            None => {
                proof {
                    if ok {
                        assert(false);
                    }
                }
                return Err(Error::Corrupt);
            },
        };
        while remaining > 0
            invariant
                self.wf(),
                !(pos is End),
                start_off == old(self).stream_offset(),
                fp == old(self).full_payload(),
                dr == old(self).drainable(),
                pa == seek_back_ok(target as int, start_off, fp),
                pb == seek_fwd_ok(target as int, start_off, dr),
                spec_seek_target(pos, start_off) == Some(target as int),
                ok == (pa || pb),
                ok ==> (self.drainable() matches Some(q) && remaining <= q.len()
                    && self.stream_offset() + remaining == target as int),
            decreases remaining,
        {
            let chunk: usize = if remaining > 8192 {
                8192
            } else {
                remaining as usize
            };
            let ghost off0 = self.stream_offset();
            let got = match self.read(chunk) {
                Ok(v) => v,
                Err(e) => {
                    proof {
                        if ok {
                            assert(false);
                        }
                    }
                    return Err(Error::Corrupt);
                },
            };
            if got.len() == 0 {
                // The stream ended before the target.
                proof {
                    if ok {
                        assert(false);
                    }
                }
                return Err(Error::Corrupt);
            }
            remaining = match remaining.checked_sub(got.len() as u64) {
                Some(x) => x,
                None => {
                    proof {
                        if ok {
                            assert(false);
                        }
                    }
                    return Err(Error::Corrupt);
                },
            };
        }
        if self.current_offset != target {
            // The skipped bytes must account exactly for the distance.
            proof {
                if ok {
                    assert(false);
                }
            }
            return Err(Error::Corrupt);
        }
        Ok(target)
    }
}

/// What a whole stream yields: magic, then the chunks' payload; `None`
/// where the magic is missing or a chunk is corrupt.
pub open spec fn spec_stream_payload(s: Seq<u8>, max_block: int) -> Option<Seq<u8>> {
    if s.len() >= 10 && (s.subrange(0, 10) == spec_magic_chunk() || s.subrange(0, 10)
        == spec_magic_chunk_snappy()) {
        chunks_payload(s.skip(10), max_block)
    } else {
        None
    }
}

/// A freshly positioned reader drains exactly the stream payload.
proof fn lemma_fresh_drainable(r: Reader)
    requires
        !r.header_read(),
        !r.at_eof(),
        r.buffered() == Seq::<u8>::empty(),
        r.remaining() == r.source(),
    ensures
        r.drainable() == spec_stream_payload(r.source(), r.max_block()),
{
    if r.remaining().len() >= 10 && (r.remaining().subrange(0, 10) == spec_magic_chunk()
        || r.remaining().subrange(0, 10) == spec_magic_chunk_snappy()) {
        match chunks_payload(r.remaining().skip(10), r.max_block()) {
            Some(p) => {
                assert(r.buffered() + p =~= p);
            },
            None => {},
        }
    }
}

/// Move the undrained bytes of `buf` into `out`, leaving the buffer
/// empty.
fn drain_buffer(buf: &mut Vec<u8>, pos: &mut usize, out: &mut Vec<u8>)
    requires
        *old(pos) <= old(buf)@.len(),
        old(out)@.len() == 0,
    ensures
        final(out)@ == old(buf)@.skip(*old(pos) as int),
        final(buf)@.len() == 0,
        *final(pos) == 0,
{
    let from = *pos;
    let to = buf.len();
    crate::decode::push_range(out, buf.as_slice(), from, to);
    buf.clear();
    *pos = 0;
    proof {
        assert(old(buf)@.subrange(from as int, to as int) =~= old(buf)@.skip(from as int));
        assert(out@ =~= old(buf)@.skip(from as int));
    }
}

} // verus!
