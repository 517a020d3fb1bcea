//! The stream framing model: a stream is the magic chunk followed by
//! framed chunks, each a one-byte type, a three-byte little-endian
//! length, and that many payload bytes.

use vstd::prelude::*;

use crate::crc::spec_crc;
use crate::tags::le24;
use crate::tags::le32;
use crate::tags::spec_block_decode;

verus! {

/// The reader-visible payload of a chunk sequence: data chunks checked
/// against their checksums and size ceiling, skippable chunks ignored.
/// `None` is corruption: a truncated chunk, an unknown type, a failed
/// checksum, or an oversized block.
pub open spec fn chunks_payload(s: Seq<u8>, max_block: int) -> Option<Seq<u8>>
    decreases s.len(),
{
    if s.len() == 0 {
        Some(Seq::<u8>::empty())
    } else if s.len() < 4 {
        None
    } else {
        let ty = s[0];
        let clen = le24(s[1], s[2], s[3]);
        if 4 + clen > s.len() {
            None
        } else {
            let payload = s.subrange(4, 4 + clen);
            let rest = s.skip(4 + clen);
            if ty == 0x00 {
                if clen < 4 {
                    None
                } else {
                    let want = le32(payload[0], payload[1], payload[2], payload[3]);
                    match spec_block_decode(payload.skip(4)) {
                        Some(d) => {
                            if d.len() <= max_block && want == spec_crc(d) as int {
                                match chunks_payload(rest, max_block) {
                                    Some(p) => Some(d + p),
                                    None => None,
                                }
                            } else {
                                None
                            }
                        },
                        None => None,
                    }
                }
            } else if ty == 0x01 {
                if clen < 4 {
                    None
                } else {
                    let want = le32(payload[0], payload[1], payload[2], payload[3]);
                    let d = payload.skip(4);
                    if d.len() <= max_block && want == spec_crc(d) as int {
                        match chunks_payload(rest, max_block) {
                            Some(p) => Some(d + p),
                            None => None,
                        }
                    } else {
                        None
                    }
                }
            } else if ty == 0xff || ty == 0xfe || ty == 0x99 || (0x80 <= ty && ty <= 0xfd) {
                chunks_payload(rest, max_block)
            } else {
                None
            }
        }
    }
}

/// The payload of the longest well-formed chunk prefix of `s`: what a
/// reader can still deliver before it reaches the end of the stream or
/// its first corrupt chunk. Opaque so that readers treat it as a value.
#[verifier::opaque]
pub open spec fn chunks_prefix_payload(s: Seq<u8>, max_block: int) -> Seq<u8>
    decreases s.len(),
{
    if s.len() < 4 {
        Seq::<u8>::empty()
    } else {
        let ty = s[0];
        let clen = le24(s[1], s[2], s[3]);
        if 4 + clen > s.len() {
            Seq::<u8>::empty()
        } else {
            let payload = s.subrange(4, 4 + clen);
            let rest = s.skip(4 + clen);
            if ty == 0x00 {
                if clen < 4 {
                    Seq::<u8>::empty()
                } else {
                    let want = le32(payload[0], payload[1], payload[2], payload[3]);
                    match spec_block_decode(payload.skip(4)) {
                        Some(d) => {
                            if d.len() <= max_block && want == spec_crc(d) as int {
                                d + chunks_prefix_payload(rest, max_block)
                            } else {
                                Seq::<u8>::empty()
                            }
                        },
                        None => Seq::<u8>::empty(),
                    }
                }
            } else if ty == 0x01 {
                if clen < 4 {
                    Seq::<u8>::empty()
                } else {
                    let want = le32(payload[0], payload[1], payload[2], payload[3]);
                    let d = payload.skip(4);
                    if d.len() <= max_block && want == spec_crc(d) as int {
                        d + chunks_prefix_payload(rest, max_block)
                    } else {
                        Seq::<u8>::empty()
                    }
                }
            } else if ty == 0xff || ty == 0xfe || ty == 0x99 || (0x80 <= ty && ty <= 0xfd) {
                chunks_prefix_payload(rest, max_block)
            } else {
                Seq::<u8>::empty()
            }
        }
    }
}

/// The prefix payload steps over one well-formed chunk just as the
/// full payload does; over an empty or truncated stream it is empty.
pub proof fn lemma_prefix_step(s: Seq<u8>, d: Seq<u8>, max_block: int)
    requires
        s.len() >= 4,
        4 + le24(s[1], s[2], s[3]) <= s.len(),
        ({
            let ty = s[0];
            let clen = le24(s[1], s[2], s[3]);
            let payload = s.subrange(4, 4 + clen);
            if ty == 0x00 {
                &&& clen >= 4
                &&& spec_block_decode(payload.skip(4)) == Some(d)
                &&& d.len() <= max_block
                &&& le32(payload[0], payload[1], payload[2], payload[3]) == spec_crc(d) as int
            } else if ty == 0x01 {
                &&& clen >= 4
                &&& payload.skip(4) == d
                &&& d.len() <= max_block
                &&& le32(payload[0], payload[1], payload[2], payload[3]) == spec_crc(d) as int
            } else {
                (s[0] == 0xfe || s[0] == 0x99 || s[0] == 0xff
                    || (0x80 <= s[0] && s[0] <= 0xfd)) && d.len() == 0
            }
        }),
    ensures
        chunks_prefix_payload(s, max_block)
            == d + chunks_prefix_payload(s.skip(4 + le24(s[1], s[2], s[3])), max_block),
{
    reveal(chunks_prefix_payload);
    if !(s[0] == 0x00 || s[0] == 0x01) {
        assert(d =~= Seq::<u8>::empty());
        let rest = s.skip(4 + le24(s[1], s[2], s[3]));
        assert(d + chunks_prefix_payload(rest, max_block)
            =~= chunks_prefix_payload(rest, max_block));
    }
}

/// An empty or short remainder has no prefix payload.
pub proof fn lemma_prefix_empty(s: Seq<u8>, max_block: int)
    requires
        s.len() < 4,
    ensures
        chunks_prefix_payload(s, max_block) == Seq::<u8>::empty(),
{
    reveal(chunks_prefix_payload);
}

/// Appending further chunks extends the payload: the step every writer
/// action takes.
pub proof fn lemma_chunks_concat(a: Seq<u8>, b: Seq<u8>, pa: Seq<u8>, max_block: int)
    requires
        chunks_payload(a, max_block) == Some(pa),
    ensures
        chunks_payload(a + b, max_block) == match chunks_payload(b, max_block) {
            Some(pb) => Some::<Seq<u8>>(pa + pb),
            None => None::<Seq<u8>>,
        },
    decreases a.len(),
{
    if a.len() == 0 {
        assert(a + b =~= b);
        match chunks_payload(b, max_block) {
            Some(pb) => {
                assert(pa + pb =~= pb);
            },
            None => {},
        }
    } else {
        let s = a + b;
        let ty = a[0];
        let clen = le24(a[1], a[2], a[3]);
        assert(s[0] == ty && s[1] == a[1] && s[2] == a[2] && s[3] == a[3]);
        assert(4 + clen <= a.len());
        assert(s.subrange(4, 4 + clen) =~= a.subrange(4, 4 + clen));
        assert(s.skip(4 + clen) =~= a.skip(4 + clen) + b);
        let rest = a.skip(4 + clen);
        let payload = a.subrange(4, 4 + clen);
        if ty == 0x00 {
            let d = spec_block_decode(payload.skip(4)).unwrap();
            let pr = chunks_payload(rest, max_block).unwrap();
            lemma_chunks_concat(rest, b, pr, max_block);
            match chunks_payload(b, max_block) {
                Some(pb) => {
                    assert(d + (pr + pb) =~= (d + pr) + pb);
                },
                None => {},
            }
        } else if ty == 0x01 {
            let d = payload.skip(4);
            let pr = chunks_payload(rest, max_block).unwrap();
            lemma_chunks_concat(rest, b, pr, max_block);
            match chunks_payload(b, max_block) {
                Some(pb) => {
                    assert(d + (pr + pb) =~= (d + pr) + pb);
                },
                None => {},
            }
        } else {
            let pr = chunks_payload(rest, max_block).unwrap();
            lemma_chunks_concat(rest, b, pr, max_block);
        }
    }
}

/// A single well-formed data or skippable chunk, alone, yields its data.
pub proof fn lemma_chunks_single(s: Seq<u8>, d: Seq<u8>, max_block: int)
    requires
        s.len() >= 4,
        4 + le24(s[1], s[2], s[3]) == s.len(),
        ({
            let ty = s[0];
            let clen = le24(s[1], s[2], s[3]);
            let payload = s.subrange(4, 4 + clen);
            if ty == 0x00 {
                &&& clen >= 4
                &&& spec_block_decode(payload.skip(4)) == Some(d)
                &&& d.len() <= max_block
                &&& le32(payload[0], payload[1], payload[2], payload[3]) == spec_crc(d) as int
            } else if ty == 0x01 {
                &&& clen >= 4
                &&& payload.skip(4) == d
                &&& d.len() <= max_block
                &&& le32(payload[0], payload[1], payload[2], payload[3]) == spec_crc(d) as int
            } else {
                (s[0] == 0xfe || s[0] == 0x99 || s[0] == 0xff
                    || (0x80 <= s[0] && s[0] <= 0xfd)) && d.len() == 0
            }
        }),
    ensures
        chunks_payload(s, max_block) == Some(d),
{
    let clen = le24(s[1], s[2], s[3]);
    let rest = s.skip(4 + clen);
    assert(rest =~= Seq::<u8>::empty());
    assert(chunks_payload(rest, max_block) == Some(Seq::<u8>::empty()));
    if s[0] == 0x00 || s[0] == 0x01 {
        assert(d + Seq::<u8>::empty() =~= d);
    } else {
        assert(d =~= Seq::<u8>::empty());
    }
}

} // verus!
