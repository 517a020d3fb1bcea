//! The mathematical model of a compressed block: a leading varint with the
//! decoded length, followed by a stream of tags (literal, three copy widths,
//! and repeat-offset copies encoded as zero-offset Copy1 tags).
//!
//! `spec_block_decode` is the reference semantics. The executable decoder is
//! proved to return exactly what it says, and every encoder is proved to
//! produce bytes that it maps back to the source.

use vstd::prelude::*;

use crate::varint::spec_parse_varint;

verus! {

/// Little-endian recomposition of two bytes.
pub open spec fn le16(b0: u8, b1: u8) -> int {
    b0 + 256 * (b1 as int)
}

/// Little-endian recomposition of three bytes.
pub open spec fn le24(b0: u8, b1: u8, b2: u8) -> int {
    b0 + 256 * (b1 as int) + 65536 * (b2 as int)
}

/// Little-endian recomposition of four bytes.
pub open spec fn le32(b0: u8, b1: u8, b2: u8, b3: u8) -> int {
    b0 + 256 * (b1 as int) + 65536 * (b2 as int) + 16777216 * (b3 as int)
}

/// The byte a copy at back-distance `off` reads next: from `dst` itself,
/// or, beyond its start, from the virtually prepended dictionary.
pub open spec fn ext_at(dict: Seq<u8>, dst: Seq<u8>, off: int) -> u8 {
    if off <= dst.len() {
        dst[dst.len() - off]
    } else {
        dict[dict.len() - (off - dst.len())]
    }
}

/// Extend `dst` by `len` bytes copied byte-by-byte from back-distance
/// `off`. Overlapping copies (`off < len`) repeat the pattern: each byte
/// written may be read again during the same copy.
pub open spec fn copy_extend(dict: Seq<u8>, dst: Seq<u8>, off: int, len: int) -> Seq<u8>
    decreases len,
{
    if len <= 0 {
        dst
    } else {
        copy_extend(dict, dst.push(ext_at(dict, dst, off)), off, len - 1)
    }
}

/// Parse a literal header at the start of `s`: the literal length and the
/// header byte count.
pub open spec fn lit_header(s: Seq<u8>) -> Option<(int, int)> {
    if s.len() < 1 {
        None
    } else {
        let x = s[0] / 4;
        if x <= 59 {
            Some(((x + 1) as int, 1))
        } else if x == 60 {
            if s.len() >= 2 {
                Some((s[1] + 1, 2))
            } else {
                None
            }
        } else if x == 61 {
            if s.len() >= 3 {
                Some((le16(s[1], s[2]) + 1, 3))
            } else {
                None
            }
        } else if x == 62 {
            if s.len() >= 4 {
                Some((le24(s[1], s[2], s[3]) + 1, 4))
            } else {
                None
            }
        } else {
            if s.len() >= 5 {
                Some((le32(s[1], s[2], s[3], s[4]) + 1, 5))
            } else {
                None
            }
        }
    }
}

/// Parse a Copy1 tag at the start of `s`. An encoded offset of zero reuses
/// `last`, the most recently used copy offset, with an extended length
/// code. Returns offset, length, and bytes consumed.
pub open spec fn copy1_parse(s: Seq<u8>, last: int) -> Option<(int, int, int)> {
    if s.len() < 2 {
        None
    } else {
        let toffset = (s[0] / 32) * 256 + s[1];
        let lf = (s[0] / 4) % 8;
        if toffset == 0 {
            if lf == 5 {
                if s.len() >= 3 {
                    Some((last, s[2] + 8, 3))
                } else {
                    None
                }
            } else if lf == 6 {
                if s.len() >= 4 {
                    Some((last, le16(s[2], s[3]) + 260, 4))
                } else {
                    None
                }
            } else if lf == 7 {
                if s.len() >= 5 {
                    Some((last, le24(s[2], s[3], s[4]) + 65540, 5))
                } else {
                    None
                }
            } else {
                Some((last, lf + 4, 2))
            }
        } else {
            Some((toffset, lf + 4, 2))
        }
    }
}

/// Execute the tag stream `src` against decoded prefix `dst`, whose total
/// decoded size must never exceed `dlen`. `last` is the offset available to
/// repeat tags. Returns the decoded bytes and the final repeat offset, or
/// `None` on any format violation.
pub open spec fn exec_tags(
    dict: Seq<u8>,
    src: Seq<u8>,
    dst: Seq<u8>,
    last: int,
    dlen: int,
) -> Option<(Seq<u8>, int)>
    decreases src.len(), 1int,
{
    if src.len() == 0 {
        Some((dst, last))
    } else {
        let tag = s0_tag(src);
        if tag == 0 {
            match lit_header(src) {
                Some((len, hdr)) => {
                    if hdr + len <= src.len() && dst.len() + len <= dlen {
                        exec_tags(
                            dict,
                            src.skip(hdr + len),
                            dst + src.subrange(hdr, hdr + len),
                            last,
                            dlen,
                        )
                    } else {
                        None
                    }
                },
                None => None,
            }
        } else if tag == 1 {
            match copy1_parse(src, last) {
                Some((off, len, consumed)) => copy_step(dict, src, dst, dlen, off, len, consumed),
                None => None,
            }
        } else if tag == 2 {
            if src.len() >= 3 {
                copy_step(dict, src, dst, dlen, le16(src[1], src[2]), src[0] / 4 + 1, 3)
            } else {
                None
            }
        } else {
            if src.len() >= 5 {
                copy_step(
                    dict,
                    src,
                    dst,
                    dlen,
                    le32(src[1], src[2], src[3], src[4]),
                    src[0] / 4 + 1,
                    5,
                )
            } else {
                None
            }
        }
    }
}

/// The tag kind of the first byte: its two low bits.
pub open spec fn s0_tag(src: Seq<u8>) -> int {
    (src[0] % 4) as int
}

/// One copy step: bounds-check the offset against what has been decoded
/// (plus the dictionary) and the length against the declared total, then
/// continue behind the consumed tag bytes.
pub open spec fn copy_step(
    dict: Seq<u8>,
    src: Seq<u8>,
    dst: Seq<u8>,
    dlen: int,
    off: int,
    len: int,
    consumed: int,
) -> Option<(Seq<u8>, int)>
    decreases src.len(), 0int,
{
    if 1 <= off <= dst.len() + dict.len() && dst.len() + len <= dlen && 0 < consumed
        <= src.len() {
        exec_tags(dict, src.skip(consumed), copy_extend(dict, dst, off, len), off, dlen)
    } else {
        None
    }
}

/// Decode a whole block against a virtually prepended dictionary: leading
/// varint, then tags; the decoded size must equal the varint exactly.
pub open spec fn spec_block_decode_dict(dict: Seq<u8>, src: Seq<u8>) -> Option<Seq<u8>> {
    match spec_parse_varint(src) {
        Some((v, n)) => {
            if v > 0xffffffff {
                None
            } else {
                match exec_tags(dict, src.skip(n), Seq::<u8>::empty(), 0, v) {
                    Some((dst, last)) => {
                        if dst.len() == v {
                            Some(dst)
                        } else {
                            None
                        }
                    },
                    None => None,
                }
            }
        },
        None => None,
    }
}

/// Decode a whole block with no dictionary.
pub open spec fn spec_block_decode(src: Seq<u8>) -> Option<Seq<u8>> {
    spec_block_decode_dict(Seq::<u8>::empty(), src)
}

/// A block whose leading varint declares a decoded size beyond the
/// 32-bit ceiling: rejected as too large rather than corrupt.
pub open spec fn spec_block_too_large(src: Seq<u8>) -> bool {
    spec_parse_varint(src) matches Some((v, n)) && v > 0xffffffff
}

} // verus!
