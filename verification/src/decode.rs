//! The block decoder: parses tags with strict bounds enforcement and
//! performs overlapping self-copies with byte-repeating semantics.

use vstd::prelude::*;

use crate::error::Error;
use crate::tags::copy_extend;
use crate::tags::copy1_parse;
use crate::tags::exec_tags;
use crate::tags::ext_at;
use crate::tags::le16;
use crate::tags::le32;
use crate::tags::lit_header;
use crate::tags::spec_block_decode;
use crate::tags::spec_block_decode_dict;
use crate::varint::decode_varint;
use crate::varint::spec_parse_varint;

verus! {

/// Decoder for S2 and Snappy blocks. The decoder accepts both formats;
/// `allow_snappy` records the caller's intent only.
pub struct Decoder {
    allow_snappy: bool,
}

impl Decoder {
    /// Whether this decoder was built to accept the Snappy format too.
    pub closed spec fn allows_snappy(&self) -> bool {
        self.allow_snappy
    }

    /// Create a decoder that accepts both S2 and Snappy formats.
    pub fn new() -> (r: Decoder)
        ensures
            r.allows_snappy(),
    {
        Decoder { allow_snappy: true }
    }

    /// Create a decoder that only accepts the S2 format.
    pub fn new_s2_only() -> (r: Decoder)
        ensures
            !r.allows_snappy(),
    {
        Decoder { allow_snappy: false }
    }
}

/// Unfolding of `copy_extend` at the far end: one more copied byte is the
/// byte at back-distance `off` of the extension so far.
proof fn lemma_copy_extend_snoc(dict: Seq<u8>, dst: Seq<u8>, off: int, n: int)
    requires
        n >= 0,
    ensures
        copy_extend(dict, dst, off, n + 1)
            == copy_extend(dict, dst, off, n).push(ext_at(dict, copy_extend(dict, dst, off, n), off)),
    decreases n,
{
    let dstp = dst.push(ext_at(dict, dst, off));
    if n == 0 {
        assert(copy_extend(dict, dst, off, 1) == copy_extend(dict, dstp, off, 0));
        assert(copy_extend(dict, dstp, off, 0) == dstp);
    } else {
        lemma_copy_extend_snoc(dict, dstp, off, n - 1);
        assert(copy_extend(dict, dst, off, n + 1) == copy_extend(dict, dstp, off, n));
        assert(copy_extend(dict, dst, off, n) == copy_extend(dict, dstp, off, n - 1));
    }
}

/// A copy of `len` bytes grows the decoded prefix by exactly `len`.
pub proof fn lemma_copy_extend_len(dict: Seq<u8>, dst: Seq<u8>, off: int, len: int)
    requires
        len >= 0,
    ensures
        copy_extend(dict, dst, off, len).len() == dst.len() + len,
    decreases len,
{
    if len > 0 {
        lemma_copy_extend_len(dict, dst.push(ext_at(dict, dst, off)), off, len - 1);
    }
}

/// Append `len` bytes read from back-distance `off`, resolving reads that
/// reach behind the start of `dst` against the dictionary.
fn copy_within(dst: &mut Vec<u8>, dict: &[u8], off: u64, len: usize)
    requires
        1 <= off <= old(dst)@.len() + dict@.len(),
        old(dst)@.len() + len <= usize::MAX,
    ensures
        final(dst)@ == copy_extend(dict@, old(dst)@, off as int, len as int),
{
    let mut i: usize = 0;
    while i < len
        invariant
            i <= len,
            1 <= off <= old(dst)@.len() + dict@.len(),
            old(dst)@.len() + len <= usize::MAX,
            dst@ == copy_extend(dict@, old(dst)@, off as int, i as int),
            dst@.len() == old(dst)@.len() + i,
        decreases len - i,
    {
        let d = dst.len();
        let b: u8 = if off <= d as u64 {
            dst[d - off as usize]
        } else {
            dict[dict.len() - (off - d as u64) as usize]
        };
        proof {
            lemma_copy_extend_snoc(dict@, old(dst)@, off as int, i as int);
            assert(b == ext_at(dict@, dst@, off as int));
        }
        dst.push(b);
        i = i + 1;
    }
}

/// Append `src[from..to]` to `dst`.
pub(crate) fn push_range(dst: &mut Vec<u8>, src: &[u8], from: usize, to: usize)
    requires
        from <= to <= src@.len(),
        old(dst)@.len() + (to - from) <= usize::MAX,
    ensures
        final(dst)@ == old(dst)@ + src@.subrange(from as int, to as int),
{
    let mut i: usize = from;
    while i < to
        invariant
            from <= i <= to <= src@.len(),
            dst@ == old(dst)@ + src@.subrange(from as int, i as int),
        decreases to - i,
    {
        let b = src[i];
        dst.push(b);
        i = i + 1;
        proof {
            assert(old(dst)@ + src@.subrange(from as int, i as int)
                =~= (old(dst)@ + src@.subrange(from as int, i - 1)).push(src@[i - 1]));
        }
    }
    proof {
        assert(dst@ =~= old(dst)@ + src@.subrange(from as int, to as int));
    }
}


/// Parse a literal header at position `s`, mirroring `lit_header` on the
/// remaining bytes.
fn parse_literal(src: &[u8], s: usize) -> (r: Option<(u64, usize)>)
    requires
        s < src@.len(),
        src@[s as int] % 4 == 0,
    ensures
        match r {
            Some(p) => {
                &&& lit_header(src@.skip(s as int)) == Some((p.0 as int, p.1 as int))
                &&& 1 <= p.1 <= src@.len() - s
                &&& 1 <= p.0 < 0x100000001
            },
            None => lit_header(src@.skip(s as int)) is None,
        },
{
    let ghost rem = src@.skip(s as int);
    assert(forall|k: int| 0 <= k < rem.len() ==> rem[k] == src@[s + k]);
    let avail = src.len() - s;
    let b0 = src[s];
    assert(rem[0] == b0);
    let x = b0 / 4;
    if x <= 59 {
        Some((x as u64 + 1, 1))
    } else if x == 60 {
        if avail < 2 {
            return None;
        }
        Some((src[s + 1] as u64 + 1, 2))
    } else if x == 61 {
        if avail < 3 {
            return None;
        }
        Some((src[s + 1] as u64 + 256 * (src[s + 2] as u64) + 1, 3))
    } else if x == 62 {
        if avail < 4 {
            return None;
        }
        Some((src[s + 1] as u64 + 256 * (src[s + 2] as u64) + 65536 * (src[s + 3] as u64) + 1, 4))
    } else {
        if avail < 5 {
            return None;
        }
        Some((src[s + 1] as u64 + 256 * (src[s + 2] as u64) + 65536 * (src[s + 3] as u64)
            + 16777216 * (src[s + 4] as u64) + 1, 5))
    }
}

/// Parse one copy tag at position `s`, mirroring the three copy forms of
/// the model; a zero encoded Copy1 offset reuses `last`.
fn parse_copy(src: &[u8], s: usize, last: u64) -> (r: Option<(u64, usize, usize)>)
    requires
        s < src@.len(),
        src@[s as int] % 4 != 0,
    ensures
        ({
            let rem = src@.skip(s as int);
            let tag = rem[0] % 4;
            match r {
                Some(p) => {
                    &&& p.2 <= src@.len() - s
                    &&& p.1 <= 0x1010010
                    &&& if tag == 1 {
                        copy1_parse(rem, last as int) == Some((p.0 as int, p.1 as int, p.2 as int))
                    } else if tag == 2 {
                        rem.len() >= 3 && p.0 as int == le16(rem[1], rem[2])
                            && p.1 as int == rem[0] / 4 + 1 && p.2 == 3
                    } else {
                        rem.len() >= 5 && p.0 as int == le32(rem[1], rem[2], rem[3], rem[4])
                            && p.1 as int == rem[0] / 4 + 1 && p.2 == 5
                    }
                },
                None => {
                    if tag == 1 {
                        copy1_parse(rem, last as int) is None
                    } else if tag == 2 {
                        rem.len() < 3
                    } else {
                        rem.len() < 5
                    }
                },
            }
        }),
{
    let ghost rem = src@.skip(s as int);
    assert(forall|k: int| 0 <= k < rem.len() ==> rem[k] == src@[s + k]);
    let avail = src.len() - s;
    let b0 = src[s];
    assert(rem[0] == b0);
    let tag = b0 % 4;
    if tag == 1 {
        if avail < 2 {
            return None;
        }
        let toffset = (b0 as usize / 32) * 256 + src[s + 1] as usize;
        let lf = (b0 as usize / 4) % 8;
        if toffset == 0 {
            if lf == 5 {
                if avail < 3 {
                    return None;
                }
                Some((last, src[s + 2] as usize + 8, 3))
            } else if lf == 6 {
                if avail < 4 {
                    return None;
                }
                Some((last, src[s + 2] as usize + 256 * (src[s + 3] as usize) + 260, 4))
            } else if lf == 7 {
                if avail < 5 {
                    return None;
                }
                Some((last, src[s + 2] as usize + 256 * (src[s + 3] as usize)
                    + 65536 * (src[s + 4] as usize) + 65540, 5))
            } else {
                Some((last, lf + 4, 2))
            }
        } else {
            Some((toffset as u64, lf + 4, 2))
        }
    } else if tag == 2 {
        if avail < 3 {
            return None;
        }
        Some((src[s + 1] as u64 + 256 * (src[s + 2] as u64), b0 as usize / 4 + 1, 3))
    } else {
        if avail < 5 {
            return None;
        }
        Some((src[s + 1] as u64 + 256 * (src[s + 2] as u64) + 65536 * (src[s + 3] as u64)
            + 16777216 * (src[s + 4] as u64), b0 as usize / 4 + 1, 5))
    }
}

/// Run the tag stream of a block (everything behind the length header)
/// against an empty output, with reads beyond the output start resolved in
/// `dict`. On success the output holds exactly `dlen` bytes.
#[verifier::rlimit(100)]
fn s2_decode(dst: &mut Vec<u8>, src: &[u8], dict: &[u8], dlen: usize) -> (r: Result<(), Error>)
    requires
        old(dst)@.len() == 0,
    ensures
        match exec_tags(dict@, src@, Seq::<u8>::empty(), 0, dlen as int) {
            Some((out, last)) => {
                if out.len() == dlen {
                    r == Ok::<(), Error>(()) && final(dst)@ == out
                } else {
                    r == Err::<(), Error>(Error::Corrupt)
                }
            },
            None => r == Err::<(), Error>(Error::Corrupt),
        },
{
    let ghost whole = exec_tags(dict@, src@, Seq::<u8>::empty(), 0, dlen as int);
    let mut s: usize = 0;
    let mut last: u64 = 0;
    proof {
        assert(src@.skip(0) =~= src@);
        assert(old(dst)@ =~= Seq::<u8>::empty());
    }
    loop
        invariant
            s <= src@.len(),
            dst@.len() <= dlen,
            exec_tags(dict@, src@.skip(s as int), dst@, last as int, dlen as int) == whole,
            whole == exec_tags(dict@, src@, Seq::<u8>::empty(), 0, dlen as int),
        decreases src@.len() - s,
    {
        if s >= src.len() {
            proof {
                assert(src@.skip(s as int) =~= Seq::<u8>::empty());
            }
            if dst.len() == dlen {
                return Ok(());
            } else {
                return Err(Error::Corrupt);
            }
        }
        let ghost rem = src@.skip(s as int);
        let ghost last0 = last as int;
        let b0 = src[s];
        assert(rem[0] == b0);
        let tag = b0 % 4;
        if tag == 0 {
            // Literal: header then raw bytes.
            let (length_w, hdr) = match parse_literal(src, s) {
                Some(p) => p,
                None => {
                    return Err(Error::Corrupt);
                },
            };
            if length_w > (src.len() - s - hdr) as u64 || length_w > (dlen - dst.len()) as u64 {
                return Err(Error::Corrupt);
            }
            let length = length_w as usize;
            let ghost dst0 = dst@;
            push_range(dst, src, s + hdr, s + hdr + length);
            proof {
                assert(src@.subrange((s + hdr) as int, (s + hdr + length) as int)
                    =~= rem.subrange(hdr as int, hdr + length));
                assert(rem.skip(hdr + length) =~= src@.skip((s + hdr + length) as int));
            }
            s = s + hdr + length;
        } else {
            // One of the three copy widths, or a repeat.
            let (off, length, consumed) = match parse_copy(src, s, last) {
                Some(p) => p,
                None => {
                    return Err(Error::Corrupt);
                },
            };
            assert(exec_tags(dict@, rem, dst@, last0, dlen as int)
                == crate::tags::copy_step(dict@, rem, dst@, dlen as int, off as int, length as int,
                    consumed as int));
            let d = dst.len();
            if off == 0 || (off > d as u64 && off - d as u64 > dict.len() as u64)
                || length > dlen - d {
                return Err(Error::Corrupt);
            }
            let ghost dst0 = dst@;
            copy_within(dst, dict, off, length);
            proof {
                lemma_copy_extend_len(dict@, dst0, off as int, length as int);
                assert(rem.skip(consumed as int) =~= src@.skip((s + consumed) as int));
                assert(crate::tags::copy_step(dict@, rem, dst0, dlen as int, off as int,
                    length as int, consumed as int)
                    == exec_tags(dict@, rem.skip(consumed as int),
                        copy_extend(dict@, dst0, off as int, length as int), off as int,
                        dlen as int));
            }
            s = s + consumed;
            last = off;
        }
    }
}

/// Decoded length of a block: the value of the leading varint and the
/// byte count of the header. A declared size above `2^32 - 1` is too
/// large; a malformed varint is corrupt.
pub fn decode_len(src: &[u8]) -> (r: Result<(usize, usize), Error>)
    ensures
        match spec_parse_varint(src@) {
            Some((v, n)) => {
                if v <= 0xffffffff {
                    r matches Ok(p) && p.0 == v && p.1 == n && n <= src@.len()
                } else {
                    r == Err::<(usize, usize), Error>(Error::TooLarge)
                }
            },
            None => r == Err::<(usize, usize), Error>(Error::Corrupt),
        },
{
    let (v, n) = match decode_varint(src) {
        Ok(p) => p,
        Err(e) => {
            return Err(Error::Corrupt);
        },
    };
    if v > 0xffffffff {
        return Err(Error::TooLarge);
    }
    Ok((v as usize, n))
}

/// Decode a complete block (leading varint plus tags) against a virtually
/// prepended dictionary. Dictionary bytes are read-only and are not part
/// of the output.
pub fn decode_with_dict(src: &[u8], dict: &crate::dict::Dict) -> (r: Result<Vec<u8>, Error>)
    ensures
        match spec_block_decode_dict(dict@, src@) {
            Some(out) => r matches Ok(v) && v@ == out,
            None => r == Err::<Vec<u8>, Error>(
                if crate::tags::spec_block_too_large(src@) {
                    Error::TooLarge
                } else {
                    Error::Corrupt
                },
            ),
        },
{
    decode_dict_slice(src, dict.data())
}

/// Decode a complete block against a dictionary given as raw bytes.
fn decode_dict_slice(src: &[u8], dict: &[u8]) -> (r: Result<Vec<u8>, Error>)
    ensures
        match spec_block_decode_dict(dict@, src@) {
            Some(out) => r matches Ok(v) && v@ == out,
            None => r == Err::<Vec<u8>, Error>(
                if crate::tags::spec_block_too_large(src@) {
                    Error::TooLarge
                } else {
                    Error::Corrupt
                },
            ),
        },
{
    let (dlen, header_len) = decode_len(src)?;
    let mut dst: Vec<u8> = Vec::new();
    let tail: &[u8] = slice_tail(src, header_len);
    proof {
        assert(dst@ =~= Seq::<u8>::empty());
    }
    match s2_decode(&mut dst, tail, dict, dlen) {
        Ok(()) => Ok(dst),
        Err(e) => Err(Error::Corrupt),
    }
}

/// The suffix of a slice from `n` on.
pub(crate) fn slice_tail<'a>(s: &'a [u8], n: usize) -> (r: &'a [u8])
    requires
        n <= s@.len(),
    ensures
        r@ == s@.skip(n as int),
{
    let r = &s[n..s.len()];
    proof {
        assert(r@ =~= s@.skip(n as int));
    }
    r
}

/// Decode returns the decoded form of a complete block.
///
/// This function accepts both S2 and Snappy format.
pub fn decode(src: &[u8]) -> (r: Result<Vec<u8>, Error>)
    ensures
        match spec_block_decode(src@) {
            Some(out) => r matches Ok(v) && v@ == out,
            None => r == Err::<Vec<u8>, Error>(
                if crate::tags::spec_block_too_large(src@) {
                    Error::TooLarge
                } else {
                    Error::Corrupt
                },
            ),
        },
{
    let empty: Vec<u8> = Vec::new();
    decode_dict_slice(src, empty.as_slice())
}

/// Decode Snappy format data. The S2 decoder handles the Snappy format,
/// so this is an alias for `decode`.
pub fn decode_snappy(src: &[u8]) -> (r: Result<Vec<u8>, Error>)
    ensures
        match spec_block_decode(src@) {
            Some(out) => r matches Ok(v) && v@ == out,
            None => r == Err::<Vec<u8>, Error>(
                if crate::tags::spec_block_too_large(src@) {
                    Error::TooLarge
                } else {
                    Error::Corrupt
                },
            ),
        },
{
    decode(src)
}

/// Decode into a caller-supplied buffer, whose current length must be
/// able to hold the result. On success the buffer is replaced by exactly
/// the decoded bytes and the decoded length is returned; a buffer shorter
/// than the declared size, a declared size beyond the ceiling, or a bad
/// varint leave the buffer untouched.
pub fn decode_into(dst: &mut Vec<u8>, src: &[u8]) -> (r: Result<usize, Error>)
    ensures
        final(dst)@.len() == old(dst)@.len(),
        match spec_parse_varint(src@) {
            None => r == Err::<usize, Error>(Error::Corrupt) && final(dst)@ == old(dst)@,
            Some((v, n)) => {
                if v > 0xffffffff {
                    r == Err::<usize, Error>(Error::TooLarge) && final(dst)@ == old(dst)@
                } else if old(dst)@.len() < v {
                    r == Err::<usize, Error>(Error::BufferTooSmall) && final(dst)@ == old(dst)@
                } else {
                    match spec_block_decode(src@) {
                        Some(out) => r == Ok::<usize, Error>(out.len() as usize)
                            && final(dst)@ == out + old(dst)@.skip(out.len() as int),
                        None => r == Err::<usize, Error>(Error::Corrupt)
                            && final(dst)@ == old(dst)@,
                    }
                }
            },
        },
{
    let (dlen, header_len) = decode_len(src)?;
    if dst.len() < dlen {
        return Err(Error::BufferTooSmall);
    }
    let mut out: Vec<u8> = Vec::new();
    let empty: Vec<u8> = Vec::new();
    let tail: &[u8] = slice_tail(src, header_len);
    match s2_decode(&mut out, tail, empty.as_slice(), dlen) {
        Ok(()) => {
            // Write the decoded bytes over the front of the buffer; what
            // lies beyond the decoded length stays as it was.
            let mut i: usize = 0;
            while i < dlen
                invariant
                    out@.len() == dlen,
                    dlen <= dst@.len(),
                    i <= dlen,
                    dst@.len() == old(dst)@.len(),
                    forall|j: int| 0 <= j < i ==> dst@[j] == out@[j],
                    forall|j: int| i <= j < dst@.len() ==> dst@[j] == old(dst)@[j],
                decreases dlen - i,
            {
                let x = out[i];
                dst.set(i, x);
                i = i + 1;
            }
            proof {
                assert(dst@ =~= out@ + old(dst)@.skip(dlen as int));
            }
            Ok(dlen)
        },
        Err(e) => Err(Error::Corrupt),
    }
}

} // verus!
