//! Tag emitters: literal headers, the three copy widths, and repeat
//! sequences. Each emitter appends a byte sequence given by a spec-level
//! encoding function, and a lemma per encoding states what the decoder
//! makes of it: exactly the bytes the emitter was asked to represent.

use vstd::prelude::*;

use crate::tags::copy_extend;
use crate::tags::copy_step;
use crate::tags::exec_tags;
use crate::tags::le16;
use crate::tags::le24;
use crate::tags::le32;

verus! {

/// The header of a literal of length `len` (1 to 2^32), smallest form.
pub open spec fn lit_hdr_enc(len: int) -> Seq<u8> {
    let n = len - 1;
    if n <= 59 {
        seq![(4 * n) as u8]
    } else if n < 256 {
        seq![0xf0u8, n as u8]
    } else if n < 65536 {
        seq![0xf4u8, (n % 256) as u8, (n / 256) as u8]
    } else if n < 16777216 {
        seq![0xf8u8, (n % 256) as u8, ((n / 256) % 256) as u8, (n / 65536) as u8]
    } else {
        seq![
            0xfcu8,
            (n % 256) as u8,
            ((n / 256) % 256) as u8,
            ((n / 65536) % 256) as u8,
            (n / 16777216) as u8,
        ]
    }
}

/// A literal tag: header then the bytes themselves.
pub open spec fn lit_enc(lit: Seq<u8>) -> Seq<u8> {
    lit_hdr_enc(lit.len() as int) + lit
}

/// A two-byte Copy1 tag: offset in 1..2048, length in 4..=11.
pub open spec fn copy1_enc(off: int, len: int) -> Seq<u8> {
    seq![((off / 256) * 32 + (len - 4) * 4 + 1) as u8, (off % 256) as u8]
}

/// A three-byte Copy2 tag: offset in 1..65536, length in 1..=64.
pub open spec fn copy2_enc(off: int, len: int) -> Seq<u8> {
    seq![((len - 1) * 4 + 2) as u8, (off % 256) as u8, (off / 256) as u8]
}

/// A five-byte Copy4 tag: offset in 1..2^32, length in 1..=64.
pub open spec fn copy4_enc(off: int, len: int) -> Seq<u8> {
    seq![
        ((len - 1) * 4 + 3) as u8,
        (off % 256) as u8,
        ((off / 256) % 256) as u8,
        ((off / 65536) % 256) as u8,
        (off / 16777216) as u8,
    ]
}

/// A repeat of the current offset, `len >= 4` bytes, shortest of the four
/// zero-offset forms; lengths beyond the largest form chain further
/// repeats.
pub open spec fn rep_enc(off: int, len: int) -> Seq<u8>
    decreases len,
{
    let l = len - 4;
    if l <= 4 {
        seq![(l * 4 + 1) as u8, 0u8]
    } else if l < 8 && off < 2048 {
        seq![((off / 256) * 32 + l * 4 + 1) as u8, (off % 256) as u8]
    } else if l < 260 {
        seq![0x15u8, 0u8, (l - 4) as u8]
    } else if l < 65792 {
        seq![0x19u8, 0u8, ((l - 256) % 256) as u8, ((l - 256) / 256) as u8]
    } else {
        let l2 = l - 65536;
        if l2 <= 0xffffff {
            seq![0x1du8, 0u8, (l2 % 256) as u8, ((l2 / 256) % 256) as u8, (l2 / 65536) as u8]
        } else if l2 - 0xffffff >= 4 {
            seq![0x1du8, 0u8, 0xffu8, 0xffu8, 0xffu8] + rep_enc(off, l2 - 0xffffff)
        } else {
            seq![
                0x1du8,
                0u8,
                ((l2 - 4) % 256) as u8,
                (((l2 - 4) / 256) % 256) as u8,
                ((l2 - 4) / 65536) as u8,
            ] + rep_enc(off, 4)
        }
    }
}

/// A copy of `len >= 4` bytes at `off`, split as the repeat-aware emitter
/// does: long matches become one copy tag and then repeats.
pub open spec fn copy_enc(off: int, len: int) -> Seq<u8>
    decreases len,
{
    if off >= 65536 {
        if len > 64 {
            if len - 64 >= 4 {
                copy4_enc(off, 64) + rep_enc(off, len - 64)
            } else if len - 64 == 0 {
                copy4_enc(off, 64)
            } else {
                copy4_enc(off, 64) + copy4_enc(off, len - 64)
            }
        } else {
            copy4_enc(off, len)
        }
    } else if len > 64 {
        if off < 2048 {
            copy1_enc(off, 8) + rep_enc(off, len - 8)
        } else {
            copy2_enc(off, 60) + rep_enc(off, len - 60)
        }
    } else if len >= 12 || off >= 2048 {
        copy2_enc(off, len)
    } else {
        copy1_enc(off, len)
    }
}

/// A copy of `len >= 4` bytes at `off` with no repeat tags, as the
/// Snappy-compatible emitter splits it.
pub open spec fn copy_nr_enc(off: int, len: int) -> Seq<u8>
    decreases len,
{
    if off >= 65536 {
        if len > 64 {
            if len - 64 >= 4 {
                copy4_enc(off, 64) + copy_nr_enc(off, len - 64)
            } else if len - 64 == 0 {
                copy4_enc(off, 64)
            } else {
                copy4_enc(off, 64) + copy4_enc(off, len - 64)
            }
        } else {
            copy4_enc(off, len)
        }
    } else if len > 64 {
        copy2_enc(off, 60) + copy_nr_enc(off, len - 60)
    } else if len >= 12 || off >= 2048 {
        copy2_enc(off, len)
    } else {
        copy1_enc(off, len)
    }
}

// ------------------------------------------------------------------
// What the decoder makes of each encoding.
// ------------------------------------------------------------------

/// Appending one copy after another at the same offset extends by the sum.
pub proof fn lemma_copy_extend_add(dict: Seq<u8>, dst: Seq<u8>, off: int, a: int, b: int)
    requires
        a >= 0,
        b >= 0,
    ensures
        copy_extend(dict, dst, off, a + b)
            == copy_extend(dict, copy_extend(dict, dst, off, a), off, b),
    decreases a,
{
    if a > 0 {
        lemma_copy_extend_add(dict, dst.push(crate::tags::ext_at(dict, dst, off)), off, a - 1, b);
    }
}

/// A literal tag consumes its header and bytes and appends the bytes.
#[verifier::rlimit(100)]
pub proof fn lemma_exec_lit(
    dict: Seq<u8>,
    lit: Seq<u8>,
    rest: Seq<u8>,
    dst: Seq<u8>,
    last: int,
    dlen: int,
)
    requires
        1 <= lit.len() < 0x100000000,
        dst.len() + lit.len() <= dlen,
    ensures
        exec_tags(dict, lit_enc(lit) + rest, dst, last, dlen)
            == exec_tags(dict, rest, dst + lit, last, dlen),
{
    let s = lit_enc(lit) + rest;
    let hdr = lit_hdr_enc(lit.len() as int);
    let n = lit.len() - 1;
    assert(s[0] == hdr[0]);
    assert(crate::tags::s0_tag(s) == 0) by {
        assert(s[0] % 4 == 0);
    }
    if n <= 59 {
        assert(s[0] == (4 * n) as u8);
        assert(s[0] % 4 == 0 && s[0] / 4 == n);
        assert(crate::tags::lit_header(s) == Some((n + 1, 1int)));
    } else if n < 256 {
        assert(s[0] == 0xf0 && s[1] == n as u8);
        assert(crate::tags::lit_header(s) == Some((n + 1, 2int)));
    } else if n < 65536 {
        assert(s[0] == 0xf4 && s[1] == (n % 256) as u8 && s[2] == (n / 256) as u8);
        assert(le16(s[1], s[2]) == n);
        assert(crate::tags::lit_header(s) == Some((n + 1, 3int)));
    } else if n < 16777216 {
        assert(s[0] == 0xf8 && s[1] == (n % 256) as u8 && s[2] == ((n / 256) % 256) as u8
            && s[3] == (n / 65536) as u8);
        assert(le24(s[1], s[2], s[3]) == n);
        assert(crate::tags::lit_header(s) == Some((n + 1, 4int)));
    } else {
        assert(s[0] == 0xfc && s[1] == (n % 256) as u8 && s[2] == ((n / 256) % 256) as u8
            && s[3] == ((n / 65536) % 256) as u8 && s[4] == (n / 16777216) as u8);
        assert(le32(s[1], s[2], s[3], s[4]) == n);
        assert(crate::tags::lit_header(s) == Some((n + 1, 5int)));
    }
    let h = hdr.len() as int;
    assert(s.subrange(h, h + lit.len()) =~= lit);
    assert(s.skip(h + lit.len()) =~= rest);
    assert(exec_tags(dict, s, dst, last, dlen)
        == exec_tags(dict, s.skip(h + lit.len()), dst + s.subrange(h, h + lit.len()), last, dlen));
}

/// A Copy1 tag extends the output by `len` bytes at `off` and makes `off`
/// the repeat offset.
proof fn lemma_exec_copy1(
    dict: Seq<u8>,
    off: int,
    len: int,
    rest: Seq<u8>,
    dst: Seq<u8>,
    last: int,
    dlen: int,
)
    requires
        1 <= off < 2048,
        4 <= len <= 11,
        off <= dst.len() + dict.len(),
        dst.len() + len <= dlen,
    ensures
        exec_tags(dict, copy1_enc(off, len) + rest, dst, last, dlen)
            == exec_tags(dict, rest, copy_extend(dict, dst, off, len), off, dlen),
{
    let s = copy1_enc(off, len) + rest;
    let b0 = (off / 256) * 32 + (len - 4) * 4 + 1;
    assert(s[0] == b0 as u8 && s[1] == (off % 256) as u8);
    assert(0 <= b0 < 256);
    assert(b0 % 4 == 1);
    assert(b0 / 32 == off / 256 && (b0 / 4) % 8 == len - 4);
    assert((off / 256) * 256 + off % 256 == off);
    assert(crate::tags::copy1_parse(s, last) == Some((off, len, 2int)));
    assert(s.skip(2) =~= rest);
    assert(crate::tags::s0_tag(s) == 1);
    assert(exec_tags(dict, s, dst, last, dlen)
        == copy_step(dict, s, dst, dlen, off, len, 2));
    assert(copy_step(dict, s, dst, dlen, off, len, 2)
        == exec_tags(dict, s.skip(2), copy_extend(dict, dst, off, len), off, dlen));
}

/// A Copy2 tag extends the output by `len` bytes at `off` and makes `off`
/// the repeat offset.
proof fn lemma_exec_copy2(
    dict: Seq<u8>,
    off: int,
    len: int,
    rest: Seq<u8>,
    dst: Seq<u8>,
    last: int,
    dlen: int,
)
    requires
        1 <= off < 65536,
        1 <= len <= 64,
        off <= dst.len() + dict.len(),
        dst.len() + len <= dlen,
    ensures
        exec_tags(dict, copy2_enc(off, len) + rest, dst, last, dlen)
            == exec_tags(dict, rest, copy_extend(dict, dst, off, len), off, dlen),
{
    let s = copy2_enc(off, len) + rest;
    let b0 = (len - 1) * 4 + 2;
    assert(s[0] == b0 as u8 && s[1] == (off % 256) as u8 && s[2] == (off / 256) as u8);
    assert(0 <= b0 < 256);
    assert(b0 % 4 == 2 && b0 / 4 == len - 1);
    assert(le16(s[1], s[2]) == off);
    assert(s.skip(3) =~= rest);
    assert(crate::tags::s0_tag(s) == 2);
    assert(exec_tags(dict, s, dst, last, dlen)
        == copy_step(dict, s, dst, dlen, le16(s[1], s[2]), s[0] / 4 + 1, 3));
    assert(copy_step(dict, s, dst, dlen, off, len, 3)
        == exec_tags(dict, s.skip(3), copy_extend(dict, dst, off, len), off, dlen));
}

/// A Copy4 tag extends the output by `len` bytes at `off` and makes `off`
/// the repeat offset.
proof fn lemma_exec_copy4(
    dict: Seq<u8>,
    off: int,
    len: int,
    rest: Seq<u8>,
    dst: Seq<u8>,
    last: int,
    dlen: int,
)
    requires
        1 <= off < 0x100000000,
        1 <= len <= 64,
        off <= dst.len() + dict.len(),
        dst.len() + len <= dlen,
    ensures
        exec_tags(dict, copy4_enc(off, len) + rest, dst, last, dlen)
            == exec_tags(dict, rest, copy_extend(dict, dst, off, len), off, dlen),
{
    let s = copy4_enc(off, len) + rest;
    let b0 = (len - 1) * 4 + 3;
    assert(s[0] == b0 as u8 && s[1] == (off % 256) as u8 && s[2] == ((off / 256) % 256) as u8
        && s[3] == ((off / 65536) % 256) as u8 && s[4] == (off / 16777216) as u8);
    assert(0 <= b0 < 256);
    assert(b0 % 4 == 3 && b0 / 4 == len - 1);
    assert(le32(s[1], s[2], s[3], s[4]) == off);
    assert(s.skip(5) =~= rest);
    assert(crate::tags::s0_tag(s) == 3);
    assert(exec_tags(dict, s, dst, last, dlen)
        == copy_step(dict, s, dst, dlen, le32(s[1], s[2], s[3], s[4]), s[0] / 4 + 1, 5));
    assert(copy_step(dict, s, dst, dlen, off, len, 5)
        == exec_tags(dict, s.skip(5), copy_extend(dict, dst, off, len), off, dlen));
}

/// A repeat sequence extends the output by `len` bytes at the current
/// repeat offset, which it leaves in place.
#[verifier::rlimit(100)]
pub proof fn lemma_exec_rep(
    dict: Seq<u8>,
    off: int,
    len: int,
    rest: Seq<u8>,
    dst: Seq<u8>,
    dlen: int,
)
    requires
        1 <= off <= dst.len() + dict.len(),
        4 <= len,
        dst.len() + len <= dlen,
    ensures
        exec_tags(dict, rep_enc(off, len) + rest, dst, off, dlen)
            == exec_tags(dict, rest, copy_extend(dict, dst, off, len), off, dlen),
    decreases len,
{
    let s = rep_enc(off, len) + rest;
    let l = len - 4;
    if l <= 4 {
        let b0 = l * 4 + 1;
        assert(s[0] == b0 as u8 && s[1] == 0u8);
        assert(0 <= b0 < 32);
        assert(b0 % 4 == 1 && b0 / 32 == 0 && (b0 / 4) % 8 == l);
        assert(crate::tags::copy1_parse(s, off) == Some((off, len, 2int)));
        assert(s.skip(2) =~= rest);
        assert(crate::tags::s0_tag(s) == 1);
        assert(exec_tags(dict, s, dst, off, dlen) == copy_step(dict, s, dst, dlen, off, len, 2));
        assert(copy_step(dict, s, dst, dlen, off, len, 2)
            == exec_tags(dict, s.skip(2), copy_extend(dict, dst, off, len), off, dlen));
    } else if l < 8 && off < 2048 {
        lemma_exec_copy1(dict, off, len, rest, dst, off, dlen);
    } else if l < 260 {
        assert(s[0] == 0x15u8 && s[1] == 0u8 && s[2] == (l - 4) as u8);
        assert(crate::tags::copy1_parse(s, off) == Some((off, (l - 4) + 8, 3int)));
        assert(s.skip(3) =~= rest);
        assert(crate::tags::s0_tag(s) == 1);
        assert(exec_tags(dict, s, dst, off, dlen) == copy_step(dict, s, dst, dlen, off, len, 3));
        assert(copy_step(dict, s, dst, dlen, off, len, 3)
            == exec_tags(dict, s.skip(3), copy_extend(dict, dst, off, len), off, dlen));
    } else if l < 65792 {
        assert(s[0] == 0x19u8 && s[1] == 0u8 && s[2] == ((l - 256) % 256) as u8
            && s[3] == ((l - 256) / 256) as u8);
        assert(le16(s[2], s[3]) == l - 256);
        assert(crate::tags::copy1_parse(s, off) == Some((off, (l - 256) + 260, 4int)));
        assert(s.skip(4) =~= rest);
        assert(crate::tags::s0_tag(s) == 1);
        assert(exec_tags(dict, s, dst, off, dlen) == copy_step(dict, s, dst, dlen, off, len, 4));
        assert(copy_step(dict, s, dst, dlen, off, len, 4)
            == exec_tags(dict, s.skip(4), copy_extend(dict, dst, off, len), off, dlen));
    } else {
        let l2 = l - 65536;
        if l2 <= 0xffffff {
            assert(s[0] == 0x1du8 && s[1] == 0u8 && s[2] == (l2 % 256) as u8
                && s[3] == ((l2 / 256) % 256) as u8 && s[4] == (l2 / 65536) as u8);
            assert(le24(s[2], s[3], s[4]) == l2);
            assert(crate::tags::copy1_parse(s, off) == Some((off, l2 + 65540, 5int)));
            assert(s.skip(5) =~= rest);
            assert(crate::tags::s0_tag(s) == 1);
            assert(exec_tags(dict, s, dst, off, dlen)
                == copy_step(dict, s, dst, dlen, off, len, 5));
            assert(copy_step(dict, s, dst, dlen, off, len, 5)
                == exec_tags(dict, s.skip(5), copy_extend(dict, dst, off, len), off, dlen));
        } else if l2 - 0xffffff >= 4 {
            let len1: int = 0xffffffint + 65540;
            let len2 = l2 - 0xffffff;
            let tail = rep_enc(off, len2) + rest;
            assert(s =~= seq![0x1du8, 0u8, 0xffu8, 0xffu8, 0xffu8] + tail);
            assert(s[0] == 0x1du8 && s[1] == 0u8 && s[2] == 0xffu8 && s[3] == 0xffu8
                && s[4] == 0xffu8);
            assert(le24(s[2], s[3], s[4]) == 0xffffff);
            assert(crate::tags::copy1_parse(s, off) == Some((off, len1, 5int)));
            assert(s.skip(5) =~= tail);
            let dst1 = copy_extend(dict, dst, off, len1);
            crate::decode::lemma_copy_extend_len(dict, dst, off, len1);
            assert(crate::tags::s0_tag(s) == 1);
            assert(exec_tags(dict, s, dst, off, dlen)
                == copy_step(dict, s, dst, dlen, off, len1, 5));
            assert(copy_step(dict, s, dst, dlen, off, len1, 5)
                == exec_tags(dict, s.skip(5), dst1, off, dlen));
            lemma_exec_rep(dict, off, len2, rest, dst1, dlen);
            lemma_copy_extend_add(dict, dst, off, len1, len2);
        } else {
            let len1 = (l2 - 4) + 65540;
            let tail = rep_enc(off, 4) + rest;
            assert(s =~= seq![
                0x1du8,
                0u8,
                ((l2 - 4) % 256) as u8,
                (((l2 - 4) / 256) % 256) as u8,
                ((l2 - 4) / 65536) as u8,
            ] + tail);
            assert(le24(s[2], s[3], s[4]) == l2 - 4);
            assert(crate::tags::copy1_parse(s, off) == Some((off, len1, 5int)));
            assert(s.skip(5) =~= tail);
            let dst1 = copy_extend(dict, dst, off, len1);
            crate::decode::lemma_copy_extend_len(dict, dst, off, len1);
            assert(crate::tags::s0_tag(s) == 1);
            assert(exec_tags(dict, s, dst, off, dlen)
                == copy_step(dict, s, dst, dlen, off, len1, 5));
            assert(copy_step(dict, s, dst, dlen, off, len1, 5)
                == exec_tags(dict, s.skip(5), dst1, off, dlen));
            lemma_exec_rep(dict, off, 4, rest, dst1, dlen);
            lemma_copy_extend_add(dict, dst, off, len1, 4);
        }
    }
}

/// A repeat-aware copy sequence extends the output by `len` bytes at `off`
/// and makes `off` the repeat offset.
pub proof fn lemma_exec_copy(
    dict: Seq<u8>,
    off: int,
    len: int,
    rest: Seq<u8>,
    dst: Seq<u8>,
    last: int,
    dlen: int,
)
    requires
        1 <= off <= dst.len() + dict.len(),
        off < 0x100000000,
        4 <= len,
        dst.len() + len <= dlen,
    ensures
        exec_tags(dict, copy_enc(off, len) + rest, dst, last, dlen)
            == exec_tags(dict, rest, copy_extend(dict, dst, off, len), off, dlen),
    decreases len,
{
    if off >= 65536 {
        if len > 64 {
            let dst1 = copy_extend(dict, dst, off, 64);
            crate::decode::lemma_copy_extend_len(dict, dst, off, 64);
            lemma_copy_extend_add(dict, dst, off, 64, len - 64);
            if len - 64 >= 4 {
                let tail = rep_enc(off, len - 64) + rest;
                assert(copy_enc(off, len) + rest =~= copy4_enc(off, 64) + tail);
                lemma_exec_copy4(dict, off, 64, tail, dst, last, dlen);
                lemma_exec_rep(dict, off, len - 64, rest, dst1, dlen);
            } else if len - 64 == 0 {
                lemma_exec_copy4(dict, off, 64, rest, dst, last, dlen);
                assert(copy_extend(dict, dst, off, len) == dst1);
            } else {
                let tail = copy4_enc(off, len - 64) + rest;
                assert(copy_enc(off, len) + rest =~= copy4_enc(off, 64) + tail);
                lemma_exec_copy4(dict, off, 64, tail, dst, last, dlen);
                lemma_exec_copy4(dict, off, len - 64, rest, dst1, off, dlen);
            }
        } else {
            lemma_exec_copy4(dict, off, len, rest, dst, last, dlen);
        }
    } else if len > 64 {
        if off < 2048 {
            let tail = rep_enc(off, len - 8) + rest;
            assert(copy_enc(off, len) + rest =~= copy1_enc(off, 8) + tail);
            let dst1 = copy_extend(dict, dst, off, 8);
            crate::decode::lemma_copy_extend_len(dict, dst, off, 8);
            lemma_exec_copy1(dict, off, 8, tail, dst, last, dlen);
            lemma_exec_rep(dict, off, len - 8, rest, dst1, dlen);
            lemma_copy_extend_add(dict, dst, off, 8, len - 8);
        } else {
            let tail = rep_enc(off, len - 60) + rest;
            assert(copy_enc(off, len) + rest =~= copy2_enc(off, 60) + tail);
            let dst1 = copy_extend(dict, dst, off, 60);
            crate::decode::lemma_copy_extend_len(dict, dst, off, 60);
            lemma_exec_copy2(dict, off, 60, tail, dst, last, dlen);
            lemma_exec_rep(dict, off, len - 60, rest, dst1, dlen);
            lemma_copy_extend_add(dict, dst, off, 60, len - 60);
        }
    } else if len >= 12 || off >= 2048 {
        lemma_exec_copy2(dict, off, len, rest, dst, last, dlen);
    } else {
        lemma_exec_copy1(dict, off, len, rest, dst, last, dlen);
    }
}

/// A repeat-free copy sequence extends the output by `len` bytes at `off`
/// and makes `off` the repeat offset.
pub proof fn lemma_exec_copy_nr(
    dict: Seq<u8>,
    off: int,
    len: int,
    rest: Seq<u8>,
    dst: Seq<u8>,
    last: int,
    dlen: int,
)
    requires
        1 <= off <= dst.len() + dict.len(),
        off < 0x100000000,
        4 <= len,
        dst.len() + len <= dlen,
    ensures
        exec_tags(dict, copy_nr_enc(off, len) + rest, dst, last, dlen)
            == exec_tags(dict, rest, copy_extend(dict, dst, off, len), off, dlen),
    decreases len,
{
    if off >= 65536 {
        if len > 64 {
            let dst1 = copy_extend(dict, dst, off, 64);
            crate::decode::lemma_copy_extend_len(dict, dst, off, 64);
            lemma_copy_extend_add(dict, dst, off, 64, len - 64);
            if len - 64 >= 4 {
                let tail = copy_nr_enc(off, len - 64) + rest;
                assert(copy_nr_enc(off, len) + rest =~= copy4_enc(off, 64) + tail);
                lemma_exec_copy4(dict, off, 64, tail, dst, last, dlen);
                lemma_exec_copy_nr(dict, off, len - 64, rest, dst1, off, dlen);
            } else if len - 64 == 0 {
                lemma_exec_copy4(dict, off, 64, rest, dst, last, dlen);
                assert(copy_extend(dict, dst, off, len) == dst1);
            } else {
                let tail = copy4_enc(off, len - 64) + rest;
                assert(copy_nr_enc(off, len) + rest =~= copy4_enc(off, 64) + tail);
                lemma_exec_copy4(dict, off, 64, tail, dst, last, dlen);
                lemma_exec_copy4(dict, off, len - 64, rest, dst1, off, dlen);
            }
        } else {
            lemma_exec_copy4(dict, off, len, rest, dst, last, dlen);
        }
    } else if len > 64 {
        let tail = copy_nr_enc(off, len - 60) + rest;
        assert(copy_nr_enc(off, len) + rest =~= copy2_enc(off, 60) + tail);
        let dst1 = copy_extend(dict, dst, off, 60);
        crate::decode::lemma_copy_extend_len(dict, dst, off, 60);
        lemma_exec_copy2(dict, off, 60, tail, dst, last, dlen);
        lemma_exec_copy_nr(dict, off, len - 60, rest, dst1, off, dlen);
        lemma_copy_extend_add(dict, dst, off, 60, len - 60);
    } else if len >= 12 || off >= 2048 {
        lemma_exec_copy2(dict, off, len, rest, dst, last, dlen);
    } else {
        lemma_exec_copy1(dict, off, len, rest, dst, last, dlen);
    }
}

// ------------------------------------------------------------------
// Size bounds on the encodings.
// ------------------------------------------------------------------

/// A repeat encoding never takes more bytes than it represents.
pub proof fn lemma_rep_enc_len(off: int, len: int)
    requires
        4 <= len,
    ensures
        2 <= rep_enc(off, len).len() <= len,
    decreases len,
{
    let l = len - 4;
    if l >= 65792 - 4 + 65536 {
    }
    if l >= 65536 {
        let l2 = l - 65536;
        if l2 > 0xffffff {
            if l2 - 0xffffff >= 4 {
                lemma_rep_enc_len(off, l2 - 0xffffff);
            } else {
                lemma_rep_enc_len(off, 4);
            }
        }
    }
}

/// A repeat-aware copy encoding takes at most one byte more than the
/// match it represents.
pub proof fn lemma_copy_enc_len(off: int, len: int)
    requires
        4 <= len,
    ensures
        2 <= copy_enc(off, len).len() <= len + 1,
{
    if off >= 65536 {
        if len > 64 {
            if len - 64 >= 4 {
                lemma_rep_enc_len(off, len - 64);
            }
        }
    } else if len > 64 {
        if off < 2048 {
            lemma_rep_enc_len(off, len - 8);
        } else {
            lemma_rep_enc_len(off, len - 60);
        }
    }
}

/// A repeat-free copy encoding takes at most one byte more than the
/// match it represents.
pub proof fn lemma_copy_nr_enc_len(off: int, len: int)
    requires
        4 <= len,
    ensures
        2 <= copy_nr_enc(off, len).len() <= len + 1,
    decreases len,
{
    if off >= 65536 {
        if len > 64 && len - 64 >= 4 {
            lemma_copy_nr_enc_len(off, len - 64);
        }
    } else if len > 64 {
        lemma_copy_nr_enc_len(off, len - 60);
    }
}

// ------------------------------------------------------------------
// The emitters themselves.
// ------------------------------------------------------------------

/// Append the literal tag for `lit`: smallest header, then the bytes.
/// Returns the number of bytes written.
pub fn emit_literal(dst: &mut Vec<u8>, lit: &[u8]) -> (n: usize)
    requires
        1 <= lit@.len() < 0x100000000,
        old(dst)@.len() + lit@.len() + 5 <= usize::MAX,
    ensures
        final(dst)@ == old(dst)@ + lit_enc(lit@),
        n == lit_enc(lit@).len(),
        lit@.len() + 1 <= n <= lit@.len() + 5,
{
    let start = dst.len();
    let len = lit.len();
    let m = len - 1;
    if m <= 59 {
        dst.push((4 * m) as u8);
    } else if m < 256 {
        dst.push(0xf0);
        dst.push(m as u8);
    } else if m < 65536 {
        dst.push(0xf4);
        dst.push((m % 256) as u8);
        dst.push((m / 256) as u8);
    } else if m < 16777216 {
        dst.push(0xf8);
        dst.push((m % 256) as u8);
        dst.push(((m / 256) % 256) as u8);
        dst.push((m / 65536) as u8);
    } else {
        dst.push(0xfc);
        dst.push((m % 256) as u8);
        dst.push(((m / 256) % 256) as u8);
        dst.push(((m / 65536) % 256) as u8);
        dst.push((m / 16777216) as u8);
    }
    assert(dst@ =~= old(dst)@ + lit_hdr_enc(lit@.len() as int));
    crate::decode::push_range(dst, lit, 0, len);
    proof {
        assert(lit@.subrange(0, len as int) =~= lit@);
        assert(dst@ =~= old(dst)@ + lit_enc(lit@));
    }
    dst.len() - start
}

/// Append a single two-byte Copy1 tag.
fn emit_copy1(dst: &mut Vec<u8>, offset: usize, length: usize) -> (n: usize)
    requires
        1 <= offset < 2048,
        4 <= length <= 11,
        old(dst)@.len() + 2 <= usize::MAX,
    ensures
        final(dst)@ == old(dst)@ + copy1_enc(offset as int, length as int),
        n == 2,
{
    dst.push(((offset / 256) * 32 + (length - 4) * 4 + 1) as u8);
    dst.push((offset % 256) as u8);
    proof {
        assert(dst@ =~= old(dst)@ + copy1_enc(offset as int, length as int));
    }
    2
}

/// Append a single three-byte Copy2 tag.
fn emit_copy2(dst: &mut Vec<u8>, offset: usize, length: usize) -> (n: usize)
    requires
        1 <= offset < 65536,
        1 <= length <= 64,
        old(dst)@.len() + 3 <= usize::MAX,
    ensures
        final(dst)@ == old(dst)@ + copy2_enc(offset as int, length as int),
        n == 3,
{
    dst.push(((length - 1) * 4 + 2) as u8);
    dst.push((offset % 256) as u8);
    dst.push((offset / 256) as u8);
    proof {
        assert(dst@ =~= old(dst)@ + copy2_enc(offset as int, length as int));
    }
    3
}

/// Append a single five-byte Copy4 tag.
fn copy4_tag(dst: &mut Vec<u8>, offset: usize, length: usize) -> (n: usize)
    requires
        1 <= offset < 0x100000000,
        1 <= length <= 64,
        old(dst)@.len() + 5 <= usize::MAX,
    ensures
        final(dst)@ == old(dst)@ + copy4_enc(offset as int, length as int),
        n == 5,
{
    dst.push(((length - 1) * 4 + 3) as u8);
    dst.push((offset % 256) as u8);
    dst.push(((offset / 256) % 256) as u8);
    dst.push(((offset / 65536) % 256) as u8);
    dst.push((offset / 16777216) as u8);
    proof {
        assert(dst@ =~= old(dst)@ + copy4_enc(offset as int, length as int));
    }
    5
}

/// Append a repeat of the last offset covering `length` bytes, choosing
/// the shortest encoding and chaining for very long repeats.
pub fn emit_repeat(dst: &mut Vec<u8>, offset: usize, length: usize) -> (n: usize)
    requires
        1 <= offset < 0x100000000,
        4 <= length < 0x100000000,
        old(dst)@.len() + length <= usize::MAX,
    ensures
        final(dst)@ == old(dst)@ + rep_enc(offset as int, length as int),
        n == rep_enc(offset as int, length as int).len(),
        2 <= n <= length,
    decreases length,
{
    proof {
        lemma_rep_enc_len(offset as int, length as int);
    }
    let start = dst.len();
    let l = length - 4;
    if l <= 4 {
        dst.push((l * 4 + 1) as u8);
        dst.push(0);
        proof {
            assert(dst@ =~= old(dst)@ + rep_enc(offset as int, length as int));
        }
        dst.len() - start
    } else if l < 8 && offset < 2048 {
        dst.push(((offset / 256) * 32 + l * 4 + 1) as u8);
        dst.push((offset % 256) as u8);
        proof {
            assert(dst@ =~= old(dst)@ + rep_enc(offset as int, length as int));
        }
        dst.len() - start
    } else if l < 260 {
        dst.push(0x15);
        dst.push(0);
        dst.push((l - 4) as u8);
        proof {
            assert(dst@ =~= old(dst)@ + rep_enc(offset as int, length as int));
        }
        dst.len() - start
    } else if l < 65792 {
        dst.push(0x19);
        dst.push(0);
        dst.push(((l - 256) % 256) as u8);
        dst.push(((l - 256) / 256) as u8);
        proof {
            assert(dst@ =~= old(dst)@ + rep_enc(offset as int, length as int));
        }
        dst.len() - start
    } else {
        let l2 = l - 65536;
        if l2 <= 0xffffff {
            dst.push(0x1d);
            dst.push(0);
            dst.push((l2 % 256) as u8);
            dst.push(((l2 / 256) % 256) as u8);
            dst.push((l2 / 65536) as u8);
            proof {
                assert(dst@ =~= old(dst)@ + rep_enc(offset as int, length as int));
            }
            dst.len() - start
        } else if l2 - 0xffffff >= 4 {
            dst.push(0x1d);
            dst.push(0);
            dst.push(0xff);
            dst.push(0xff);
            dst.push(0xff);
            let ghost mid = dst@;
            assert(mid =~= old(dst)@ + seq![0x1du8, 0u8, 0xffu8, 0xffu8, 0xffu8]);
            emit_repeat(dst, offset, l2 - 0xffffff);
            proof {
                assert(dst@ =~= old(dst)@ + rep_enc(offset as int, length as int));
            }
            dst.len() - start
        } else {
            dst.push(0x1d);
            dst.push(0);
            dst.push(((l2 - 4) % 256) as u8);
            dst.push((((l2 - 4) / 256) % 256) as u8);
            dst.push(((l2 - 4) / 65536) as u8);
            let ghost mid = dst@;
            assert(mid =~= old(dst)@ + seq![
                0x1du8,
                0u8,
                ((l2 - 4) % 256) as u8,
                (((l2 - 4) / 256) % 256) as u8,
                ((l2 - 4) / 65536) as u8,
            ]);
            emit_repeat(dst, offset, 4);
            proof {
                assert(dst@ =~= old(dst)@ + rep_enc(offset as int, length as int));
            }
            dst.len() - start
        }
    }
}

/// Append a copy, picking Copy1/Copy2/Copy4 by offset and length; long
/// matches become one copy tag and then repeats of the same offset.
pub fn emit_copy(dst: &mut Vec<u8>, offset: usize, length: usize) -> (n: usize)
    requires
        1 <= offset < 0x100000000,
        4 <= length < 0x100000000,
        old(dst)@.len() + length + 1 <= usize::MAX,
    ensures
        final(dst)@ == old(dst)@ + copy_enc(offset as int, length as int),
        n == copy_enc(offset as int, length as int).len(),
        2 <= n <= length + 1,
{
    proof {
        lemma_copy_enc_len(offset as int, length as int);
    }
    let start = dst.len();
    if offset >= 65536 {
        if length > 64 {
            copy4_tag(dst, offset, 64);
            let rem = length - 64;
            if rem >= 4 {
                emit_repeat(dst, offset, rem);
                proof {
                    assert(dst@ =~= old(dst)@ + copy_enc(offset as int, length as int));
                }
            } else {
                copy4_tag(dst, offset, rem);
                proof {
                    assert(dst@ =~= old(dst)@ + copy_enc(offset as int, length as int));
                }
            }
        } else {
            copy4_tag(dst, offset, length);
        }
    } else if length > 64 {
        if offset < 2048 {
            emit_copy1(dst, offset, 8);
            emit_repeat(dst, offset, length - 8);
            proof {
                assert(dst@ =~= old(dst)@ + copy_enc(offset as int, length as int));
            }
        } else {
            emit_copy2(dst, offset, 60);
            emit_repeat(dst, offset, length - 60);
            proof {
                assert(dst@ =~= old(dst)@ + copy_enc(offset as int, length as int));
            }
        }
    } else if length >= 12 || offset >= 2048 {
        emit_copy2(dst, offset, length);
    } else {
        emit_copy1(dst, offset, length);
    }
    dst.len() - start
}

/// The chaining step of the repeat-free encoding: for offsets of 64KiB and
/// up, each 64-byte chunk is its own Copy4 tag.
proof fn lemma_copy_nr_unfold_far(off: int, len: int)
    requires
        off >= 65536,
        len > 64,
    ensures
        copy_nr_enc(off, len) == copy4_enc(off, 64) + copy_nr_enc(off, len - 64),
{
    if len - 64 >= 4 {
    } else {
        assert(copy_nr_enc(off, len - 64) == copy4_enc(off, len - 64));
    }
}

/// Append a copy without repeat tags, Snappy style: long matches become a
/// chain of plain copy tags.
pub fn emit_copy_no_repeat(dst: &mut Vec<u8>, offset: usize, length: usize) -> (n: usize)
    requires
        1 <= offset < 0x100000000,
        4 <= length < 0x100000000,
        old(dst)@.len() + length + 1 <= usize::MAX,
    ensures
        final(dst)@ == old(dst)@ + copy_nr_enc(offset as int, length as int),
        n == copy_nr_enc(offset as int, length as int).len(),
        2 <= n <= length + 1,
{
    proof {
        lemma_copy_nr_enc_len(offset as int, length as int);
    }
    let ghost total_len = length as int;
    let start = dst.len();
    let mut length = length;
    if offset >= 65536 {
        while length > 64
            invariant
                65536 <= offset < 0x100000000,
                1 <= length < 0x100000000,
                old(dst)@ + copy_nr_enc(offset as int, total_len)
                    =~= dst@ + copy_nr_enc(offset as int, length as int),
                dst@.len() + copy_nr_enc(offset as int, length as int).len()
                    == old(dst)@.len() + copy_nr_enc(offset as int, total_len).len(),
                copy_nr_enc(offset as int, total_len).len() <= total_len + 1,
                old(dst)@.len() + total_len + 1 <= usize::MAX,
            decreases length,
        {
            let ghost pre = dst@;
            let ghost len0 = length as int;
            proof {
                lemma_copy_nr_unfold_far(offset as int, len0);
                lemma_copy_nr_enc_len(offset as int, len0);
            }
            copy4_tag(dst, offset, 64);
            length = length - 64;
            proof {
                assert(pre + copy_nr_enc(offset as int, len0)
                    =~= dst@ + copy_nr_enc(offset as int, length as int));
            }
        }
        copy4_tag(dst, offset, length);
        proof {
            assert(dst@ =~= old(dst)@ + copy_nr_enc(offset as int, total_len));
        }
        dst.len() - start
    } else {
        while length > 64
            invariant
                1 <= offset < 65536,
                4 <= length < 0x100000000,
                old(dst)@ + copy_nr_enc(offset as int, total_len)
                    =~= dst@ + copy_nr_enc(offset as int, length as int),
                dst@.len() + copy_nr_enc(offset as int, length as int).len()
                    == old(dst)@.len() + copy_nr_enc(offset as int, total_len).len(),
                copy_nr_enc(offset as int, total_len).len() <= total_len + 1,
                old(dst)@.len() + total_len + 1 <= usize::MAX,
            decreases length,
        {
            let ghost pre = dst@;
            let ghost len0 = length as int;
            proof {
                lemma_copy_nr_enc_len(offset as int, len0);
            }
            emit_copy2(dst, offset, 60);
            length = length - 60;
            proof {
                assert(pre + copy_nr_enc(offset as int, len0)
                    =~= dst@ + copy_nr_enc(offset as int, length as int));
            }
        }
        if length >= 12 || offset >= 2048 {
            emit_copy2(dst, offset, length);
            proof {
                assert(dst@ =~= old(dst)@ + copy_nr_enc(offset as int, total_len));
            }
            dst.len() - start
        } else {
            emit_copy1(dst, offset, length);
            proof {
                assert(dst@ =~= old(dst)@ + copy_nr_enc(offset as int, total_len));
            }
            dst.len() - start
        }
    }
}

} // verus!
