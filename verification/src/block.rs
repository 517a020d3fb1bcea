//! The invariant every block encoder maintains: the tag bytes written so
//! far decode, from an empty output, to exactly the source prefix handled
//! so far — whatever tags may still follow.

use vstd::prelude::*;

use crate::emit::copy_enc;
use crate::emit::copy_nr_enc;
use crate::emit::lit_enc;
use crate::emit::rep_enc;
use crate::tags::copy_extend;
use crate::tags::exec_tags;
use crate::tags::ext_at;

verus! {

/// The tag bytes `blob`, placed before any continuation, turn an empty
/// output into `out` with repeat offset `last`, under total size `n`.
pub open spec fn decodes_to(
    dict: Seq<u8>,
    blob: Seq<u8>,
    out: Seq<u8>,
    last: int,
    n: int,
) -> bool {
    forall|rest: Seq<u8>|
        #[trigger] exec_tags(dict, blob + rest, Seq::<u8>::empty(), 0, n)
            == exec_tags(dict, rest, out, last, n)
}

/// No tags decode to nothing.
pub proof fn lemma_decodes_empty(dict: Seq<u8>, n: int)
    ensures
        decodes_to(dict, Seq::<u8>::empty(), Seq::<u8>::empty(), 0, n),
{
    assert forall|rest: Seq<u8>|
        #[trigger] exec_tags(dict, Seq::<u8>::empty() + rest, Seq::<u8>::empty(), 0, n)
            == exec_tags(dict, rest, Seq::<u8>::empty(), 0, n) by {
        assert(Seq::<u8>::empty() + rest =~= rest);
    }
}

/// Appending a literal tag appends its bytes to the decoded output.
pub proof fn lemma_decodes_lit(
    dict: Seq<u8>,
    blob: Seq<u8>,
    out: Seq<u8>,
    last: int,
    n: int,
    lit: Seq<u8>,
)
    requires
        decodes_to(dict, blob, out, last, n),
        1 <= lit.len() < 0x100000000,
        out.len() + lit.len() <= n,
    ensures
        decodes_to(dict, blob + lit_enc(lit), out + lit, last, n),
{
    assert forall|rest: Seq<u8>|
        #[trigger] exec_tags(dict, (blob + lit_enc(lit)) + rest, Seq::<u8>::empty(), 0, n)
            == exec_tags(dict, rest, out + lit, last, n) by {
        assert((blob + lit_enc(lit)) + rest =~= blob + (lit_enc(lit) + rest));
        assert(exec_tags(dict, blob + (lit_enc(lit) + rest), Seq::<u8>::empty(), 0, n)
            == exec_tags(dict, lit_enc(lit) + rest, out, last, n));
        crate::emit::lemma_exec_lit(dict, lit, rest, out, last, n);
    }
}

/// Appending a copy sequence extends the decoded output by `len` bytes at
/// `off` and makes `off` the repeat offset.
pub proof fn lemma_decodes_copy(
    dict: Seq<u8>,
    blob: Seq<u8>,
    out: Seq<u8>,
    last: int,
    n: int,
    off: int,
    len: int,
)
    requires
        decodes_to(dict, blob, out, last, n),
        1 <= off <= out.len() + dict.len(),
        off < 0x100000000,
        4 <= len,
        out.len() + len <= n,
    ensures
        decodes_to(dict, blob + copy_enc(off, len), copy_extend(dict, out, off, len), off, n),
{
    assert forall|rest: Seq<u8>|
        #[trigger] exec_tags(dict, (blob + copy_enc(off, len)) + rest, Seq::<u8>::empty(), 0, n)
            == exec_tags(dict, rest, copy_extend(dict, out, off, len), off, n) by {
        assert((blob + copy_enc(off, len)) + rest =~= blob + (copy_enc(off, len) + rest));
        assert(exec_tags(dict, blob + (copy_enc(off, len) + rest), Seq::<u8>::empty(), 0, n)
            == exec_tags(dict, copy_enc(off, len) + rest, out, last, n));
        crate::emit::lemma_exec_copy(dict, off, len, rest, out, last, n);
    }
}

/// Appending a repeat-free copy sequence does the same.
pub proof fn lemma_decodes_copy_nr(
    dict: Seq<u8>,
    blob: Seq<u8>,
    out: Seq<u8>,
    last: int,
    n: int,
    off: int,
    len: int,
)
    requires
        decodes_to(dict, blob, out, last, n),
        1 <= off <= out.len() + dict.len(),
        off < 0x100000000,
        4 <= len,
        out.len() + len <= n,
    ensures
        decodes_to(dict, blob + copy_nr_enc(off, len), copy_extend(dict, out, off, len), off, n),
{
    assert forall|rest: Seq<u8>|
        #[trigger] exec_tags(dict, (blob + copy_nr_enc(off, len)) + rest, Seq::<u8>::empty(), 0, n)
            == exec_tags(dict, rest, copy_extend(dict, out, off, len), off, n) by {
        assert((blob + copy_nr_enc(off, len)) + rest =~= blob + (copy_nr_enc(off, len) + rest));
        assert(exec_tags(dict, blob + (copy_nr_enc(off, len) + rest), Seq::<u8>::empty(), 0, n)
            == exec_tags(dict, copy_nr_enc(off, len) + rest, out, last, n));
        crate::emit::lemma_exec_copy_nr(dict, off, len, rest, out, last, n);
    }
}

/// Appending a repeat sequence, when the repeat offset is already `off`.
pub proof fn lemma_decodes_rep(
    dict: Seq<u8>,
    blob: Seq<u8>,
    out: Seq<u8>,
    n: int,
    off: int,
    len: int,
)
    requires
        decodes_to(dict, blob, out, off, n),
        1 <= off <= out.len() + dict.len(),
        4 <= len,
        out.len() + len <= n,
    ensures
        decodes_to(dict, blob + rep_enc(off, len), copy_extend(dict, out, off, len), off, n),
{
    assert forall|rest: Seq<u8>|
        #[trigger] exec_tags(dict, (blob + rep_enc(off, len)) + rest, Seq::<u8>::empty(), 0, n)
            == exec_tags(dict, rest, copy_extend(dict, out, off, len), off, n) by {
        assert((blob + rep_enc(off, len)) + rest =~= blob + (rep_enc(off, len) + rest));
        assert(exec_tags(dict, blob + (rep_enc(off, len) + rest), Seq::<u8>::empty(), 0, n)
            == exec_tags(dict, rep_enc(off, len) + rest, out, off, n));
        crate::emit::lemma_exec_rep(dict, off, len, rest, out, n);
    }
}

/// When the whole source has been covered, the tag bytes decode to it.
pub proof fn lemma_decodes_complete(
    dict: Seq<u8>,
    blob: Seq<u8>,
    out: Seq<u8>,
    last: int,
    n: int,
)
    requires
        decodes_to(dict, blob, out, last, n),
        out.len() == n,
    ensures
        exec_tags(dict, blob, Seq::<u8>::empty(), 0, n) == Some((out, last)),
{
    assert(blob + Seq::<u8>::empty() =~= blob);
    assert(exec_tags(dict, blob + Seq::<u8>::empty(), Seq::<u8>::empty(), 0, n)
        == exec_tags(dict, Seq::<u8>::empty(), out, last, n));
}

/// A copy whose source bytes repeat the bytes at its destination extends
/// the decoded prefix of `src` by exactly `len` more source bytes. The
/// match property speaks of the virtual buffer `dict + src`.
pub proof fn lemma_copy_extend_matches(
    dict: Seq<u8>,
    src: Seq<u8>,
    base: int,
    off: int,
    len: int,
)
    requires
        0 <= base,
        base + len <= src.len(),
        1 <= off <= base + dict.len(),
        0 <= len,
        forall|j: int|
            dict.len() + base <= j < dict.len() + base + len ==> #[trigger] (dict + src)[j]
                == (dict + src)[j - off],
    ensures
        copy_extend(dict, src.take(base), off, len) == src.take(base + len),
    decreases len,
{
    if len > 0 {
        let out = src.take(base);
        let b = ext_at(dict, out, off);
        // The byte the decoder reads is exactly the next source byte.
        assert((dict + src)[dict.len() + base - off] == (dict + src)[dict.len() + base]);
        if off <= base {
            assert(out[base - off] == src[base - off]);
            assert((dict + src)[dict.len() + base - off] == src[base - off]);
        } else {
            assert((dict + src)[dict.len() + base - off] == dict[dict.len() + base - off]);
        }
        assert((dict + src)[dict.len() + base] == src[base]);
        assert(b == src[base]);
        assert(out.push(b) =~= src.take(base + 1));
        assert(forall|j: int|
            dict.len() + (base + 1) <= j < dict.len() + (base + 1) + (len - 1)
                ==> #[trigger] (dict + src)[j] == (dict + src)[j - off]);
        lemma_copy_extend_matches(dict, src, base + 1, off, len - 1);
        assert(copy_extend(dict, out, off, len)
            == copy_extend(dict, out.push(b), off, len - 1));
    } else {
        assert(copy_extend(dict, src.take(base), off, 0) == src.take(base));
    }
}

} // verus!
