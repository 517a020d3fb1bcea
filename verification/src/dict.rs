//! Dictionary support: a pre-seeded byte window with an initial repeat
//! offset, serialized as a varint followed by the dictionary bytes.

use vstd::prelude::*;

use crate::varint::decode_varint;
use crate::varint::encode_varint;
use crate::varint::spec_parse_varint;
use crate::varint::varint_enc;

verus! {

/// Minimum dictionary size.
pub const MIN_DICT_SIZE: usize = 16;

/// Maximum dictionary size.
pub const MAX_DICT_SIZE: usize = 65536;

/// Maximum offset where a dictionary entry can start.
pub const MAX_DICT_SRC_OFFSET: usize = 65535;

/// Does `needle` occur in `haystack` at position `i`?
pub open spec fn occurs_at(haystack: Seq<u8>, needle: Seq<u8>, i: int) -> bool {
    &&& 0 <= i
    &&& i + needle.len() <= haystack.len()
    &&& haystack.subrange(i, i + needle.len()) == needle
}

/// A dictionary: up to 64KiB of bytes and a repeat offset into them.
///
/// Hash tables for the encoder tiers are initialized lazily; they carry no
/// meaning of their own and are rebuilt from the bytes on demand.
pub struct Dict {
    dict: Vec<u8>,
    repeat: usize,
    fast_table: Option<Vec<u16>>,
    better_table_short: Option<Vec<u16>>,
    better_table_long: Option<Vec<u16>>,
    best_table_short: Option<Vec<u32>>,
    best_table_long: Option<Vec<u32>>,
}

impl View for Dict {
    type V = Seq<u8>;

    closed spec fn view(&self) -> Seq<u8> {
        self.dict@
    }
}

impl Dict {
    /// The structural invariant: sized within bounds, repeat inside.
    pub open spec fn wf(&self) -> bool {
        &&& MIN_DICT_SIZE as int <= self@.len() <= MAX_DICT_SIZE as int
        &&& self.spec_repeat() <= self@.len()
    }

    /// The repeat offset as the contracts see it.
    pub closed spec fn spec_repeat(&self) -> int {
        self.repeat as int
    }

    /// Create a dictionary from serialized bytes: a varint repeat offset
    /// followed by the dictionary bytes. Returns `None` exactly when the
    /// varint is bad, the size is out of bounds, or the offset falls
    /// outside the bytes.
    pub fn new(data: &[u8]) -> (r: Option<Dict>)
        ensures
            match r {
                Some(d) => {
                    &&& d.wf()
                    &&& spec_parse_varint(data@) matches Some((v, n))
                        && d@ == data@.skip(n) && d.spec_repeat() == v
                },
                None => spec_parse_varint(data@) is None
                    || (spec_parse_varint(data@) matches Some((v, n))
                        && (data@.len() - n < MIN_DICT_SIZE as int
                            || data@.len() - n > MAX_DICT_SIZE as int
                            || v > data@.len() - n)),
            },
    {
        if data.len() == 0 {
            return None;
        }
        let (repeat, n) = match decode_varint(data) {
            Ok(p) => p,
            Err(_) => {
                return None;
            },
        };
        let dict_len = data.len() - n;
        if dict_len < MIN_DICT_SIZE || dict_len > MAX_DICT_SIZE {
            return None;
        }
        if repeat > dict_len as u64 {
            return None;
        }
        let mut dict: Vec<u8> = Vec::new();
        crate::decode::push_range(&mut dict, data, n, data.len());
        proof {
            assert(dict@ =~= data@.skip(n as int));
        }
        Some(
            Dict {
                dict,
                repeat: repeat as usize,
                fast_table: None,
                better_table_short: None,
                better_table_long: None,
                best_table_short: None,
                best_table_long: None,
            },
        )
    }

    /// Serialize: the varint repeat offset followed by the bytes.
    pub fn to_bytes(&self) -> (r: Vec<u8>)
        requires
            self.wf(),
        ensures
            r@ == varint_enc(self.spec_repeat() as u64) + self@,
    {
        let mut result: Vec<u8> = Vec::new();
        encode_varint(&mut result, self.repeat as u64);
        let mut i: usize = 0;
        while i < self.dict.len()
            invariant
                i <= self.dict@.len(),
                result@ == varint_enc(self.repeat as u64) + self.dict@.subrange(0, i as int),
            decreases self.dict@.len() - i,
        {
            result.push(self.dict[i]);
            i = i + 1;
            proof {
                assert(varint_enc(self.repeat as u64) + self.dict@.subrange(0, i as int)
                    =~= (varint_enc(self.repeat as u64)
                        + self.dict@.subrange(0, i - 1)).push(self.dict@[i - 1]));
            }
        }
        proof {
            assert(self.dict@.subrange(0, self.dict@.len() as int) =~= self.dict@);
        }
        result
    }

    /// The dictionary bytes.
    pub fn data(&self) -> (r: &Vec<u8>)
        ensures
            r@ == self@,
    {
        &self.dict
    }

    /// The repeat offset into the dictionary.
    pub fn repeat(&self) -> (r: usize)
        ensures
            r == self.spec_repeat(),
    {
        self.repeat
    }
}

/// What `to_bytes` writes always parses back: a varint repeat offset in
/// front of in-range dictionary bytes is never malformed, so `Dict::new`
/// on a serialized dictionary returns `Some` with the same bytes and
/// repeat offset.
pub proof fn lemma_dict_round_trip(rep: u64, dd: Seq<u8>)
    requires
        MIN_DICT_SIZE as int <= dd.len() <= MAX_DICT_SIZE as int,
        rep <= dd.len(),
    ensures
        spec_parse_varint(varint_enc(rep) + dd) matches Some((v, n)) && v == rep
            && (varint_enc(rep) + dd).skip(n) == dd
            && MIN_DICT_SIZE as int <= (varint_enc(rep) + dd).len() - n <= MAX_DICT_SIZE as int
            && v <= (varint_enc(rep) + dd).len() - n,
{
    crate::varint::lemma_varint_round_trip(rep, dd);
    let n = crate::varint::varint_len(rep);
    assert((varint_enc(rep) + dd).skip(n) =~= dd);
}

/// Compare `haystack[i..i+needle.len()]` with `needle`.
fn eq_at(haystack: &[u8], needle: &[u8], i: usize) -> (r: bool)
    requires
        i + needle@.len() <= haystack@.len(),
    ensures
        r == occurs_at(haystack@, needle@, i as int),
{
    let hlen = haystack.len();
    let mut j: usize = 0;
    while j < needle.len()
        invariant
            j <= needle@.len(),
            i + needle@.len() <= haystack@.len(),
            haystack@.len() == hlen,
            forall|k: int| 0 <= k < j ==> haystack@[i + k] == needle@[k],
        decreases needle@.len() - j,
    {
        if haystack[i + j] != needle[j] {
            assert(haystack@.subrange(i as int, i + needle@.len())[j as int] != needle@[j as int]);
            return false;
        }
        j = j + 1;
    }
    proof {
        assert(haystack@.subrange(i as int, i + needle@.len()) =~= needle@);
    }
    true
}

/// The greatest position at which `needle` occurs in `haystack`, if any.
pub open spec fn spec_last_occurrence(haystack: Seq<u8>, needle: Seq<u8>) -> Option<int> {
    if exists|i: int| occurs_at(haystack, needle, i) {
        Some(choose|i: int| occurs_at(haystack, needle, i)
            && forall|j: int| occurs_at(haystack, needle, j) ==> j <= i)
    } else {
        None
    }
}

/// Find the last occurrence of `needle` in `haystack`.
pub fn find_last_occurrence(haystack: &[u8], needle: &[u8]) -> (r: Option<usize>)
    ensures
        match r {
            Some(i) => occurs_at(haystack@, needle@, i as int) && needle@.len() >= 1
                && forall|j: int| occurs_at(haystack@, needle@, j) ==> j <= i,
            None => needle@.len() == 0 || needle@.len() > haystack@.len()
                || forall|j: int| !occurs_at(haystack@, needle@, j),
        },
{
    if needle.len() == 0 || needle.len() > haystack.len() {
        return None;
    }
    let mut i: usize = haystack.len() - needle.len() + 1;
    while i > 0
        invariant
            i <= haystack@.len() - needle@.len() + 1,
            1 <= needle@.len() <= haystack@.len(),
            forall|j: int| occurs_at(haystack@, needle@, j) ==> j < i,
        decreases i,
    {
        i = i - 1;
        if eq_at(haystack, needle, i) {
            return Some(i);
        }
    }
    None
}


/// The repeat offset `make_dict` picks for `search`: the last occurrence
/// of the longest prefix of `search` (at least four bytes) that fits with
/// eight bytes to spare, or zero.
pub open spec fn spec_repeat_choice(dict: Seq<u8>, search: Seq<u8>, l: int) -> int
    decreases l,
{
    if l < 4 {
        0
    } else {
        match spec_last_occurrence(dict, search.take(l)) {
            Some(pos) => {
                if pos + 8 <= dict.len() {
                    pos
                } else {
                    spec_repeat_choice(dict, search, l - 1)
                }
            },
            None => spec_repeat_choice(dict, search, l - 1),
        }
    }
}

/// Create a dictionary from data: the last 64KiB at most, at least 16
/// bytes. With a search pattern, the repeat offset becomes the last
/// occurrence of its longest usable prefix.
pub fn make_dict(data: &[u8], search_start: Option<&[u8]>) -> (r: Option<Dict>)
    ensures
        match r {
            Some(d) => {
                &&& d.wf()
                &&& data@.len() >= MIN_DICT_SIZE as int
                &&& d@ == if data@.len() > MAX_DICT_SIZE as int {
                    data@.skip(data@.len() - MAX_DICT_SIZE as int)
                } else {
                    data@
                }
                &&& match search_start {
                    Some(p) => d.spec_repeat() == spec_repeat_choice(d@, p@, p@.len() as int),
                    None => d.spec_repeat() == 0,
                }
            },
            None => data@.len() < MIN_DICT_SIZE as int || data@.len() == 0,
        },
{
    if data.len() == 0 {
        return None;
    }
    let from: usize = if data.len() > MAX_DICT_SIZE {
        data.len() - MAX_DICT_SIZE
    } else {
        0
    };
    if data.len() - from < MIN_DICT_SIZE {
        return None;
    }
    let mut dict: Vec<u8> = Vec::new();
    crate::decode::push_range(&mut dict, data, from, data.len());
    proof {
        if data@.len() > MAX_DICT_SIZE as int {
            assert(dict@ =~= data@.skip(data@.len() - MAX_DICT_SIZE as int));
        } else {
            assert(dict@ =~= data@);
        }
    }
    let mut repeat: usize = 0;
    let mut have_repeat = false;
    if let Some(search) = search_start {
        // Try the longest prefix first, then ever shorter ones.
        let mut l = search.len();
        let ghost l_top = search@.len() as int;
        while l >= 4 && !have_repeat
            invariant
                l <= search@.len(),
                8 <= dict@.len() <= MAX_DICT_SIZE as int,
                !have_repeat ==> spec_repeat_choice(dict@, search@, l_top)
                    == spec_repeat_choice(dict@, search@, l as int),
                have_repeat ==> repeat as int == spec_repeat_choice(dict@, search@, l_top)
                    && repeat + 8 <= dict@.len(),
                !have_repeat ==> repeat == 0,
            decreases (if have_repeat { 0int } else { 1int }), l,
        {
            let needle: &[u8] = &search[0..l];
            proof {
                assert(needle@ =~= search@.take(l as int));
            }
            match find_last_occurrence(dict.as_slice(), needle) {
                Some(pos) => {
                    proof {
                        lemma_last_occurrence_is(dict@, needle@, pos as int);
                    }
                    if pos + 8 <= dict.len() {
                        repeat = pos;
                        have_repeat = true;
                    } else {
                        l = l - 1;
                    }
                },
                None => {
                    proof {
                        lemma_no_occurrence(dict@, needle@);
                    }
                    l = l - 1;
                },
            }
        }
        proof {
            if !have_repeat {
                lemma_repeat_choice_short(dict@, search@, l as int);
            }
        }
    }
    Some(
        Dict {
            dict,
            repeat,
            fast_table: None,
            better_table_short: None,
            better_table_long: None,
            best_table_short: None,
            best_table_long: None,
        },
    )
}

/// Below four bytes no prefix is usable: the choice is zero.
proof fn lemma_repeat_choice_short(dict: Seq<u8>, search: Seq<u8>, l: int)
    requires
        l < 4,
    ensures
        spec_repeat_choice(dict, search, l) == 0,
{
}

/// What `find_last_occurrence` found is the spec-level last occurrence.
proof fn lemma_last_occurrence_is(haystack: Seq<u8>, needle: Seq<u8>, pos: int)
    requires
        occurs_at(haystack, needle, pos),
        forall|j: int| occurs_at(haystack, needle, j) ==> j <= pos,
    ensures
        spec_last_occurrence(haystack, needle) == Some(pos),
{
    assert(exists|i: int| occurs_at(haystack, needle, i));
    let w = choose|i: int| occurs_at(haystack, needle, i)
        && forall|j: int| occurs_at(haystack, needle, j) ==> j <= i;
    assert(occurs_at(haystack, needle, pos)
        && forall|j: int| occurs_at(haystack, needle, j) ==> j <= pos);
    assert(w <= pos && pos <= w);
}

/// With no occurrence at all, there is no last one.
proof fn lemma_no_occurrence(haystack: Seq<u8>, needle: Seq<u8>)
    requires
        forall|j: int| !occurs_at(haystack, needle, j),
    ensures
        spec_last_occurrence(haystack, needle) is None,
{
}

/// Create a dictionary with a manually chosen repeat offset, which must
/// leave at least eight bytes after it.
pub fn make_dict_manual(data: &[u8], first_idx: u16) -> (r: Option<Dict>)
    ensures
        match r {
            Some(d) => {
                &&& d.wf()
                &&& d@ == data@
                &&& d.spec_repeat() == first_idx as int
                &&& MIN_DICT_SIZE as int <= data@.len() <= MAX_DICT_SIZE as int
                &&& first_idx as int + 8 < data@.len() + 8
            },
            None => data@.len() < MIN_DICT_SIZE as int || data@.len() > MAX_DICT_SIZE as int
                || data@.len() < 8 || first_idx as int >= data@.len() - 8,
        },
{
    if data.len() < MIN_DICT_SIZE || data.len() > MAX_DICT_SIZE {
        return None;
    }
    if data.len() < 8 || first_idx as usize >= data.len() - 8 {
        return None;
    }
    let mut dict: Vec<u8> = Vec::new();
    crate::decode::push_range(&mut dict, data, 0, data.len());
    proof {
        assert(dict@ =~= data@);
    }
    Some(
        Dict {
            dict,
            repeat: first_idx as usize,
            fast_table: None,
            better_table_short: None,
            better_table_long: None,
            best_table_short: None,
            best_table_long: None,
        },
    )
}

} // verus!
