//! Block and stream compression in the S2 format, a superset of Snappy.
//!
//! The block layer encodes arbitrary bytes as a varint-prefixed stream of
//! literal and copy tags, at three search tiers plus a Snappy-compatible
//! one, and decodes any such block with strict bounds enforcement. The
//! stream layer frames blocks into checksummed chunks behind a magic
//! identifier, with optional padding and a seekable index.
//!
//! Every encoder's output is proved to decode back to its input, within
//! the published worst-case size; the decoder is proved to follow the tag
//! semantics exactly and never to read or write out of bounds.

use vstd::prelude::*;

mod best;
mod better;
mod block;
mod constants;
mod crc;
mod decode;
mod dict;
mod dict_block;
mod emit;
mod encode;
mod error;
mod fast;
mod frame;
mod hashing;
mod index;
mod reader;
mod snappy;
mod tags;
mod varint;
mod writer;

pub use decode::decode;
pub use decode::decode_into;
pub use decode::decode_len;
pub use decode::decode_snappy;
pub use decode::decode_with_dict;
pub use decode::Decoder;
pub use dict::find_last_occurrence;
pub use dict::make_dict;
pub use dict::make_dict_manual;
pub use dict::Dict;
pub use dict::MAX_DICT_SIZE;
pub use dict::MAX_DICT_SRC_OFFSET;
pub use dict::MIN_DICT_SIZE;
pub use encode::encode;
pub use encode::encode_best;
pub use encode::encode_best_with_dict;
pub use encode::encode_better;
pub use encode::encode_better_with_dict;
pub use encode::encode_snappy;
pub use encode::encode_with_dict;
pub use encode::max_encoded_len;
pub use encode::Encoder;
pub use crc::crc;
pub use emit::emit_copy;
pub use emit::emit_copy_no_repeat;
pub use emit::emit_literal;
pub use emit::emit_repeat;
pub use error::Error;
pub use hashing::match_len;
pub use index::decode_signed_varint;
pub use index::encode_signed_varint;
pub use index::Index;
pub use reader::Reader;
pub use reader::SeekFrom;
pub use writer::frame_compressed_block;
pub use writer::Writer;

pub use varint::decode_varint;
pub use varint::encode_varint;
pub use varint::varint_size;

verus! {

} // verus!
