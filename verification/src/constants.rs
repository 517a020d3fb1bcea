//! Format constants shared by the block and stream layers.

use vstd::prelude::*;

verus! {

/// Tag for literal chunks.
pub const TAG_LITERAL: u8 = 0x00;

/// Tag for copy with 1-byte offset (11 bits).
pub const TAG_COPY1: u8 = 0x01;

/// Tag for copy with 2-byte offset (16 bits).
pub const TAG_COPY2: u8 = 0x02;

/// Tag for copy with 4-byte offset (32 bits).
pub const TAG_COPY4: u8 = 0x03;

/// Maximum block size (4MB).
pub const MAX_BLOCK_SIZE: usize = 0x400000;

/// Minimum block size for compression (4KB).
pub const MIN_BLOCK_SIZE: usize = 0x1000;

/// Default block size (1MB).
pub const DEFAULT_BLOCK_SIZE: usize = 0x100000;

/// Maximum Snappy block size (64KB).
pub const MAX_SNAPPY_BLOCK_SIZE: usize = 0x10000;

/// Input margin for encoding.
pub const INPUT_MARGIN: usize = 8;

/// Minimum non-literal block size.
pub const MIN_NON_LITERAL_BLOCK_SIZE: usize = 32;

/// Chunk type for compressed stream data.
pub const CHUNK_TYPE_COMPRESSED_DATA: u8 = 0x00;

/// Chunk type for uncompressed stream data.
pub const CHUNK_TYPE_UNCOMPRESSED_DATA: u8 = 0x01;

/// Chunk type for the index trailer.
pub const CHUNK_TYPE_INDEX: u8 = 0x99;

/// Chunk type for padding.
pub const CHUNK_TYPE_PADDING: u8 = 0xfe;

/// Chunk type for the stream identifier.
pub const CHUNK_TYPE_STREAM_IDENTIFIER: u8 = 0xff;

/// Checksum size (CRC32).
pub const CHECKSUM_SIZE: usize = 4;

/// Chunk header size.
pub const CHUNK_HEADER_SIZE: usize = 4;

/// Maximum chunk size (24-bit).
pub const MAX_CHUNK_SIZE: usize = 0xffffff;

/// Skippable frame header size.
pub const SKIPPABLE_FRAME_HEADER: usize = 4;

/// The ten magic bytes opening an S2 stream.
pub open spec fn spec_magic_chunk() -> Seq<u8> {
    seq![0xffu8, 0x06u8, 0x00u8, 0x00u8, 0x53u8, 0x32u8, 0x73u8, 0x54u8, 0x77u8, 0x4fu8]
}

/// The ten magic bytes opening a Snappy stream.
pub open spec fn spec_magic_chunk_snappy() -> Seq<u8> {
    seq![0xffu8, 0x06u8, 0x00u8, 0x00u8, 0x73u8, 0x4eu8, 0x61u8, 0x50u8, 0x70u8, 0x59u8]
}

/// The S2 stream magic, as a vector: `0xff 0x06 0x00 0x00` then `"S2sTwO"`.
pub fn magic_chunk() -> (r: Vec<u8>)
    ensures
        r@ == spec_magic_chunk(),
{
    let mut v: Vec<u8> = Vec::new();
    v.push(0xff);
    v.push(0x06);
    v.push(0x00);
    v.push(0x00);
    v.push(0x53);
    v.push(0x32);
    v.push(0x73);
    v.push(0x54);
    v.push(0x77);
    v.push(0x4f);
    proof {
        assert(v@ =~= spec_magic_chunk());
    }
    v
}

} // verus!
