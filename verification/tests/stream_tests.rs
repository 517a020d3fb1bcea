//! The stream writer and reader: framing, padding, resets, and scenarios
//! with hand-built chunks.

use minlz::decode_snappy;
use minlz::encode;
use minlz::Reader;
use minlz::Writer;

#[test]
fn test_writer_basic() {
    let mut writer = Writer::new();
    writer.write(b"Hello, World!").unwrap();
    writer.flush().unwrap();
    let compressed = writer.reset();

    let magic: &[u8] = b"\xff\x06\x00\x00S2sTwO";
    assert!(compressed.len() > magic.len());
    assert_eq!(&compressed[..magic.len()], magic);
}

#[test]
fn test_writer_empty() {
    let writer = Writer::new();
    let compressed = writer.get_ref();
    assert_eq!(compressed.len(), 0);
}

#[test]
fn test_writer_multiple_writes() {
    let mut writer = Writer::new();
    writer.write(b"Hello, ").unwrap();
    writer.write(b"World!").unwrap();
    writer.flush().unwrap();
    let compressed = writer.reset();

    let magic: &[u8] = b"\xff\x06\x00\x00S2sTwO";
    assert!(compressed.len() > magic.len());
    assert_eq!(&compressed[..magic.len()], magic);
}

#[test]
fn test_writer_large_data() {
    let data = vec![b'A'; 100000];
    let mut writer = Writer::new();
    writer.write(&data).unwrap();
    writer.flush().unwrap();
    let compressed = writer.reset();

    assert!(compressed.len() < data.len() / 2);
}

#[test]
fn test_writer_with_padding() {
    let data = b"Hello, World! This is a test of padding.";
    let mut writer = Writer::with_padding(1024);
    writer.write(data).unwrap();
    writer.close().unwrap();
    let compressed = writer.reset();

    assert_eq!(
        compressed.len() % 1024,
        0,
        "Expected length to be multiple of 1024, got {}",
        compressed.len()
    );

    assert!(compressed.len() >= 1024);

    let mut reader = Reader::new(compressed);
    let decompressed = reader.read_to_end().unwrap();
    assert_eq!(decompressed, data);
}

#[test]
fn test_writer_padding_multiple_blocks() {
    let data = vec![b'X'; 10000];
    let mut writer = Writer::with_padding(512);
    writer.write(&data).unwrap();
    writer.close().unwrap();
    let compressed = writer.reset();

    assert_eq!(compressed.len() % 512, 0);

    let mut reader = Reader::new(compressed);
    let decompressed = reader.read_to_end().unwrap();
    assert_eq!(decompressed, data);
}

#[test]
fn test_reader_with_max_block_size() {
    let data = b"Hello, World!";
    let mut writer = Writer::new();
    writer.write(data).unwrap();
    writer.flush().unwrap();
    let compressed = writer.reset();

    let mut reader = Reader::with_max_block_size(compressed, 64 * 1024);
    let decompressed = reader.read_to_end().unwrap();
    assert_eq!(decompressed, data);
}

#[test]
fn test_reader_with_ignore_stream_id() {
    let data = b"Test data";
    let mut writer = Writer::new();
    writer.write(data).unwrap();
    writer.flush().unwrap();
    let compressed = writer.reset();

    let without_magic = compressed[10..].to_vec();

    let mut reader = Reader::with_ignore_stream_id(without_magic);
    let decompressed = reader.read_to_end().unwrap();
    assert_eq!(decompressed, data);
}

#[test]
fn test_reader_basic() {
    let mut writer = Writer::new();
    writer.write(b"Hello, World!").unwrap();
    writer.flush().unwrap();
    let compressed = writer.reset();

    let mut reader = Reader::new(compressed);
    let decompressed = reader.read_to_end().unwrap();

    assert_eq!(decompressed, b"Hello, World!");
}

#[test]
fn test_reader_empty() {
    let writer = Writer::new();
    let compressed = writer.get_ref().clone();

    let mut reader = Reader::new(compressed);
    let result = reader.read_to_end();

    assert!(result.is_err() || result.unwrap().is_empty());
}

#[test]
fn test_reader_large() {
    let data = vec![b'A'; 100000];

    let mut writer = Writer::new();
    writer.write(&data).unwrap();
    writer.flush().unwrap();
    let compressed = writer.reset();

    let mut reader = Reader::new(compressed);
    let decompressed = reader.read_to_end().unwrap();

    assert_eq!(decompressed, data);
}

#[test]
fn test_reader_multiple_chunks() {
    let data1 = b"First chunk of data";
    let data2 = b"Second chunk of data";

    // A block size below the minimum is clamped to 4KiB; the two writes
    // still land in the stream in order.
    let mut writer = Writer::with_block_size(16);
    writer.write(data1).unwrap();
    writer.flush().unwrap();
    writer.write(data2).unwrap();
    writer.flush().unwrap();
    let compressed = writer.reset();

    let mut reader = Reader::new(compressed);
    let decompressed = reader.read_to_end().unwrap();

    let mut expected = Vec::new();
    expected.extend_from_slice(data1);
    expected.extend_from_slice(data2);

    assert_eq!(decompressed, expected);
}

#[test]
fn test_reader_with_alloc_block_size() {
    let data = b"Test data for alloc_block_size";
    let mut writer = Writer::new();
    writer.write(data).unwrap();
    writer.flush().unwrap();
    let compressed = writer.reset();

    let mut reader = Reader::with_alloc_block_size(compressed, 4096);
    let decompressed = reader.read_to_end().unwrap();
    assert_eq!(decompressed, data);
}

#[test]
fn test_encode_matches_go_faster() {
    let input = b"This is a larger test file with more data to compress. It contains repeated patterns that should compress well. This is a larger test file with more data to compress. It contains repeated patterns that should compress well.\n";

    let expected_reference_output: &[u8] = &[
        0xe0, 0x01, // Varint: uncompressed length 224
        0xf0, 0x5f, // LITERAL tag + data (96 bytes)
        0x54, 0x68, 0x69, 0x73, 0x20, 0x69, 0x73, 0x20, 0x61, 0x20, 0x6c, 0x61, 0x72, 0x67, 0x65,
        0x72, 0x20, 0x74, 0x65, 0x73, 0x74, 0x20, 0x66, 0x69, 0x6c, 0x65, 0x20, 0x77, 0x69, 0x74,
        0x68, 0x20, 0x6d, 0x6f, 0x72, 0x65, 0x20, 0x64, 0x61, 0x74, 0x61, 0x20, 0x74, 0x6f, 0x20,
        0x63, 0x6f, 0x6d, 0x70, 0x72, 0x65, 0x73, 0x73, 0x2e, 0x20, 0x49, 0x74, 0x20, 0x63, 0x6f,
        0x6e, 0x74, 0x61, 0x69, 0x6e, 0x73, 0x20, 0x72, 0x65, 0x70, 0x65, 0x61, 0x74, 0x65, 0x64,
        0x20, 0x70, 0x61, 0x74, 0x74, 0x65, 0x72, 0x6e, 0x73, 0x20, 0x74, 0x68, 0x61, 0x74, 0x20,
        0x73, 0x68, 0x6f, 0x75, 0x6c, 0x64, 0x15, 0x34, // COPY1 len=9 offset=52
        0x18, 0x20, 0x77, 0x65, 0x6c, 0x6c, 0x2e, 0x20, // LITERAL 7 bytes
        0x11, 0x70, // COPY1 len=8 offset=112
        0x15, 0x00, // repeat, 3-byte length form
        0x5f, 0x00, 0x0a, // length byte, then a 1-byte literal
    ];

    let compressed = encode(input);

    assert_eq!(
        compressed, expected_reference_output,
        "Encoded output should match the reference encoder exactly"
    );
}

#[test]
fn test_snappy_decode_basic() {
    let snappy_data = vec![
        0x0d, // varint: 13 bytes uncompressed
        0x30, // literal, 12 bytes
        b'H', b'e', b'l', b'l', b'o', b',', b' ', b'W', b'o', b'r', b'l', b'd', b'!',
    ];

    let decompressed = decode_snappy(&snappy_data).expect("decode failed");
    assert_eq!(decompressed, b"Hello, World!");
}

#[test]
fn test_snappy_stream_reader() {
    let mut snappy_stream = Vec::new();

    snappy_stream.extend_from_slice(b"\xff\x06\x00\x00sNaPpY");

    snappy_stream.push(0x00);

    let compressed_data = vec![
        0x04, // varint: 4 bytes uncompressed
        0x0c, // literal, 3 bytes
        b'T', b'e', b's', b't',
    ];

    let chunk_len = 4 + compressed_data.len();
    snappy_stream.push((chunk_len & 0xff) as u8);
    snappy_stream.push(((chunk_len >> 8) & 0xff) as u8);
    snappy_stream.push(((chunk_len >> 16) & 0xff) as u8);

    snappy_stream.extend_from_slice(&[0x00, 0x00, 0x00, 0x00]);

    snappy_stream.extend_from_slice(&compressed_data);

    // The dummy checksum fails verification; the structure is the point.
    let mut reader = Reader::new(snappy_stream);
    let _ = reader.read_to_end();
}

#[test]
fn test_snappy_with_copies() {
    let simple_data = vec![
        0x09, // varint: 9 bytes uncompressed
        0x0c, // literal, 4 bytes
        b'a', b'b', b'c', b'd', 0x12, 0x04,
        0x00, // copy2: length=5, offset=4
    ];

    let decompressed = decode_snappy(&simple_data).expect("decode failed");
    assert_eq!(decompressed, b"abcdabcda");
}

#[test]
fn test_stream_magic_and_payload() {
    // One block of known bytes: the stream opens with the magic, carries
    // one compressed chunk whose checksum is the masked CRC of the
    // uncompressed bytes, and reads back exactly.
    let data = b"abcd";
    let mut writer = Writer::new();
    writer.write(data).unwrap();
    writer.flush().unwrap();
    let stream = writer.reset();

    assert_eq!(&stream[..10], b"\xff\x06\x00\x00S2sTwO");
    assert_eq!(stream[10], 0x00, "expected a compressed data chunk");
    let crc = minlz::crc(data);
    assert_eq!(&stream[14..18], &crc.to_le_bytes());

    let mut reader = Reader::new(stream);
    assert_eq!(reader.read_to_end().unwrap(), data);
}

#[test]
fn test_stream_crc_rejected() {
    // Corrupting the stored checksum must turn the stream corrupt.
    let data = b"payload guarded by its checksum";
    let mut writer = Writer::new();
    writer.write(data).unwrap();
    writer.flush().unwrap();
    let mut stream = writer.reset();

    stream[14] ^= 0xff;
    let mut reader = Reader::new(stream);
    assert!(reader.read_to_end().is_err());
}

#[test]
fn test_stream_chunked_writes_concatenate() {
    // However the input is split over writes, the reader returns the
    // concatenation.
    let parts: Vec<Vec<u8>> = vec![
        b"alpha ".to_vec(),
        vec![b'z'; 5000],
        b"omega".to_vec(),
    ];
    let mut writer = Writer::with_block_size(4096);
    let mut want = Vec::new();
    for p in &parts {
        writer.write(p).unwrap();
        want.extend_from_slice(p);
    }
    writer.close().unwrap();
    let stream = writer.reset();

    let mut reader = Reader::new(stream);
    assert_eq!(reader.read_to_end().unwrap(), want);
}

#[test]
fn test_reader_partial_reads() {
    let data = b"partial reads drain the stream in order";
    let mut writer = Writer::new();
    writer.write(data).unwrap();
    writer.flush().unwrap();
    let stream = writer.reset();

    let mut reader = Reader::new(stream);
    let mut got = Vec::new();
    loop {
        let chunk = reader.read(7).unwrap();
        if chunk.is_empty() {
            break;
        }
        got.extend_from_slice(&chunk);
    }
    assert_eq!(got, data);
}

#[test]
fn test_unknown_chunk_type_rejected() {
    let mut stream = Vec::new();
    stream.extend_from_slice(b"\xff\x06\x00\x00S2sTwO");
    stream.push(0x02);
    stream.extend_from_slice(&[0x01, 0x00, 0x00]);
    stream.push(0xaa);

    let mut reader = Reader::new(stream);
    assert!(reader.read_to_end().is_err());
}
