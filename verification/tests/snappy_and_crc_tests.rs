//! Snappy-compatible encoding, the checksum, and the size bound.

use minlz::crc;
use minlz::decode;
use minlz::encode;
use minlz::encode_best;
use minlz::encode_better;
use minlz::encode_snappy;
use minlz::max_encoded_len;

#[test]
fn test_encode_snappy_roundtrip() {
    let test_data = b"Hello, World! This is a test of Snappy encoding.";
    let encoded = encode_snappy(test_data);
    let decoded = decode(&encoded).expect("decode failed");
    assert_eq!(decoded, test_data);
}

#[test]
fn test_encode_snappy_empty() {
    let encoded = encode_snappy(b"");
    let decoded = decode(&encoded).expect("decode failed");
    assert_eq!(decoded, b"");
}

#[test]
fn test_encode_snappy_small() {
    for i in 1..20 {
        let data = vec![b'a'; i];
        let encoded = encode_snappy(&data);
        let decoded = decode(&encoded).expect("decode failed");
        assert_eq!(decoded, data);
    }
}

#[test]
fn test_encode_snappy_repeated() {
    let data = b"aaaabbbbccccddddeeeeffffgggghhhhiiiijjjjkkkkllllmmmm";
    let encoded = encode_snappy(data);
    let decoded = decode(&encoded).expect("decode failed");
    assert_eq!(decoded, data);
}

#[test]
fn test_encode_snappy_large() {
    let data = vec![b'X'; 100000];
    let encoded = encode_snappy(&data);
    let decoded = decode(&encoded).expect("decode failed");
    assert_eq!(decoded, data);
}

#[test]
fn test_encode_snappy_incompressible() {
    let mut data = Vec::new();
    let mut x = 1u32;
    for _ in 0..1000 {
        x = x.wrapping_mul(1103515245).wrapping_add(12345);
        data.push((x >> 16) as u8);
    }

    let encoded = encode_snappy(&data);
    let decoded = decode(&encoded).expect("decode failed");
    assert_eq!(decoded, data);
}

#[test]
fn test_encode_snappy_mixed() {
    let mut data = Vec::new();

    data.extend(vec![b'a'; 100]);

    let mut x = 1u32;
    for _ in 0..100 {
        x = x.wrapping_mul(1103515245).wrapping_add(12345);
        data.push((x >> 16) as u8);
    }

    data.extend(vec![b'b'; 100]);

    let encoded = encode_snappy(&data);
    let decoded = decode(&encoded).expect("decode failed");
    assert_eq!(decoded, data);
}

#[test]
fn test_crc_empty() {
    let result = crc(&[]);
    assert_ne!(result, 0);
}

#[test]
fn test_crc_consistency() {
    let data = b"Hello, World!";
    let crc1 = crc(data);
    let crc2 = crc(data);
    assert_eq!(crc1, crc2, "CRC should be deterministic");
}

#[test]
fn test_crc_different_data() {
    let data1 = b"Hello";
    let data2 = b"World";
    let crc1 = crc(data1);
    let crc2 = crc(data2);
    assert_ne!(crc1, crc2, "Different data should produce different CRCs");
}

#[test]
fn test_crc_known_value() {
    // The CRC32C (Castagnoli) check value of "123456789" is 0xe3069283;
    // the stream checksum is that value rotated right by 15 with the
    // constant added.
    let raw: u32 = 0xe3069283;
    let expected = ((raw >> 15) | (raw << 17)).wrapping_add(0xa282ead8);
    assert_eq!(crc(b"123456789"), expected);
}

#[test]
fn test_encoded_len_within_bound() {
    // Every level obeys the published bound on every input tried.
    let mut inputs: Vec<Vec<u8>> = vec![
        Vec::new(),
        vec![0u8; 1],
        vec![b'a'; 100],
        (0..2000).map(|i| (i % 256) as u8).collect(),
        (0..3000).map(|i| ((i * 31337) % 256) as u8).collect(),
    ];
    let mut mixed = vec![b'q'; 500];
    mixed.extend((0..500).map(|i| ((i * 7919) % 256) as u8));
    inputs.push(mixed);

    for data in inputs {
        let bound = max_encoded_len(data.len()).unwrap();
        assert!(encode(&data).len() <= bound);
        assert!(encode_better(&data).len() <= bound);
        assert!(encode_best(&data).len() <= bound);
        assert!(encode_snappy(&data).len() <= bound);
    }
}

#[test]
fn test_round_trip_every_level_exact() {
    // One concrete check per level that the decoder undoes the encoder.
    let data = b"round trips hold at every level: fast, better, best, snappy";
    assert_eq!(decode(&encode(data)).unwrap(), data);
    assert_eq!(decode(&encode_better(data)).unwrap(), data);
    assert_eq!(decode(&encode_best(data)).unwrap(), data);
    assert_eq!(decode(&encode_snappy(data)).unwrap(), data);
}

#[test]
fn test_empty_block_bytes() {
    // The empty input encodes to the single zero byte, and back.
    assert_eq!(encode(b""), vec![0x00]);
    assert_eq!(decode(&[0x00]).unwrap(), Vec::<u8>::new());
}

#[test]
fn test_single_literal_block() {
    assert_eq!(
        decode(&[0x04, 0x0c, 0x61, 0x62, 0x63, 0x64]).unwrap(),
        b"abcd"
    );
}

#[test]
fn test_literal_then_overlapping_copy() {
    assert_eq!(
        decode(&[0x09, 0x0c, 0x61, 0x62, 0x63, 0x64, 0x12, 0x04, 0x00]).unwrap(),
        b"abcdabcda"
    );
}

#[test]
fn test_decode_reports_length_from_varint() {
    // A decoded block is exactly as long as its leading varint claims.
    let data = vec![b'm'; 300];
    let block = encode(&data);
    let (len, _hdr) = minlz::decode_len(&block).unwrap();
    assert_eq!(len, data.len());
    assert_eq!(decode(&block).unwrap().len(), len);
}

#[test]
fn test_decode_rejects_mismatched_length() {
    // Declaring one byte more than the tags produce is corruption.
    let mut block = encode(b"four");
    block[0] = block[0] + 1;
    assert!(decode(&block).is_err());
}

#[test]
fn test_max_encoded_len_too_large() {
    // Sizes beyond the 32-bit ceiling are rejected.
    assert_eq!(max_encoded_len(usize::MAX), Err(minlz::Error::TooLarge));
    assert_eq!(max_encoded_len(0x100000000), Err(minlz::Error::TooLarge));
}

#[test]
fn test_decode_too_large_block() {
    // A declared size beyond the 32-bit ceiling is too large, not merely
    // corrupt; the 5-byte varint here encodes 2^32.
    let block = vec![0x80u8, 0x80, 0x80, 0x80, 0x10];
    assert_eq!(decode(&block), Err(minlz::Error::TooLarge));

    let mut dst = vec![0u8; 8];
    assert_eq!(minlz::decode_into(&mut dst, &block), Err(minlz::Error::TooLarge));
    assert_eq!(dst, vec![0u8; 8], "the buffer must be left untouched");
}
