//! Dictionaries, the seek index, and the varint codecs.

use minlz::decode_varint;
use minlz::decode_with_dict;
use minlz::encode;
use minlz::encode_varint;
use minlz::find_last_occurrence;
use minlz::make_dict;
use minlz::make_dict_manual;
use minlz::Dict;
use minlz::Index;
use minlz::MAX_DICT_SIZE;
use minlz::MIN_DICT_SIZE;

#[test]
fn test_dict_roundtrip_simple() {
    let dict_data = b"Hello, World! This is common text that appears frequently.";
    let dict = make_dict(dict_data, Some(b"Hello")).unwrap();

    let data = b"Hello, World! Testing dictionary compression.";
    let compressed = encode(data);

    let decompressed = decode_with_dict(&compressed, &dict).unwrap();
    assert_eq!(data, &decompressed[..]);
}

#[test]
fn test_dict_api_compatibility() {
    let dict_data = b"Common prefix data that repeats often in our dataset.";
    let dict = make_dict(dict_data, None).unwrap();

    let data = b"Test data for compression.";

    let _c1 = minlz::encode_with_dict(data, &dict);
    let _c2 = minlz::encode_better_with_dict(data, &dict);
    let _c3 = minlz::encode_best_with_dict(data, &dict);
}

#[test]
fn test_dict_new() {
    let data = b"Hello, World! This is a test.";
    let dict = make_dict(data, None).unwrap();

    assert_eq!(dict.data().as_slice(), data);
    assert_eq!(dict.repeat(), 0);
}

#[test]
fn test_dict_serialization() {
    let data = b"Test dictionary data for serialization";
    let dict = make_dict(data, Some(b"dict")).unwrap();

    let bytes = dict.to_bytes();
    let dict2 = Dict::new(&bytes).unwrap();

    assert_eq!(dict.data(), dict2.data());
    assert_eq!(dict.repeat(), dict2.repeat());
}

#[test]
fn test_dict_size_limits() {
    let small = b"tiny";
    assert!(make_dict(small, None).is_none());

    let min_size = vec![b'X'; MIN_DICT_SIZE];
    assert!(make_dict(&min_size, None).is_some());

    let max_size = vec![b'X'; MAX_DICT_SIZE];
    assert!(make_dict(&max_size, None).is_some());

    let over_max = vec![b'X'; MAX_DICT_SIZE + 1000];
    let dict = make_dict(&over_max, None).unwrap();
    assert_eq!(dict.data().len(), MAX_DICT_SIZE);
}

#[test]
fn test_make_dict_with_search() {
    let data = b"The quick brown fox jumps over the lazy dog. The quick brown fox.";

    let dict = make_dict(data, Some(b"The quick")).unwrap();

    assert!(dict.repeat() > 0);

    assert!(dict.data()[dict.repeat()..].starts_with(b"The quick"));
}

#[test]
fn test_make_dict_manual() {
    let data = vec![b'A'; 100];
    let dict = make_dict_manual(&data, 10).unwrap();

    assert_eq!(dict.repeat(), 10);
    assert_eq!(dict.data().len(), 100);
}

#[test]
fn test_find_last_occurrence() {
    let haystack = b"Hello world, hello Rust, hello!";

    assert_eq!(find_last_occurrence(haystack, b"hello"), Some(25));
    assert_eq!(find_last_occurrence(haystack, b"Hello"), Some(0));
    assert_eq!(find_last_occurrence(haystack, b"xyz"), None);
}

#[test]
fn test_index_basic() {
    let mut index = Index::new();
    index.reset(1024 * 1024);
    index.total_uncompressed = 10 * 1024 * 1024;

    assert!(index.add(0, 0).is_ok());
    assert!(index.add(500_000, 1024 * 1024).is_ok());
    assert!(index.add(1_000_000, 2 * 1024 * 1024).is_ok());
    assert!(index.add(1_500_000, 3 * 1024 * 1024).is_ok());

    let (c, u) = index.find(0).unwrap();
    assert_eq!(c, 0);
    assert_eq!(u, 0);

    let (c, u) = index.find(1024 * 1024).unwrap();
    assert_eq!(c, 500_000);
    assert_eq!(u, 1024 * 1024);

    let (c, u) = index.find(1024 * 1024 + 500_000).unwrap();
    assert_eq!(c, 500_000);
    assert_eq!(u, 1024 * 1024);
}

#[test]
fn index_test_varint_roundtrip() {
    let test_values = vec![0, 1, -1, 127, -127, 128, -128, 65535, -65535];

    for &val in &test_values {
        let mut buf = Vec::new();
        minlz::encode_signed_varint(&mut buf, val);
        let (decoded, n) = minlz::decode_signed_varint(&buf).unwrap();
        assert_eq!(decoded, val, "Failed for value {}", val);
        assert_eq!(n, buf.len());
    }
}

#[test]
fn varint_test_varint_roundtrip() {
    let test_values = vec![0, 1, 127, 128, 255, 256, 65535, 65536, 0xffffffff];

    for &val in &test_values {
        let mut buf: Vec<u8> = Vec::new();
        let n = encode_varint(&mut buf, val);
        let (decoded, bytes_read) = decode_varint(&buf).unwrap();
        assert_eq!(val, decoded);
        assert_eq!(n, bytes_read);
    }
}

#[test]
fn test_index_find_negative_offset() {
    // A negative target counts back from the recorded end.
    let mut index = Index::new();
    index.reset(1024 * 1024);
    index.total_uncompressed = 4 * 1024 * 1024;
    index.add(0, 0).unwrap();
    index.add(700_000, 2 * 1024 * 1024).unwrap();

    let (c, u) = index.find(-1).unwrap();
    assert_eq!((c, u), (700_000, 2 * 1024 * 1024));

    assert!(index.find(-(5 * 1024 * 1024)).is_err());
}

#[test]
fn test_index_errors() {
    let mut index = Index::new();
    // Unknown total: corrupt.
    assert!(index.find(0).is_err());

    index.reset(1024 * 1024);
    index.total_uncompressed = 1024;
    // Beyond the end: invalid input.
    assert!(index.find(5000).is_err());

    // Out-of-order adds are corruption.
    index.add(100, 2 * 1024 * 1024).unwrap();
    assert!(index.add(50, 4 * 1024 * 1024).is_err());
    assert!(index.add(200, 1024).is_err());
}

#[test]
fn test_index_append_and_load() {
    let mut index = Index::new();
    index.reset(1024 * 1024);
    for i in 0..10i64 {
        index.add(i * 400_000, i * 1024 * 1024).unwrap();
    }

    let mut buf = Vec::new();
    index.append_to(&mut buf, 10 * 1024 * 1024, 4_000_000).unwrap();
    assert_eq!(buf[0], 0x99, "the index frame must be skippable");
    let clen = buf[1] as usize + 256 * buf[2] as usize + 65536 * buf[3] as usize;
    assert_eq!(buf.len(), clen + 4);

    let mut loaded = Index::new();
    let consumed = loaded.load(&buf).unwrap();
    assert_eq!(consumed, buf.len());
    assert_eq!(loaded.total_uncompressed, 10 * 1024 * 1024);
    assert_eq!(loaded.total_compressed, 4_000_000);
    let (c, u) = loaded.find(3 * 1024 * 1024 + 17).unwrap();
    assert_eq!((c, u), (3 * 400_000, 3 * 1024 * 1024));
}

#[test]
fn test_encode_with_dict_roundtrip() {
    // The dictionary-aware encoder must round-trip through the
    // dictionary-aware decoder, matches into the dictionary included.
    let mut dict_data = Vec::new();
    for i in 0..256usize {
        dict_data.push((i % 251) as u8);
    }
    dict_data.extend_from_slice(b"shared phrase that the input repeats verbatim!");
    let dict = make_dict(&dict_data, None).unwrap();

    let mut data = Vec::new();
    data.extend_from_slice(b"shared phrase that the input repeats verbatim!");
    data.extend_from_slice(b" and then some unique trailing text 0123456789");
    data.extend_from_slice(b"shared phrase that the input repeats verbatim!");

    let compressed = minlz::encode_with_dict(&data, &dict);
    let decompressed = decode_with_dict(&compressed, &dict).unwrap();
    assert_eq!(decompressed, data);
}

#[test]
fn test_index_load_wrong_header() {
    // A skippable chunk that is not an index frame is unsupported.
    let mut buf = vec![0x99, 0x20, 0x00, 0x00];
    buf.extend_from_slice(b"not an index frame at all, just filler..");
    let mut index = Index::new();
    assert_eq!(index.load(&buf), Err(minlz::Error::Unsupported));
}

#[test]
fn test_decode_total_on_garbage() {
    // Arbitrary bytes decode to a value or an error, never a crash.
    let mut seed = 7u64;
    for len in [0usize, 1, 2, 7, 33, 200, 1000] {
        let mut data = vec![0u8; len];
        for b in data.iter_mut() {
            seed = seed.wrapping_mul(6364136223846793005).wrapping_add(1442695040888963407);
            *b = (seed >> 32) as u8;
        }
        let _ = minlz::decode(&data);
        let mut reader = minlz::Reader::new(data);
        let _ = reader.read_to_end();
    }
}
