//! End-to-end coverage across compression levels and the stream format.

use minlz::decode;
use minlz::encode;
use minlz::encode_best;
use minlz::encode_better;
use minlz::Reader;
use minlz::Writer;

#[test]
fn test_round_trip_all_levels() {
    let test_cases = vec![
        ("empty", Vec::new()),
        ("single_byte", vec![b'x']),
        ("small_text", b"Hello, World!".to_vec()),
        ("repeated", vec![b'a'; 1000]),
        ("pattern", (0..1000).map(|i| (i % 256) as u8).collect()),
        (
            "lorem",
            b"Lorem ipsum dolor sit amet, consectetur adipiscing elit. ".repeat(100),
        ),
    ];

    for (name, data) in test_cases {
        let compressed = encode(&data);
        let decompressed =
            decode(&compressed).unwrap_or_else(|_| panic!("{}: standard decode failed", name));
        assert_eq!(data, decompressed, "{}: standard round-trip failed", name);

        let compressed_better = encode_better(&data);
        let decompressed_better = decode(&compressed_better)
            .unwrap_or_else(|_| panic!("{}: better decode failed", name));
        assert_eq!(
            data, decompressed_better,
            "{}: better round-trip failed",
            name
        );

        let compressed_best = encode_best(&data);
        let decompressed_best =
            decode(&compressed_best).unwrap_or_else(|_| panic!("{}: best decode failed", name));
        assert_eq!(data, decompressed_best, "{}: best round-trip failed", name);

        if data.len() > 100 {
            assert!(
                compressed_better.len() <= compressed.len(),
                "{}: better should compress better or equal",
                name
            );
            assert!(
                compressed_best.len() <= compressed_better.len(),
                "{}: best should compress better or equal",
                name
            );
        }
    }
}

#[test]
fn test_stream_format_comprehensive() {
    let test_data = vec![
        b"First chunk of data. ".to_vec(),
        b"Second chunk with more information. ".repeat(10),
        vec![b'x'; 1000],
        (0..500).map(|i| (i % 256) as u8).collect(),
    ];

    let mut writer = Writer::new();
    for chunk in &test_data {
        writer.write(chunk).expect("write failed");
    }
    writer.flush().expect("flush failed");
    let compressed = writer.reset();

    let mut reader = Reader::new(compressed);
    let decompressed = reader.read_to_end().expect("read failed");

    let expected: Vec<u8> = test_data.concat();
    assert_eq!(expected, decompressed, "stream round-trip failed");
}

#[test]
fn test_large_data() {
    let data: Vec<u8> = (0u32..100 * 1024)
        .map(|i| (i.wrapping_mul(7919) % 256) as u8)
        .collect();

    let compressed = encode(&data);
    let decompressed = decode(&compressed).expect("large data decode failed");

    assert_eq!(data, decompressed, "large data round-trip failed");
    assert!(
        compressed.len() < data.len(),
        "should achieve some compression on 100KB"
    );
}

#[test]
fn test_highly_compressible() {
    let data = vec![b'A'; 10000];

    let compressed = encode(&data);
    let decompressed = decode(&compressed).expect("highly compressible decode failed");

    assert_eq!(data, decompressed);
    assert!(
        compressed.len() < data.len() / 10,
        "should achieve >90% compression ratio on repeated data"
    );
}

#[test]
fn comprehensive_test_incompressible_data() {
    let data: Vec<u8> = (0u32..1000)
        .map(|i| {
            let x = i.wrapping_mul(31337);
            let y = i.wrapping_mul(i).wrapping_mul(7919);
            (x.wrapping_add(y) % 256) as u8
        })
        .collect();

    let compressed = encode(&data);
    let decompressed = decode(&compressed).expect("incompressible decode failed");

    assert_eq!(data, decompressed);
}

#[test]
fn test_edge_cases() {
    let edge_cases = [
        vec![0u8; 0],
        vec![0u8; 1],
        vec![0u8; 15],
        vec![0u8; 16],
        vec![0u8; 17],
        vec![255u8; 100],
        vec![0u8; 100],
    ];

    for (i, data) in edge_cases.iter().enumerate() {
        let compressed = encode(data);
        let decompressed =
            decode(&compressed).unwrap_or_else(|_| panic!("edge case {} failed", i));
        assert_eq!(data, &decompressed, "edge case {} mismatch", i);
    }
}

#[test]
fn test_copy_operations() {
    let data = b"abcdefgh".repeat(100);

    let compressed = encode(&data);
    let decompressed = decode(&compressed).expect("copy operations decode failed");

    assert_eq!(data, decompressed);
    assert!(
        compressed.len() < data.len() / 5,
        "should compress repeated pattern well"
    );
}

#[test]
fn test_literal_sizes() {
    let test_cases = vec![1, 59, 60, 255, 256, 1000];

    for size in test_cases {
        let data = vec![b'x'; size];
        let compressed = encode(&data);
        let decompressed =
            decode(&compressed).unwrap_or_else(|_| panic!("literal size {} failed", size));
        assert_eq!(data, decompressed, "literal size {} mismatch", size);
    }
}

#[test]
fn test_stream_incremental_read() {
    let data = b"Test data for incremental reading. ".repeat(100);

    let mut writer = Writer::new();
    writer.write(&data).expect("write failed");
    writer.flush().expect("flush failed");
    let compressed = writer.reset();

    let mut reader = Reader::new(compressed);
    let mut decompressed = Vec::new();

    loop {
        match reader.read(64) {
            Ok(chunk) => {
                if chunk.is_empty() {
                    break;
                }
                decompressed.extend_from_slice(&chunk);
            }
            Err(e) => panic!("incremental read failed: {:?}", e),
        }
    }

    assert_eq!(data, decompressed, "incremental read mismatch");
}

#[test]
fn test_compression_levels_quality() {
    let data = b"The quick brown fox jumps over the lazy dog. ".repeat(200);

    let std_compressed = encode(&data);
    let better_compressed = encode_better(&data);
    let best_compressed = encode_best(&data);

    assert_eq!(data, decode(&std_compressed).unwrap());
    assert_eq!(data, decode(&better_compressed).unwrap());
    assert_eq!(data, decode(&best_compressed).unwrap());

    assert!(
        better_compressed.len() <= std_compressed.len(),
        "better should compress as well or better than standard"
    );

    assert!(
        best_compressed.len() <= better_compressed.len(),
        "best should compress as well or better than better"
    );
}
