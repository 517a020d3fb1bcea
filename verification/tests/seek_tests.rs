//! Seeking on positionable sources.

use minlz::Reader;
use minlz::SeekFrom;
use minlz::Writer;

fn compress(data: &[u8]) -> Vec<u8> {
    let mut writer = Writer::new();
    writer.write(data).unwrap();
    writer.flush().unwrap();
    writer.reset()
}

#[test]
fn test_reader_seek_start() {
    let data = b"Hello, World! This is a test of seeking functionality.";
    let compressed = compress(data);

    let mut reader = Reader::new(compressed);

    let buf = reader.read(5).unwrap();
    assert_eq!(&buf, b"Hello");

    let pos = reader.seek(SeekFrom::Start(0)).unwrap();
    assert_eq!(pos, 0);

    let buf = reader.read(5).unwrap();
    assert_eq!(&buf, b"Hello");
}

#[test]
fn test_reader_seek_forward() {
    let data = b"0123456789ABCDEFGHIJKLMNOPQRSTUVWXYZ";
    let compressed = compress(data);

    let mut reader = Reader::new(compressed);

    let pos = reader.seek(SeekFrom::Start(10)).unwrap();
    assert_eq!(pos, 10);

    let buf = reader.read(5).unwrap();
    assert_eq!(&buf, b"ABCDE");
}

#[test]
fn test_reader_seek_current() {
    let data = b"0123456789ABCDEFGHIJKLMNOPQRSTUVWXYZ";
    let compressed = compress(data);

    let mut reader = Reader::new(compressed);

    let buf = reader.read(5).unwrap();
    assert_eq!(&buf, b"01234");

    let pos = reader.seek(SeekFrom::Current(10)).unwrap();
    assert_eq!(pos, 15);

    let buf = reader.read(5).unwrap();
    assert_eq!(&buf, b"FGHIJ");
}

#[test]
fn test_reader_seek_backward() {
    let data = b"0123456789ABCDEFGHIJKLMNOPQRSTUVWXYZ";
    let compressed = compress(data);

    let mut reader = Reader::new(compressed);

    reader.seek(SeekFrom::Start(20)).unwrap();
    let buf = reader.read(5).unwrap();
    assert_eq!(&buf, b"KLMNO");

    let pos = reader.seek(SeekFrom::Start(10)).unwrap();
    assert_eq!(pos, 10);

    let buf = reader.read(5).unwrap();
    assert_eq!(&buf, b"ABCDE");
}

#[test]
fn test_reader_seek_within_buffer() {
    let data = b"0123456789ABCDEFGHIJKLMNOPQRSTUVWXYZ";
    let compressed = compress(data);

    let mut reader = Reader::new(compressed);

    let buf = reader.read(5).unwrap();
    assert_eq!(&buf, b"01234");

    let pos = reader.seek(SeekFrom::Start(2)).unwrap();
    assert_eq!(pos, 2);

    let buf = reader.read(5).unwrap();
    assert_eq!(&buf, b"23456");
}

#[test]
fn test_reader_seek_end_unsupported() {
    let data = b"Test data";
    let compressed = compress(data);

    let mut reader = Reader::new(compressed);

    let result = reader.seek(SeekFrom::End(-5));
    assert!(result.is_err());
    assert_eq!(result.unwrap_err(), minlz::Error::Unsupported);
}

#[test]
fn test_reader_seek_negative() {
    let data = b"Test data";
    let compressed = compress(data);

    let mut reader = Reader::new(compressed);

    let result = reader.seek(SeekFrom::Current(-10));
    assert!(result.is_err());
    assert!(matches!(result.unwrap_err(), minlz::Error::InvalidInput(_)));
}

#[test]
fn test_reader_seek_beyond_eof() {
    let data = b"Short";
    let compressed = compress(data);

    let mut reader = Reader::new(compressed);

    let result = reader.seek(SeekFrom::Start(1000));
    assert!(result.is_err());
}

#[test]
fn test_reader_seek_multiple_chunks() {
    let data = vec![b'A'; 10000];
    let mut writer = Writer::with_block_size(1024);
    writer.write(&data).unwrap();
    writer.flush().unwrap();
    let compressed = writer.reset();

    let mut reader = Reader::new(compressed);

    let pos = reader.seek(SeekFrom::Start(5000)).unwrap();
    assert_eq!(pos, 5000);

    let buf = reader.read(100).unwrap();
    assert_eq!(&buf[..], &[b'A'; 100][..]);
}
