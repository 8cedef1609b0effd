use std::io::Write;
use tantivy::common::{BinarySerializable, CodecError, CountingWriter};
use tantivy::schema::{Facet, Value};

#[test]
fn test_counting_writer() {
    let buffer = Vec::new();
    let mut counting_writer = CountingWriter::from(buffer);
    let data = (0u8..10u8).collect::<Vec<_>>();
    counting_writer.write_all(&data[0..3]).unwrap();
    assert_eq!(counting_writer.bytes_written(), 3);
    counting_writer.write_all(&data[3..6]).unwrap();
    assert_eq!(counting_writer.bytes_written(), 6);
    counting_writer.flush().unwrap();
    let returned_buffer = counting_writer.into_inner();
    assert_eq!(returned_buffer.len(), 6);
}

#[test]
fn test_counting_writer_counts_what_was_accepted() {
    // A fixed slice accepts no more than its length.
    let mut storage = [0u8; 4];
    let mut counting_writer = CountingWriter::from(&mut storage[..]);
    assert_eq!(counting_writer.write(&[1, 2, 3]).unwrap(), 3);
    assert_eq!(counting_writer.write(&[4, 5, 6]).unwrap(), 1);
    assert_eq!(counting_writer.bytes_written(), 4);
    assert_eq!(counting_writer.write(&[7]).unwrap(), 0);
    assert_eq!(counting_writer.bytes_written(), 4);
    assert!(counting_writer.write_all(&[8]).is_err());
    assert_eq!(counting_writer.bytes_written(), 4);
}

#[test]
fn test_counting_writer_records_reports() {
    let mut counting_writer = CountingWriter::from(Vec::new());
    assert_eq!(counting_writer.record(Ok(3)).unwrap(), 3);
    assert_eq!(counting_writer.bytes_written(), 3);
    let failed = counting_writer.record(Err(std::io::Error::new(std::io::ErrorKind::Other, "full")));
    assert_eq!(failed.unwrap_err().kind(), std::io::ErrorKind::Other);
    assert_eq!(counting_writer.bytes_written(), 3);
    assert_eq!(counting_writer.record(Ok(usize::MAX)).unwrap(), usize::MAX);
    assert_eq!(counting_writer.bytes_written(), usize::MAX);
    assert!(counting_writer.into_inner().is_empty());
}

#[test]
fn test_integers_are_little_endian() {
    let mut out = vec![];
    7u8.serialize(&mut out);
    0x0102_0304u32.serialize(&mut out);
    0x0102_0304_0506_0708u64.serialize(&mut out);
    (-2i64).serialize(&mut out);
    assert_eq!(
        out,
        vec![7, 4, 3, 2, 1, 8, 7, 6, 5, 4, 3, 2, 1, 0xfe, 0xff, 0xff, 0xff, 0xff, 0xff, 0xff, 0xff]
    );
    assert_eq!(u8::deserialize(&out, 0), Ok((7, 1)));
    assert_eq!(u32::deserialize(&out, 1), Ok((0x0102_0304, 5)));
    assert_eq!(u64::deserialize(&out, 5), Ok((0x0102_0304_0506_0708, 13)));
    assert_eq!(i64::deserialize(&out, 13), Ok((-2, 21)));
    assert_eq!(u32::deserialize(&out, 18), Err(CodecError::UnexpectedEof));
    assert_eq!(u8::deserialize(&out, 21), Err(CodecError::UnexpectedEof));
}

#[test]
fn test_strings_carry_their_length() {
    let mut out = vec![];
    String::from("héllo").serialize(&mut out);
    assert_eq!(out, vec![6, 0, 0, 0, b'h', 0xc3, 0xa9, b'l', b'l', b'o']);
    assert_eq!(String::deserialize(&out, 0), Ok((String::from("héllo"), 10)));
    assert_eq!(String::deserialize(&out[..9], 0), Err(CodecError::UnexpectedEof));
    assert_eq!(String::deserialize(&[1, 0, 0, 0, 0xff], 0), Err(CodecError::InvalidData));
    assert_eq!(Vec::<u8>::deserialize(&[1, 0, 0, 0, 0xff], 0), Ok((vec![0xff], 5)));
}

#[test]
fn test_value_binary_round_trip() {
    let values = vec![Value::from(String::from("text")), Value::from(3u64), Value::from(-3i64), Value::from_text("")];
    let mut out = vec![];
    for value in &values {
        value.serialize(&mut out);
    }
    let mut pos = 0;
    for value in &values {
        let (read, next) = Value::deserialize(&out, pos).unwrap();
        assert_eq!(&read, value);
        pos = next;
    }
    assert_eq!(pos, out.len());
    assert_eq!(out[0], 0);
    assert_eq!(Value::deserialize(&[3, 0, 0, 0, 0, 0, 0, 0, 0], 0), Err(CodecError::InvalidData));
    assert_eq!(Value::deserialize(&[1, 0, 0], 0), Err(CodecError::UnexpectedEof));
    assert_eq!(Value::deserialize(&[], 0), Err(CodecError::UnexpectedEof));
}

#[test]
fn test_facet_binary_round_trip() {
    let facet = Facet::from_str("/a/b");
    let mut out = vec![];
    facet.serialize(&mut out);
    assert_eq!(out, vec![3, 0, 0, 0, b'a', 31, b'b']);
    let (read, next) = Facet::deserialize(&out, 0).unwrap();
    assert!(read == facet);
    assert_eq!(next, 7);
}

#[test]
fn test_value_accessors() {
    assert_eq!(Value::from_text("abc").text(), "abc");
    assert_eq!(Value::U64(4).u64_value(), 4);
    assert_eq!(Value::I64(-4).i64_value(), -4);
}
