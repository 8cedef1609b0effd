use tantivy::fastfield::bitpacked::{compute_num_bits, BitWriter, ColumnError};
use tantivy::fastfield::multivalued::reader::MultiValueError;
use tantivy::fastfield::{
    FastFieldSerializer, FastSingleFieldSerializer, MultiValueIntFastFieldReader, MultiValueIntFastFieldWriter,
    U64FastFieldReader,
};
use tantivy::schema::Field;

fn write_column(values: &[u64], min: u64, max: u64) -> Vec<u8> {
    let mut serializer = FastSingleFieldSerializer::open(min, max);
    for &value in values {
        serializer.add_val(value);
    }
    serializer.close_field()
}

#[test]
fn test_fastfield_round_trip() {
    let cases: Vec<Vec<u64>> = vec![
        vec![],
        vec![7],
        vec![7, 7, 7],
        vec![0, 1, 2, 3, 1000, 5],
        vec![u64::MAX, 0, u64::MAX - 1, 1 << 63],
        vec![10_000, 10_001, 10_255, 10_256],
        (0..1000).map(|i| (i * 7919) % 1021 + 5).collect(),
    ];
    for values in cases {
        let min = values.iter().cloned().min().unwrap_or(0);
        let max = values.iter().cloned().max().unwrap_or(0);
        let bytes = write_column(&values, min, max);
        assert_eq!(bytes.len() % 8, 0);
        let reader = U64FastFieldReader::open(bytes, values.len()).unwrap();
        assert_eq!(reader.num_vals(), values.len());
        for (i, &value) in values.iter().enumerate() {
            assert_eq!(reader.get(i), value);
        }
    }
}

#[test]
fn test_fastfield_layout() {
    // min 5, three bits per value: 0b000, 0b111, 0b010 from the lowest bit up
    let bytes = write_column(&[5, 12, 7], 5, 12);
    assert_eq!(&bytes[..8], &5u64.to_le_bytes());
    assert_eq!(bytes[8], 3);
    assert_eq!(bytes[9], 0b10_111_000);
    assert_eq!(bytes[10], 0b0);
    assert_eq!(bytes.len(), 16);
    // a constant column takes no bits at all
    let bytes = write_column(&[9, 9, 9, 9], 9, 9);
    assert_eq!(bytes[8], 0);
    assert_eq!(bytes.len(), 16);
}

#[test]
fn test_compute_num_bits() {
    assert_eq!(compute_num_bits(0), 0);
    assert_eq!(compute_num_bits(1), 1);
    assert_eq!(compute_num_bits(2), 2);
    assert_eq!(compute_num_bits(3), 2);
    assert_eq!(compute_num_bits(4), 3);
    assert_eq!(compute_num_bits(255), 8);
    assert_eq!(compute_num_bits(256), 9);
    assert_eq!(compute_num_bits(u64::MAX), 64);
}

#[test]
fn test_bit_writer() {
    let mut writer = BitWriter::new(vec![0xaa]);
    writer.write_bit(1);
    writer.write_bits(0b101, 3);
    writer.write_bits(0xffff, 6);
    let bytes = writer.close();
    assert_eq!(bytes, vec![0xaa, 0b1111_1011, 0b0000_0011, 0, 0, 0, 0, 0]);
}

#[test]
fn test_fastfield_open_errors() {
    assert!(matches!(U64FastFieldReader::open(vec![0; 8], 0), Err(ColumnError::TruncatedHeader)));
    let mut bytes = vec![0u8; 9];
    bytes[8] = 65;
    assert!(matches!(U64FastFieldReader::open(bytes, 0), Err(ColumnError::BadBitWidth)));
    let bytes = write_column(&[1, 2, 3], 1, 3);
    assert!(U64FastFieldReader::open(bytes.clone(), 28).is_ok());
    assert!(matches!(U64FastFieldReader::open(bytes, 29), Err(ColumnError::TruncatedValues)));
}

#[test]
fn test_multivalued_round_trip() {
    let docs: Vec<Vec<u64>> = vec![vec![3, 1], vec![], vec![7], vec![], vec![1 << 40, 0, 5]];
    let mut writer = MultiValueIntFastFieldWriter::new(Field(4));
    assert_eq!(writer.field(), Field(4));
    for doc in &docs {
        writer.next_doc();
        for &val in doc {
            writer.add_val(val);
        }
    }
    let mut serializer = FastFieldSerializer::new();
    writer.serialize(&mut serializer);
    let mut columns = serializer.close();
    assert_eq!(columns.len(), 2);
    let vals = columns.pop().unwrap();
    let idx = columns.pop().unwrap();
    assert_eq!((idx.field, idx.idx), (Field(4), 0));
    assert_eq!((vals.field, vals.idx), (Field(4), 1));
    // the index column closes with the number of values
    let idx_reader = U64FastFieldReader::open(idx.data, docs.len() + 1).unwrap();
    assert_eq!(idx_reader.get(0), 0);
    assert_eq!(idx_reader.get(4), 3);
    assert_eq!(idx_reader.get(5), 6);
    let vals_reader = U64FastFieldReader::open(vals.data, 6).unwrap();
    let mut reader = MultiValueIntFastFieldReader::open(idx_reader, vals_reader).unwrap();
    assert_eq!(reader.len(), docs.len());
    for (doc, expected) in docs.iter().enumerate() {
        assert_eq!(reader.get_vals(doc as u32), &expected[..]);
        let mut out = vec![1, 2, 3];
        reader.get_vals_into(doc as u32, &mut out);
        assert_eq!(&out, expected);
    }
}

#[test]
fn test_multivalued_open_errors() {
    let column = |values: &[u64]| {
        let max = values.iter().cloned().max().unwrap_or(0);
        U64FastFieldReader::open(write_column(values, 0, max), values.len()).unwrap()
    };
    assert!(matches!(
        MultiValueIntFastFieldReader::open(column(&[]), column(&[])),
        Err(MultiValueError::MissingSentinel)
    ));
    assert!(matches!(
        MultiValueIntFastFieldReader::open(column(&[0, 2, 1, 3]), column(&[5, 5, 5])),
        Err(MultiValueError::BadOffsets)
    ));
    assert!(matches!(
        MultiValueIntFastFieldReader::open(column(&[0, 2]), column(&[5, 5, 5])),
        Err(MultiValueError::BadOffsets)
    ));
    assert!(MultiValueIntFastFieldReader::open(column(&[0]), column(&[])).is_ok());
}
