use tantivy::store::layout::{find_block, read_nth_doc, Checkpoint};
use tantivy::store::reader::{doc_of_block, read_index};
use tantivy::store::{StoreError, StoreReader, StoreWriter};

fn document(i: usize) -> Vec<u8> {
    // about 200 bytes each, all different
    let mut doc = format!("document number {} ", i).into_bytes();
    while doc.len() < 200 {
        doc.extend_from_slice(format!("{:x}", i * 31 + doc.len()).as_bytes());
    }
    doc
}

#[test]
fn test_store() {
    let mut writer = StoreWriter::new();
    for i in 0..1000 {
        writer.store(&document(i)).unwrap();
    }
    let file = writer.close().unwrap();
    // the documents take several blocks
    assert!(file.len() < 1000 * 200);
    let reader = StoreReader::from_source(file);
    assert_eq!(reader.num_docs(), 1000);
    let mut blocks = std::collections::BTreeSet::new();
    for i in 0..1000 {
        assert_eq!(reader.get(i as u32), Ok(document(i)));
        blocks.insert(reader.locate(i as u32).unwrap().0);
    }
    assert!(blocks.len() >= 10);
    assert_eq!(reader.get(1000), Err(StoreError::DocNotFound));
}

#[test]
fn test_store_empty_and_small() {
    let file = StoreWriter::new().close().unwrap();
    assert_eq!(file, vec![0; 12]);
    let reader = StoreReader::from_source(file);
    assert_eq!(reader.num_docs(), 0);
    assert_eq!(reader.get(0), Err(StoreError::DocNotFound));

    let mut writer = StoreWriter::new();
    writer.store(b"").unwrap();
    writer.store(b"second").unwrap();
    let file = writer.close().unwrap();
    // one block, one entry in the index: its first doc, the offset after the block
    let index_offset = u64::from_le_bytes(file[file.len() - 12..file.len() - 4].try_into().unwrap()) as usize;
    assert_eq!(file.len() - 12 - index_offset, 12);
    assert_eq!(&file[index_offset..index_offset + 4], &0u32.to_le_bytes());
    assert_eq!(&file[index_offset + 4..index_offset + 12], &(index_offset as u64).to_le_bytes());
    assert_eq!(&file[file.len() - 4..], &2u32.to_le_bytes());
    let compressed_len = u32::from_le_bytes(file[0..4].try_into().unwrap()) as usize;
    assert_eq!(compressed_len + 4, index_offset);
    let reader = StoreReader::from_source(file);
    assert_eq!(reader.get(0), Ok(vec![]));
    assert_eq!(reader.get(1), Ok(b"second".to_vec()));
    assert_eq!(reader.locate(1), Ok((4, compressed_len, 1)));
}

#[test]
fn test_store_rejects_broken_files() {
    assert_eq!(StoreReader::from_source(vec![1, 2, 3]).get(0), Err(StoreError::Corrupted));
    assert_eq!(StoreReader::from_source(vec![1, 2, 3]).num_docs(), 0);
    let mut writer = StoreWriter::new();
    writer.store(b"one").unwrap();
    let good = writer.close().unwrap();
    // an index offset past the end
    let mut file = good.clone();
    let n = file.len();
    file[n - 12..n - 4].copy_from_slice(&(n as u64).to_le_bytes());
    assert_eq!(StoreReader::from_source(file).get(0), Err(StoreError::Corrupted));
    // an index that is no whole number of entries
    let mut file = good.clone();
    file[n - 12..n - 4].copy_from_slice(&((n - 12 - 5) as u64).to_le_bytes());
    assert_eq!(StoreReader::from_source(file).get(0), Err(StoreError::Corrupted));
    // a frame that is no lz4 frame
    let mut file = good.clone();
    for byte in &mut file[4..12] {
        *byte = 0xff;
    }
    assert_eq!(StoreReader::from_source(file).get(0), Err(StoreError::Compression));
    // more docs announced than the index covers
    let mut file = good;
    file[n - 4..].copy_from_slice(&2u32.to_le_bytes());
    assert_eq!(StoreReader::from_source(file).get(1), Err(StoreError::Corrupted));
}

#[test]
fn test_store_block_walk() {
    let block = [&3u32.to_le_bytes()[..], b"abc", &0u32.to_le_bytes()[..], &2u32.to_le_bytes()[..], b"de"].concat();
    assert_eq!(read_nth_doc(&block, 0), Some(b"abc".to_vec()));
    assert_eq!(read_nth_doc(&block, 1), Some(vec![]));
    assert_eq!(read_nth_doc(&block, 2), Some(b"de".to_vec()));
    assert_eq!(read_nth_doc(&block, 3), None);
    assert_eq!(read_nth_doc(&block[..block.len() - 1], 2), None);
    assert_eq!(doc_of_block(Some(block.clone()), 2), Ok(b"de".to_vec()));
    assert_eq!(doc_of_block(Some(block), 3), Err(StoreError::Corrupted));
    assert_eq!(doc_of_block(None, 0), Err(StoreError::Compression));
}

#[test]
fn test_store_index() {
    let index = vec![
        Checkpoint { doc: 0, offset: 100 },
        Checkpoint { doc: 3, offset: 250 },
        Checkpoint { doc: 7, offset: 300 },
    ];
    assert_eq!(find_block(&index, 0), Some(0));
    assert_eq!(find_block(&index, 2), Some(0));
    assert_eq!(find_block(&index, 3), Some(1));
    assert_eq!(find_block(&index, 6), Some(1));
    assert_eq!(find_block(&index, 7), Some(2));
    assert_eq!(find_block(&index, 800), Some(2));
    assert_eq!(find_block(&vec![Checkpoint { doc: 3, offset: 250 }], 2), None);
    assert_eq!(find_block(&Vec::new(), 0), None);
    let mut bytes = vec![];
    for entry in &index {
        bytes.extend_from_slice(&entry.doc.to_le_bytes());
        bytes.extend_from_slice(&entry.offset.to_le_bytes());
    }
    let read = read_index(&bytes).unwrap();
    assert_eq!(read.len(), 3);
    assert_eq!((read[1].doc, read[1].offset), (3, 250));
    assert!(read_index(&bytes[..35]).is_none());
}
