use tantivy::datastruct::fst_block::block_payload;
use tantivy::datastruct::fst_builder::append_block;
use tantivy::datastruct::lex::{key_eq, key_lt};
use tantivy::datastruct::{DictionaryError, FstMap, FstMapBuilder};

#[test]
fn test_fstmap() {
    let file = {
        let mut fstmap_builder = FstMapBuilder::new().unwrap();
        fstmap_builder.insert("abc".as_bytes(), &34u32).unwrap();
        fstmap_builder.insert("abcd".as_bytes(), &346u32).unwrap();
        fstmap_builder.finish().unwrap()
    };
    let fstmap: FstMap<u32> = FstMap::from_source(file).unwrap();
    assert_eq!(fstmap.get("abc".as_bytes()), Some(34u32));
    assert_eq!(fstmap.get("abcd".as_bytes()), Some(346u32));
    let keys = fstmap.keys();
    let mut keys = keys.iter();
    assert_eq!(keys.next().unwrap(), "abc".as_bytes());
    assert_eq!(keys.next().unwrap(), "abcd".as_bytes());
    assert_eq!(keys.next(), None);
    assert_eq!(fstmap.get("ab".as_bytes()), None);
    assert_eq!(fstmap.get("abcde".as_bytes()), None);
    assert_eq!(fstmap.get("".as_bytes()), None);
}

#[test]
fn test_fstmap_empty() {
    let builder: FstMapBuilder<u64> = FstMapBuilder::new().unwrap();
    let file = builder.finish().unwrap();
    // No block at all: the footer says depth 0.
    assert_eq!(file, vec![0, 0, 0, 0, 0, 0, 0, 0, 0]);
    let fstmap: FstMap<u64> = FstMap::from_source(file).unwrap();
    assert_eq!(fstmap.get(b"a"), None);
}

#[test]
fn test_fstmap_footer_layout() {
    let mut builder: FstMapBuilder<u8> = FstMapBuilder::new().unwrap();
    builder.insert(b"k", &7u8).unwrap();
    let file = builder.finish().unwrap();
    // The value comes first, then the one block, then the footer.
    assert_eq!(file[0], 7);
    let depth = file[file.len() - 1];
    assert_eq!(depth, 1);
    let mut top = [0u8; 8];
    top.copy_from_slice(&file[file.len() - 9..file.len() - 1]);
    assert_eq!(u64::from_le_bytes(top), 1);
    let payload = block_payload(&file, 1).unwrap();
    assert_eq!(payload.len(), file.len() - 9 - 1 - 4);
}

#[test]
fn test_fstmap_cascade_round_trip() {
    for block_size in [0usize, 1, 40, 300, 100_000] {
        let mut builder: FstMapBuilder<u64> = FstMapBuilder::with_block_size(block_size);
        let keys: Vec<Vec<u8>> = (0u32..700).map(|i| format!("key{:05}", i * 3).into_bytes()).collect();
        for (i, key) in keys.iter().enumerate() {
            builder.insert_key(key).unwrap();
            builder.insert_value(&(i as u64 * 10)).unwrap();
        }
        let file = builder.finish().unwrap();
        let depth = file[file.len() - 1];
        if block_size == 100_000 {
            assert_eq!(depth, 1);
        } else {
            assert!(depth > 1);
        }
        let fstmap: FstMap<u64> = FstMap::from_source(file).unwrap();
        for (i, key) in keys.iter().enumerate() {
            assert_eq!(fstmap.get(key), Some(i as u64 * 10));
        }
        for i in 0u32..700 {
            let absent = format!("key{:05}", i * 3 + 1).into_bytes();
            assert_eq!(fstmap.get(&absent), None);
        }
        assert_eq!(fstmap.get(b"a"), None);
        assert_eq!(fstmap.get(b"z"), None);
    }
}

#[test]
fn test_fstmap_into_map_with_strings() {
    let mut builder: FstMapBuilder<String> = FstMapBuilder::with_block_size(8);
    builder.insert(b"", &String::from("root")).unwrap();
    builder.insert(b"a", &String::from("")).unwrap();
    builder.insert(b"a\x00", &String::from("nul")).unwrap();
    builder.insert(b"b", &String::from("bé")).unwrap();
    let fstmap = builder.into_map().unwrap();
    assert_eq!(fstmap.get(b""), Some(String::from("root")));
    assert_eq!(fstmap.get(b"a"), Some(String::from("")));
    assert_eq!(fstmap.get(b"a\x00"), Some(String::from("nul")));
    assert_eq!(fstmap.get(b"b"), Some(String::from("bé")));
    assert_eq!(fstmap.get(b"c"), None);
}

#[test]
fn test_fstmap_rejects_truncated_files() {
    assert!(matches!(FstMap::<u32>::from_source(vec![]), Err(DictionaryError::TruncatedFooter)));
    assert!(matches!(FstMap::<u32>::from_source(vec![0; 8]), Err(DictionaryError::TruncatedFooter)));
    // Depth 1 with a top block that would start past the end.
    let mut file = vec![0u8; 4];
    file.extend_from_slice(&100u64.to_le_bytes());
    file.push(1);
    assert!(matches!(FstMap::<u32>::from_source(file), Err(DictionaryError::BlockOverrun)));
    // A length prefix that reaches past the end.
    let mut file = vec![200u8, 0, 0, 0, 1, 2];
    file.extend_from_slice(&0u64.to_le_bytes());
    file.push(1);
    assert!(matches!(FstMap::<u32>::from_source(file), Err(DictionaryError::BlockOverrun)));
}

#[test]
fn test_append_block_frames_the_payload() {
    let mut file = vec![1u8, 2];
    assert_eq!(append_block(&mut file, vec![7, 8, 9]), Ok(2));
    assert_eq!(file, vec![1, 2, 3, 0, 0, 0, 7, 8, 9]);
    assert_eq!(block_payload(&file, 2), Some(&[7u8, 8, 9][..]));
    assert_eq!(block_payload(&file, 6), None);
    assert_eq!(block_payload(&file, 100), None);
}

#[test]
fn test_key_order_is_lexicographic() {
    assert!(key_lt(b"", b"a"));
    assert!(key_lt(b"a", b"ab"));
    assert!(key_lt(b"ab", b"b"));
    assert!(key_lt(b"a\x00", b"a\x01"));
    assert!(!key_lt(b"b", b"ab"));
    assert!(!key_lt(b"a", b"a"));
    assert!(!key_lt(b"a", b""));
    assert!(key_eq(b"abc", b"abc"));
    assert!(!key_eq(b"abc", b"abd"));
    assert!(!key_eq(b"abc", b"ab"));
}

#[test]
fn test_fstmap_rejects_a_top_block_that_is_no_transducer() {
    let mut file = vec![4u8, 0, 0, 0, 1, 2, 3, 4];
    file.extend_from_slice(&0u64.to_le_bytes());
    file.push(1);
    assert!(matches!(FstMap::<u32>::from_source(file), Err(DictionaryError::NotATransducer)));
    // without levels there is no block to open
    let mut file = vec![4u8, 0, 0, 0, 1, 2, 3, 4];
    file.extend_from_slice(&0u64.to_le_bytes());
    file.push(0);
    let map = FstMap::<u32>::from_source(file).unwrap();
    assert_eq!(map.get(b"abc"), None);
}

#[test]
fn test_fstmap_builder_writes_full_levels_out() {
    // with blocks of 20 bytes, two keys of 4 bytes fill a level: 24 bytes
    let mut small: FstMapBuilder<u32> = FstMapBuilder::with_block_size(20);
    let mut large: FstMapBuilder<u32> = FstMapBuilder::with_block_size(1 << 20);
    for (i, key) in [b"key1", b"key2", b"key3", b"key4", b"key5"].iter().enumerate() {
        small.insert(&key[..], &(i as u32)).unwrap();
        large.insert(&key[..], &(i as u32)).unwrap();
    }
    let small = small.finish().unwrap();
    let large = large.finish().unwrap();
    // one level and one block in the large file, more of both in the small one
    assert_eq!(large[large.len() - 1], 1);
    assert_eq!(small[small.len() - 1], 3);
    assert!(small.len() > large.len());
    // the first block of the small file stands right behind the first two values
    assert_eq!(block_payload(&small, 8).map(|block| fst::Map::new(block).unwrap().len()), Some(2));
    for file in [small, large] {
        let map = FstMap::<u32>::from_source(file).unwrap();
        assert_eq!(map.get(b"key1"), Some(0));
        assert_eq!(map.get(b"key5"), Some(4));
        assert_eq!(map.get(b"key6"), None);
    }
}
