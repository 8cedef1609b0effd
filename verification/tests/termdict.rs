use tantivy::common::BinarySerializable;
use tantivy::datastruct::{FstMap, FstMapBuilder};
use tantivy::termdict::{TermDictionaryBuilderImpl, TermInfo, TermMerger};

fn info(n: u32) -> TermInfo {
    TermInfo { doc_freq: n, postings_offset: n as u64 * 10, positions_offset: n as u64 * 100, positions_inner_offset: 1 }
}

fn keys(n: u32) -> Vec<Vec<u8>> {
    (0..n).map(|i| format!("term{:04}", i).into_bytes()).collect()
}

#[test]
fn test_term_info_binary_form() {
    let mut out = vec![];
    info(3).serialize(&mut out);
    assert_eq!(out.len(), 28);
    assert_eq!(&out[..4], &3u32.to_le_bytes());
    assert_eq!(&out[4..12], &30u64.to_le_bytes());
    assert_eq!(TermInfo::deserialize(&out, 0), Ok((info(3), 28)));
    assert!(TermInfo::deserialize(&out[..27], 0).is_err());
    assert_eq!(TermInfo::default().doc_freq, 0);
}

#[test]
fn test_fstmap_stream_in_order() {
    for block_size in [0usize, 30, 100_000] {
        let mut builder: FstMapBuilder<u32> = FstMapBuilder::with_block_size(block_size);
        let keys = keys(200);
        for (i, key) in keys.iter().enumerate() {
            builder.insert(key, &(i as u32)).unwrap();
        }
        let map: FstMap<u32> = builder.into_map().unwrap();
        assert_eq!(map.keys(), keys);
        let mut stream = map.range().into_stream();
        let mut seen = 0;
        assert_eq!(stream.peek_key(), Some(&keys[0][..]));
        while stream.next() {
            assert_eq!(stream.key(), &keys[seen][..]);
            assert_eq!(*stream.value(), seen as u32);
            assert_eq!(stream.ord(), seen);
            seen += 1;
        }
        assert_eq!(seen, 200);
        assert!(!stream.next());
        assert_eq!(stream.peek_key(), None);
    }
}

#[test]
fn test_fstmap_range_bounds() {
    let mut builder: FstMapBuilder<u32> = FstMapBuilder::with_block_size(16);
    for (i, key) in ["a", "b", "c", "d", "e"].iter().enumerate() {
        builder.insert(key.as_bytes(), &(i as u32)).unwrap();
    }
    let map = builder.into_map().unwrap();
    let collect = |mut stream: tantivy::datastruct::FstMapStreamer<u32>| {
        let mut out = vec![];
        while stream.next() {
            out.push((stream.key().to_vec(), *stream.value(), stream.ord()));
        }
        out
    };
    let keys_of = |items: Vec<(Vec<u8>, u32, usize)>| -> Vec<u8> { items.iter().map(|item| item.0[0]).collect() };
    assert_eq!(keys_of(collect(map.range().ge(b"b").lt(b"e").into_stream())), b"bcd".to_vec());
    assert_eq!(keys_of(collect(map.range().gt(b"b").le(b"e").into_stream())), b"cde".to_vec());
    assert_eq!(keys_of(collect(map.range().ge(b"bb").into_stream())), b"cde".to_vec());
    assert_eq!(keys_of(collect(map.range().lt(b"a").into_stream())), b"".to_vec());
    assert_eq!(keys_of(collect(map.range().ge(b"d").lt(b"b").into_stream())), b"".to_vec());
    assert_eq!(keys_of(collect(map.range().gt(b"e").into_stream())), b"".to_vec());
    // the ordinal is the rank in the whole map, whatever the bounds
    assert_eq!(collect(map.range().ge(b"d").into_stream()), vec![(b"d".to_vec(), 3, 3), (b"e".to_vec(), 4, 4)]);
}

#[test]
fn test_term_dictionary() {
    let mut builder = TermDictionaryBuilderImpl::new(40);
    let keys = keys(50);
    for (i, key) in keys.iter().enumerate() {
        builder.insert(key, &info(i as u32)).unwrap();
    }
    let dictionary = builder.into_dictionary().unwrap();
    assert_eq!(dictionary.num_terms(), 50);
    assert_eq!(dictionary.get(&keys[17]), Some(info(17)));
    assert_eq!(dictionary.get(b"term"), None);
    let mut bytes = vec![1, 2, 3];
    assert!(dictionary.ord_to_term(49, &mut bytes));
    assert_eq!(bytes, keys[49]);
    assert!(!dictionary.ord_to_term(50, &mut bytes));
    assert!(bytes.is_empty());
    let mut stream = dictionary.range().ge(&keys[48]).into_stream();
    assert!(stream.next());
    assert_eq!((stream.key(), *stream.value(), stream.ord()), (&keys[48][..], info(48), 48));
}

#[test]
fn test_term_dictionary_file_round_trip() {
    let mut builder = TermDictionaryBuilderImpl::new(10);
    builder.insert(b"a", &info(1)).unwrap();
    builder.insert(b"b", &info(2)).unwrap();
    let file = builder.finish().unwrap();
    let map: FstMap<TermInfo> = FstMap::from_source(file).unwrap();
    assert_eq!(map.get(b"b"), Some(info(2)));
}

#[test]
fn test_term_merger_groups_equal_terms() {
    let build = |terms: &[&str]| {
        let mut builder = TermDictionaryBuilderImpl::new(16);
        for (i, term) in terms.iter().enumerate() {
            builder.insert(term.as_bytes(), &info(i as u32)).unwrap();
        }
        builder.into_dictionary().unwrap()
    };
    let first = build(&["a", "c", "d"]);
    let second = build(&["b", "c"]);
    let third = build(&[]);
    let fourth = build(&["a", "c", "e"]);
    let streams = vec![
        first.range().into_stream(),
        second.range().into_stream(),
        third.range().into_stream(),
        fourth.range().into_stream(),
    ];
    let mut merger = TermMerger::new(streams);
    let mut seen = vec![];
    while merger.advance() {
        let group: Vec<(usize, usize)> =
            merger.current_kvs().iter().map(|&segment| (segment, merger.streamer(segment).ord())).collect();
        seen.push((merger.key().to_vec(), group));
    }
    assert_eq!(
        seen,
        vec![
            (b"a".to_vec(), vec![(0, 0), (3, 0)]),
            (b"b".to_vec(), vec![(1, 0)]),
            (b"c".to_vec(), vec![(0, 1), (1, 1), (3, 1)]),
            (b"d".to_vec(), vec![(0, 2)]),
            (b"e".to_vec(), vec![(3, 2)]),
        ]
    );
    assert!(!merger.advance());
    assert!(merger.current_kvs().is_empty());
}
