use tantivy::common::vint::read_vint;
use tantivy::compression::CompressedIntStream;
use tantivy::fastfield::DeleteBitSet;
use tantivy::postings::block_segment_postings::{holds_postings, NUM_DOCS_PER_BLOCK};
use tantivy::postings::docset::skip_by_advancing;
use tantivy::postings::{BlockSegmentPostings, DocSet, FreqReadingOption, SegmentPostings, SkipResult, VecPostings};
use tantivy::schema::{Field, IndexRecordOption, Term};
use tantivy::segment::inverted_index_reader::{freq_reading_option, PostingsError};
use tantivy::segment::InvertedIndexReader;
use tantivy::termdict::{TermDictionaryBuilderImpl, TermInfo};

fn vint(mut value: u64, out: &mut Vec<u8>) {
    loop {
        let byte = (value & 127) as u8;
        value >>= 7;
        if value == 0 {
            out.push(byte | 128);
            return;
        }
        out.push(byte);
    }
}

fn postings(docs: &[(u32, u32)], with_freq: bool) -> Vec<u8> {
    let mut out = vec![];
    let mut prev = 0;
    for (i, &(doc, tf)) in docs.iter().enumerate() {
        vint(if i == 0 { doc as u64 } else { (doc - prev) as u64 }, &mut out);
        if with_freq {
            vint(tf as u64, &mut out);
        }
        prev = doc;
    }
    out
}

#[test]
fn test_vint() {
    for value in [0u64, 1, 127, 128, 300, 1 << 21, u32::MAX as u64, u64::MAX] {
        let mut bytes = vec![9];
        vint(value, &mut bytes);
        bytes.push(7);
        assert_eq!(read_vint(&bytes, 1), Some((value, bytes.len() - 1)));
    }
    assert_eq!(read_vint(&[0x81], 0), Some((1, 1)));
    assert_eq!(read_vint(&[0x01, 0x81], 0), Some((129, 2)));
    assert_eq!(read_vint(&[0x01, 0x01], 0), None);
    assert_eq!(read_vint(&[], 0), None);
    assert_eq!(read_vint(&[0; 11], 0), None);
}

#[test]
fn test_block_postings() {
    let docs: Vec<(u32, u32)> = (0..300).map(|i| (i * 3 + 1, i % 5 + 1)).collect();
    let data = postings(&docs, true);
    let mut block = BlockSegmentPostings::from_data(docs.len(), &data, FreqReadingOption::ReadFreq);
    assert_eq!(block.doc_freq(), 300);
    assert!(block.docs().is_empty());
    let mut seen = vec![];
    let mut sizes = vec![];
    while block.advance() {
        sizes.push(block.docs().len());
        for (doc, tf) in block.docs().iter().zip(block.freqs()) {
            seen.push((*doc, *tf));
        }
    }
    assert_eq!(sizes, vec![NUM_DOCS_PER_BLOCK, NUM_DOCS_PER_BLOCK, 44]);
    assert_eq!(seen, docs);
    assert!(!block.advance());
    assert!(block.docs().is_empty());
    // frequencies that are there but not asked for are passed over
    let mut block = BlockSegmentPostings::from_data(docs.len(), &data, FreqReadingOption::SkipFreq);
    assert!(block.advance());
    assert_eq!(block.docs()[1], 4);
    assert!(block.freqs().is_empty());
    // resetting starts over on other postings
    let other = postings(&[(5, 2), (9, 1)], true);
    block.reset(2, &other);
    assert!(block.advance());
    assert_eq!(block.docs(), &[5, 9]);
    // postings without frequencies
    let bare = postings(&docs, false);
    let mut block = BlockSegmentPostings::from_data(docs.len(), &bare, FreqReadingOption::NoFreq);
    assert!(block.advance());
    assert_eq!(block.docs()[127], 127 * 3 + 1);
}

#[test]
fn test_segment_postings_skip_deleted() {
    let docs: Vec<(u32, u32)> = vec![(0, 1), (1, 2), (5, 3), (8, 1), (9, 7), (200, 2)];
    let data = postings(&docs, true);
    // docs 1, 8 and 9 are deleted
    let deleted = DeleteBitSet::open(vec![0b0000_0010, 0b0000_0011]);
    assert!(deleted.is_deleted(1) && deleted.is_deleted(8) && deleted.is_deleted(9));
    assert!(!deleted.is_deleted(0) && !deleted.is_deleted(200));
    let block = BlockSegmentPostings::from_data(docs.len(), &data, FreqReadingOption::ReadFreq);
    let mut segment_postings = SegmentPostings::from_block_postings(block, &deleted, None);
    assert_eq!(segment_postings.size_hint(), 6);
    let mut seen = vec![];
    while segment_postings.advance() {
        seen.push((segment_postings.doc(), segment_postings.term_freq()));
    }
    assert_eq!(seen, vec![(0, 1), (5, 3), (200, 2)]);
    assert!(!segment_postings.advance());

    let block = BlockSegmentPostings::from_data(docs.len(), &data, FreqReadingOption::SkipFreq);
    let mut segment_postings = SegmentPostings::from_block_postings(block, &deleted, None);
    assert_eq!(segment_postings.skip_next(1), SkipResult::OverStep);
    assert_eq!(segment_postings.doc(), 5);
    assert_eq!(segment_postings.term_freq(), 1);
    assert_eq!(segment_postings.skip_next(200), SkipResult::Reached);
    assert_eq!(segment_postings.skip_next(200), SkipResult::End);
}

#[test]
fn test_skip_by_advancing() {
    let mut postings = VecPostings::from(vec![1, 3, 7, 8]);
    assert_eq!(skip_by_advancing(&mut postings, 3), SkipResult::Reached);
    assert_eq!(skip_by_advancing(&mut postings, 3), SkipResult::OverStep);
    assert_eq!(postings.doc(), 7);
    assert_eq!(skip_by_advancing(&mut postings, 9), SkipResult::End);
}

#[test]
fn test_compressed_int_stream() {
    let mut data = vec![];
    for value in [3u64, 300, 0, 70000] {
        vint(value, &mut data);
    }
    let mut stream = CompressedIntStream::wrap(&data);
    stream.skip(1);
    assert_eq!(stream.read(), Some(300));
    stream.skip(5);
    assert_eq!(stream.read(), None);
    let mut stream = CompressedIntStream::wrap(&data);
    stream.skip(0);
    assert_eq!(stream.read(), Some(3));
}

#[test]
fn test_freq_reading_option() {
    let (basic, freqs, positions) =
        (IndexRecordOption::Basic, IndexRecordOption::WithFreqs, IndexRecordOption::WithFreqsAndPositions);
    assert_eq!(freq_reading_option(basic, basic), FreqReadingOption::NoFreq);
    assert_eq!(freq_reading_option(basic, positions), FreqReadingOption::NoFreq);
    assert_eq!(freq_reading_option(freqs, basic), FreqReadingOption::SkipFreq);
    assert_eq!(freq_reading_option(positions, basic), FreqReadingOption::SkipFreq);
    assert_eq!(freq_reading_option(freqs, freqs), FreqReadingOption::ReadFreq);
    assert_eq!(freq_reading_option(freqs, positions), FreqReadingOption::ReadFreq);
    assert!(!basic.has_freq() && freqs.has_freq() && positions.has_freq());
    assert!(!basic.has_positions() && !freqs.has_positions() && positions.has_positions());
}

fn reader(record_option: IndexRecordOption) -> InvertedIndexReader {
    let with_freq = record_option != IndexRecordOption::Basic;
    let lists: Vec<(&str, Vec<(u32, u32)>)> =
        vec![("apple", vec![(1, 2), (4, 1), (6, 1)]), ("berry", vec![(0, 1)]), ("cherry", vec![(4, 3), (5, 1)])];
    let mut postings_file = 17u64.to_le_bytes().to_vec();
    let mut positions_file = vec![];
    let mut builder = TermDictionaryBuilderImpl::new(1 << 20);
    for (term, docs) in &lists {
        let info = TermInfo {
            doc_freq: docs.len() as u32,
            postings_offset: postings_file.len() as u64,
            positions_offset: positions_file.len() as u64,
            positions_inner_offset: 1,
        };
        postings_file.extend_from_slice(&postings(docs, with_freq));
        for position in 0..4u64 {
            vint(position * 10, &mut positions_file);
        }
        builder.insert(term.as_bytes(), &info).unwrap();
    }
    let dictionary = builder.into_dictionary().unwrap();
    let deleted = DeleteBitSet::open(vec![0b0001_0000]);
    InvertedIndexReader::new(dictionary, postings_file, positions_file, deleted, record_option)
}

#[test]
fn test_inverted_index_reader() {
    let field = Field(1);
    let apple = Term::from_field_bytes(field, b"apple".to_vec());
    let cherry = Term::from_field_bytes(field, b"cherry".to_vec());
    let absent = Term::from_field_bytes(field, b"durian".to_vec());
    assert_eq!(apple.field(), field);
    assert_eq!(apple.value_bytes(), b"apple");
    assert_eq!(Term::from_field_u64(field, 0x0102).value_bytes(), &[0, 0, 0, 0, 0, 0, 1, 2]);
    for record_option in
        [IndexRecordOption::Basic, IndexRecordOption::WithFreqs, IndexRecordOption::WithFreqsAndPositions]
    {
        let reader = reader(record_option);
        assert_eq!(reader.total_num_tokens(), 17);
        assert_eq!(reader.doc_freq(&apple), 3);
        assert_eq!(reader.doc_freq(&absent), 0);
        assert_eq!(reader.get_term_info(&cherry).unwrap().doc_freq, 2);
        assert!(reader.get_term_info(&absent).is_none());
        assert_eq!(reader.terms().num_terms(), 3);
        assert!(reader.read_postings(&absent, IndexRecordOption::Basic).is_none());
        // doc 4 is deleted
        let mut postings = reader.read_postings(&apple, IndexRecordOption::WithFreqs).unwrap();
        let mut seen = vec![];
        while postings.advance() {
            seen.push((postings.doc(), postings.term_freq()));
        }
        if record_option == IndexRecordOption::Basic {
            assert_eq!(seen, vec![(1, 1), (6, 1)]);
        } else {
            assert_eq!(seen, vec![(1, 2), (6, 1)]);
        }
        let info = reader.get_term_info(&cherry).unwrap();
        let mut block = reader.read_block_postings_from_terminfo(&info, IndexRecordOption::Basic);
        assert!(block.advance());
        assert_eq!(block.docs(), &[4, 5]);
        assert!(block.freqs().is_empty());
        let apple_info = reader.get_term_info(&apple).unwrap();
        reader.reset_block_postings_from_terminfo(&apple_info, &mut block);
        assert!(block.advance());
        assert_eq!(block.docs(), &[1, 4, 6]);
        let mut postings = reader.read_postings_from_terminfo(&info, IndexRecordOption::WithFreqsAndPositions);
        assert!(postings.advance());
        assert_eq!(postings.doc(), 5);
    }
    let short = InvertedIndexReader::new(
        TermDictionaryBuilderImpl::new(16).into_dictionary().unwrap(),
        vec![1, 2, 3],
        vec![],
        DeleteBitSet::empty(),
        IndexRecordOption::Basic,
    );
    assert_eq!(short.total_num_tokens(), 0);
}

#[test]
fn test_postings_are_tested_before_they_are_read() {
    let data = postings(&[(1, 2), (4, 1), (6, 1)], true);
    assert!(holds_postings(&data, 3, true));
    assert!(holds_postings(&data, 2, true));
    assert!(holds_postings(&data, 0, true));
    // a fourth posting is not there
    assert!(!holds_postings(&data, 4, true));
    // read without frequencies, the second doc would not rise: its gap is 0
    let flat = postings(&[(1, 0), (4, 1)], true);
    assert!(holds_postings(&flat, 2, true));
    assert!(!holds_postings(&flat, 2, false));
    // a number that does not end
    assert!(!holds_postings(&[1, 2, 3], 1, false));
    assert!(BlockSegmentPostings::try_from_data(4, &data, FreqReadingOption::ReadFreq).is_none());
    let mut block = BlockSegmentPostings::try_from_data(3, &data, FreqReadingOption::ReadFreq).unwrap();
    assert!(block.advance());
    assert_eq!(block.docs(), &[1, 4, 6]);
    assert_eq!(block.freqs(), &[2, 1, 1]);
}

#[test]
fn test_read_postings_checked() {
    let field = Field(1);
    let apple = Term::from_field_bytes(field, b"apple".to_vec());
    let absent = Term::from_field_bytes(field, b"durian".to_vec());
    let reader = reader(IndexRecordOption::WithFreqs);
    assert!(matches!(reader.read_postings_checked(&absent, IndexRecordOption::Basic), Ok(None)));
    let mut postings = reader.read_postings_checked(&apple, IndexRecordOption::WithFreqs).unwrap().unwrap();
    assert!(postings.advance());
    assert_eq!((postings.doc(), postings.term_freq()), (1, 2));
    let info = reader.get_term_info(&apple).unwrap();
    assert!(reader.is_readable(&info));
    // a dictionary that points past the postings file
    let mut builder = TermDictionaryBuilderImpl::new(1 << 20);
    let lost = TermInfo { doc_freq: 2, postings_offset: 100, positions_offset: 0, positions_inner_offset: 0 };
    let cut = TermInfo { doc_freq: 2, postings_offset: 0, positions_offset: 0, positions_inner_offset: 0 };
    builder.insert(b"apple", &lost).unwrap();
    builder.insert(b"berry", &cut).unwrap();
    let dictionary = builder.into_dictionary().unwrap();
    let broken = InvertedIndexReader::new(
        dictionary,
        vec![1 | 128],
        vec![],
        DeleteBitSet::open(vec![0]),
        IndexRecordOption::Basic,
    );
    assert!(!broken.is_readable(&lost));
    assert!(!broken.is_readable(&cut));
    assert!(matches!(
        broken.read_postings_checked(&apple, IndexRecordOption::Basic),
        Err(PostingsError::Corrupted)
    ));
    let berry = Term::from_field_bytes(field, b"berry".to_vec());
    assert!(matches!(
        broken.read_postings_checked(&berry, IndexRecordOption::Basic),
        Err(PostingsError::Corrupted)
    ));
}
