use std::collections::BTreeSet;
use tantivy::analyzer::{FacetTokenizer, TokenStream};
use tantivy::collector::facet_collector::{facet_depth, is_under_root, CollectorError};
use tantivy::collector::{FacetCollector, FacetCounts};
use tantivy::fastfield::{
    FacetReader, FastFieldSerializer, MultiValueIntFastFieldReader, MultiValueIntFastFieldWriter,
    U64FastFieldReader,
};
use tantivy::postings::DocSet;
use tantivy::query::all_query::AllQuery;
use tantivy::schema::{Facet, Field};
use tantivy::termdict::{TermDictionaryBuilderImpl, TermInfo};

/// Builds the facet reader of a segment whose doc `d` holds the facets `docs[d]`.
fn build_segment(docs: &[Vec<Facet>]) -> FacetReader {
    // the dictionary holds every facet and every ancestor
    let mut terms: BTreeSet<Vec<u8>> = BTreeSet::new();
    for facets in docs {
        for facet in facets {
            let encoded = String::from_utf8(facet.encoded_bytes().to_vec()).unwrap();
            let mut stream = FacetTokenizer.token_stream(&encoded);
            while stream.advance() {
                terms.insert(stream.token().term.clone().into_bytes());
            }
        }
    }
    let terms: Vec<Vec<u8>> = terms.into_iter().collect();
    let mut builder = TermDictionaryBuilderImpl::new(64);
    for term in &terms {
        builder.insert(term, &TermInfo::default()).unwrap();
    }
    let dictionary = builder.into_dictionary().unwrap();
    // the column holds, for each doc, the ordinals of its own facets
    let mut writer = MultiValueIntFastFieldWriter::new(Field(0));
    for facets in docs {
        writer.next_doc();
        for facet in facets {
            let ord = terms.iter().position(|term| term == facet.encoded_bytes()).unwrap();
            writer.add_val(ord as u64);
        }
    }
    let mut serializer = FastFieldSerializer::new();
    writer.serialize(&mut serializer);
    let mut columns = serializer.close();
    let vals = columns.pop().unwrap();
    let idx = columns.pop().unwrap();
    assert_eq!((idx.idx, vals.idx), (0, 1));
    let num_vals: usize = docs.iter().map(|facets| facets.len()).sum();
    let idx_reader = U64FastFieldReader::open(idx.data, docs.len() + 1).unwrap();
    let vals_reader = U64FastFieldReader::open(vals.data, num_vals).unwrap();
    let ords = MultiValueIntFastFieldReader::open(idx_reader, vals_reader).unwrap();
    FacetReader::new(ords, dictionary)
}

/// Collects every doc of every segment, as a search for all docs does.
fn collect_all(segments: Vec<(FacetReader, u32)>) -> FacetCounts {
    let mut collector = FacetCollector::for_field(Field(0));
    for (ord, (reader, max_doc)) in segments.into_iter().enumerate() {
        collector.set_segment(ord as u32, Some(reader)).unwrap();
        let mut scorer = AllQuery.weight().scorer(max_doc);
        while scorer.advance() {
            collector.collect(scorer.doc());
        }
    }
    collector.harvest().unwrap()
}

fn drain(mut next: impl FnMut() -> Option<(Facet, u64)>) -> Vec<(String, u64)> {
    let mut out = vec![];
    while let Some((facet, count)) = next() {
        out.push((facet.to_string(), count));
    }
    out
}

#[test]
fn test_facet_collector() {
    let num_facets: usize = 3 * 4 * 5;
    let facets: Vec<Facet> = (0..num_facets)
        .map(|mut n| {
            let top = n % 3;
            n /= 3;
            let mid = n % 4;
            n /= 4;
            let leaf = n % 5;
            Facet::from_str(&format!("/top{}/mid{}/leaf{}", top, mid, leaf))
        })
        .collect();
    let docs: Vec<Vec<Facet>> = (0..num_facets * 10).map(|i| vec![facets[i % num_facets].clone()]).collect();
    let reader = build_segment(&docs);
    let counts: FacetCounts = collect_all(vec![(reader, docs.len() as u32)]);
    {
        let mut it = counts.iter();
        let facets: Vec<(String, u64)> = drain(|| it.next());
        let expected: Vec<(String, u64)> = [
            ("/top0/mid0/leaf0", 10),
            ("/top0/mid0/leaf1", 10),
            ("/top0/mid0/leaf2", 10),
            ("/top0/mid0/leaf3", 10),
            ("/top0/mid0/leaf4", 10),
            ("/top0/mid1/leaf0", 10),
            ("/top0/mid1/leaf1", 10),
            ("/top0/mid1/leaf2", 10),
            ("/top0/mid1/leaf3", 10),
            ("/top0/mid1/leaf4", 10),
            ("/top0/mid2/leaf0", 10),
            ("/top0/mid2/leaf1", 10),
            ("/top0/mid2/leaf2", 10),
            ("/top0/mid2/leaf3", 10),
            ("/top0/mid2/leaf4", 10),
            ("/top0/mid3/leaf0", 10),
            ("/top0/mid3/leaf1", 10),
            ("/top0/mid3/leaf2", 10),
            ("/top0/mid3/leaf3", 10),
            ("/top0/mid3/leaf4", 10),
            ("/top1/mid0/leaf0", 10),
            ("/top1/mid0/leaf1", 10),
            ("/top1/mid0/leaf2", 10),
            ("/top1/mid0/leaf3", 10),
            ("/top1/mid0/leaf4", 10),
            ("/top1/mid1/leaf0", 10),
            ("/top1/mid1/leaf1", 10),
            ("/top1/mid1/leaf2", 10),
            ("/top1/mid1/leaf3", 10),
            ("/top1/mid1/leaf4", 10),
            ("/top1/mid2/leaf0", 10),
            ("/top1/mid2/leaf1", 10),
            ("/top1/mid2/leaf2", 10),
            ("/top1/mid2/leaf3", 10),
            ("/top1/mid2/leaf4", 10),
            ("/top1/mid3/leaf0", 10),
            ("/top1/mid3/leaf1", 10),
            ("/top1/mid3/leaf2", 10),
            ("/top1/mid3/leaf3", 10),
            ("/top1/mid3/leaf4", 10),
            ("/top2/mid0/leaf0", 10),
            ("/top2/mid0/leaf1", 10),
            ("/top2/mid0/leaf2", 10),
            ("/top2/mid0/leaf3", 10),
            ("/top2/mid0/leaf4", 10),
            ("/top2/mid1/leaf0", 10),
            ("/top2/mid1/leaf1", 10),
            ("/top2/mid1/leaf2", 10),
            ("/top2/mid1/leaf3", 10),
            ("/top2/mid1/leaf4", 10),
            ("/top2/mid2/leaf0", 10),
            ("/top2/mid2/leaf1", 10),
            ("/top2/mid2/leaf2", 10),
            ("/top2/mid2/leaf3", 10),
            ("/top2/mid2/leaf4", 10),
            ("/top2/mid3/leaf0", 10),
            ("/top2/mid3/leaf1", 10),
            ("/top2/mid3/leaf2", 10),
            ("/top2/mid3/leaf3", 10),
            ("/top2/mid3/leaf4", 10),
        ]
        .iter()
        .map(|&(facet_str, count)| (String::from(facet_str), count))
        .collect::<Vec<_>>();
        assert_eq!(facets.len(), 60);
        assert_eq!(facets, expected);
    }
    {
        let rooted = counts.root(Facet::from_str("/top1"));
        let mut it = rooted.iter();
        let facets: Vec<(String, u64)> = drain(|| it.next());
        let expected: Vec<(String, u64)> = [
            ("/top1/mid0/leaf0", 10),
            ("/top1/mid0/leaf1", 10),
            ("/top1/mid0/leaf2", 10),
            ("/top1/mid0/leaf3", 10),
            ("/top1/mid0/leaf4", 10),
            ("/top1/mid1/leaf0", 10),
            ("/top1/mid1/leaf1", 10),
            ("/top1/mid1/leaf2", 10),
            ("/top1/mid1/leaf3", 10),
            ("/top1/mid1/leaf4", 10),
            ("/top1/mid2/leaf0", 10),
            ("/top1/mid2/leaf1", 10),
            ("/top1/mid2/leaf2", 10),
            ("/top1/mid2/leaf3", 10),
            ("/top1/mid2/leaf4", 10),
            ("/top1/mid3/leaf0", 10),
            ("/top1/mid3/leaf1", 10),
            ("/top1/mid3/leaf2", 10),
            ("/top1/mid3/leaf3", 10),
            ("/top1/mid3/leaf4", 10),
        ]
        .iter()
        .map(|&(facet_str, count)| (String::from(facet_str), count))
        .collect::<Vec<_>>();
        assert_eq!(facets.len(), 20);
        assert_eq!(facets, expected);
    }
    {
        let mut it = counts.with_depth(1);
        let facets: Vec<(String, u64)> = drain(|| it.next());
        assert_eq!(
            facets,
            [("/top0", 200), ("/top1", 200), ("/top2", 200)]
                .iter()
                .map(|&(facet_str, count)| (String::from(facet_str), count))
                .collect::<Vec<_>>()
        );
    }
}

#[test]
fn test_multifastfield_reader() {
    let docs = vec![
        vec![Facet::from_str("/category/cat2"), Facet::from_str("/category/cat1")],
        vec![Facet::from_str("/category/cat2")],
        vec![Facet::from_str("/category/cat3")],
    ];
    let mut facet_reader = build_segment(&docs);
    for i in 0..4 {
        println!("facet_reader.facet_from_id(0).to_string() {}", facet_reader.facet_from_ord(i).to_string());
    }
    assert_eq!(facet_reader.facet_from_ord(0).to_string(), "/category");
    assert_eq!(facet_reader.facet_from_ord(1).to_string(), "/category/cat1");
    assert_eq!(facet_reader.facet_from_ord(2).to_string(), "/category/cat2");
    assert_eq!(facet_reader.facet_from_ord(3).to_string(), "/category/cat3");

    assert_eq!(facet_reader.term_ords(0), &[2, 1]);
    assert_eq!(facet_reader.term_ords(1), &[2]);
    assert_eq!(facet_reader.term_ords(2), &[3]);

    assert_eq!(facet_reader.num_facets(), 4);
    assert_eq!(facet_reader.num_docs(), 3);
    assert!(facet_reader.facet_from_ord(4).is_root());
    let mut ords = vec![9, 9];
    facet_reader.facet_ords(0, &mut ords);
    assert_eq!(ords, vec![2, 1]);
    assert_eq!(facet_reader.facet_dict().num_terms(), 4);
}

#[test]
fn test_facet_counts_merge_segments() {
    let first = build_segment(&[
        vec![Facet::from_str("/a/x")],
        vec![Facet::from_str("/a/x"), Facet::from_str("/b")],
        vec![Facet::from_str("/a")],
    ]);
    let second = build_segment(&[vec![Facet::from_str("/a/y")], vec![Facet::from_str("/b"), Facet::from_str("/c/z/w")]]);
    let third = build_segment(&[]);
    let counts = collect_all(vec![(first, 3), (second, 2), (third, 0)]);
    let mut it = counts.iter();
    assert_eq!(
        drain(|| it.next()),
        vec![
            (String::from("/a"), 1),
            (String::from("/a/x"), 2),
            (String::from("/a/y"), 1),
            (String::from("/b"), 2),
            (String::from("/c/z/w"), 1),
        ]
    );
    // what a depth gathers: the facet itself and what lies below it
    let mut it = counts.with_depth(1);
    assert_eq!(
        drain(|| it.next()),
        vec![(String::from("/a"), 4), (String::from("/b"), 2), (String::from("/c"), 1)]
    );
    let mut it = counts.with_depth(2);
    assert_eq!(
        drain(|| it.next()),
        vec![(String::from("/a/x"), 2), (String::from("/a/y"), 3), (String::from("/c/z"), 1)]
    );
    let mut it = counts.with_depth(4);
    assert_eq!(drain(|| it.next()), vec![]);
    // the sum over a root is the number of facets collected at or below it
    let under_a = counts.root(Facet::from_str("/a"));
    let mut it = under_a.iter();
    let listed = drain(|| it.next());
    assert_eq!(listed.iter().map(|item| item.1).sum::<u64>(), 4);
    assert_eq!(listed.len(), 3);
    let mut it = under_a.with_depth(1);
    assert_eq!(drain(|| it.next()), vec![(String::from("/a/x"), 2), (String::from("/a/y"), 1)]);
    let mut it = under_a.with_depth(0);
    assert_eq!(drain(|| it.next()), vec![(String::from("/a"), 4)]);
    let absent = counts.root(Facet::from_str("/zz"));
    let mut it = absent.iter();
    assert_eq!(drain(|| it.next()), vec![]);
}

#[test]
fn test_facet_root_is_no_prefix_match() {
    // "/ab" and "/a\u{1}b" start with the bytes of "/a" but do not lie below it
    let segment = build_segment(&[
        vec![Facet::from_str("/a")],
        vec![Facet::from_str("/ab")],
        vec![Facet::from_str("/a\u{1}b")],
        vec![Facet::from_str("/a/b")],
    ]);
    let counts = collect_all(vec![(segment, 4)]);
    let under_a = counts.root(Facet::from_str("/a"));
    let mut it = under_a.iter();
    assert_eq!(drain(|| it.next()), vec![(String::from("/a"), 1), (String::from("/a/b"), 1)]);
    assert_eq!(under_a.root_bytes(), b"a");
}

#[test]
fn test_facet_collector_errors() {
    let mut collector = FacetCollector::for_field(Field(3));
    assert_eq!(collector.set_segment(0, None), Err(CollectorError::MissingFacetField));
    let counts = collector.harvest().unwrap();
    let mut it = counts.iter();
    assert!(it.next().is_none());
}

#[test]
fn test_facet_depth() {
    assert_eq!(facet_depth(b""), 0);
    assert_eq!(facet_depth(b"top"), 1);
    assert_eq!(facet_depth(b"top\x1fa\x1fb"), 3);
    assert_eq!(facet_depth(b"\x1f"), 2);
    // a NUL byte is no separator
    assert_eq!(facet_depth(b"a\x00b"), 1);
    assert!(is_under_root(b"", b"anything"));
    assert!(is_under_root(b"a", b"a"));
    assert!(is_under_root(b"a", b"a\x1fb"));
    assert!(!is_under_root(b"a", b"ab"));
    assert!(!is_under_root(b"a\x1fb", b"a"));
}
