use tantivy::postings::{DocSet, SkipResult};
use tantivy::query::all_query::{AllQuery, AllWeight};

#[test]
fn test_all_scorer_visits_every_doc() {
    let weight: AllWeight = AllQuery.weight();
    let mut scorer = weight.scorer(3);
    assert_eq!(scorer.size_hint(), 3);
    assert!(scorer.advance());
    assert_eq!(scorer.doc(), 0);
    assert!(scorer.advance());
    assert_eq!(scorer.doc(), 1);
    assert!(scorer.advance());
    assert_eq!(scorer.doc(), 2);
    assert!(!scorer.advance());
    assert!(!scorer.advance());
}

#[test]
fn test_all_scorer_empty_segment() {
    let mut scorer = AllWeight.scorer(0);
    assert!(!scorer.advance());
    assert_eq!(scorer.skip_next(0), SkipResult::End);
}

#[test]
fn test_all_scorer_skip() {
    let mut scorer = AllWeight.scorer(10);
    assert_eq!(scorer.skip_next(4), SkipResult::Reached);
    assert_eq!(scorer.doc(), 4);
    assert_eq!(scorer.skip_next(2), SkipResult::OverStep);
    assert_eq!(scorer.doc(), 5);
    assert_eq!(scorer.skip_next(10), SkipResult::End);
    assert!(!scorer.advance());
}
