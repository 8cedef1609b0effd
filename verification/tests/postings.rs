use tantivy::postings::{
    DifferenceDocSet, DocSet, IntersectionDocSet, SkipResult, UnionAllDocSet, UnionDocSet, VecPostings,
};

#[test]
fn test_difference() {
    let left = VecPostings::from(vec![1, 2, 3, 9, 14]);
    let right = VecPostings::from(vec![3, 4, 9, 12]);
    let mut difference = DifferenceDocSet::new(left, right);
    assert!(difference.advance());
    assert_eq!(difference.doc(), 1);
    assert!(difference.advance());
    assert_eq!(difference.doc(), 2);
    assert!(difference.advance());
    assert_eq!(difference.doc(), 14);
    assert!(!difference.advance());
}

#[test]
fn test_difference_right_empty() {
    let left = VecPostings::from(vec![1, 2]);
    let right = VecPostings::from(vec![]);
    let mut difference = DifferenceDocSet::new(left, right);
    assert!(difference.advance());
    assert_eq!(difference.doc(), 1);
    assert!(difference.advance());
    assert_eq!(difference.doc(), 2);
    assert!(!difference.advance());
}

#[test]
fn test_difference_left_empty() {
    let left = VecPostings::from(vec![]);
    let right = VecPostings::from(vec![1, 2, 3]);
    let mut difference = DifferenceDocSet::new(left, right);
    assert!(!difference.advance());
}

#[test]
fn test_difference_empty() {
    let left = VecPostings::from(vec![]);
    let right = VecPostings::from(vec![]);
    let mut difference = DifferenceDocSet::new(left, right);
    assert!(!difference.advance());
}

#[test]
fn test_difference_skip_next() {
    let left = VecPostings::from(vec![1, 3, 7, 8, 10, 13]);
    let right = VecPostings::from(vec![7, 8, 10, 12, 14, 15, 20]);
    let mut difference = DifferenceDocSet::new(left, right);
    assert_eq!(difference.skip_next(1), SkipResult::Reached);
    assert_eq!(difference.doc(), 1);
    assert_eq!(difference.skip_next(2), SkipResult::OverStep);
    assert_eq!(difference.doc(), 3);
    assert_eq!(difference.skip_next(8), SkipResult::OverStep);
    assert_eq!(difference.doc(), 13);
    assert!(!difference.advance());
    assert_eq!(difference.skip_next(22), SkipResult::End);
}

#[test]
fn test_difference_skip_onto_excluded_run() {
    // Every doc from the target on is excluded: nothing may come out.
    let left = VecPostings::from(vec![1, 2]);
    let right = VecPostings::from(vec![1, 2]);
    let mut difference = DifferenceDocSet::new(left, right);
    assert_eq!(difference.skip_next(1), SkipResult::End);
    assert!(!difference.advance());
}

#[test]
fn test_difference_accessors() {
    let left = VecPostings::from(vec![1, 2, 5]);
    let right = VecPostings::from(vec![2]);
    let difference = DifferenceDocSet::new(left, right);
    assert_eq!(difference.left().size_hint(), 3);
    assert_eq!(difference.right().size_hint(), 1);
    assert_eq!(difference.size_hint(), 3);
}

#[test]
fn test_union() {
    let left = VecPostings::from(vec![1, 3, 9]);
    let right = VecPostings::from(vec![3, 4, 9, 18]);
    let mut union = UnionDocSet::from(vec![left, right]);
    assert!(union.advance());
    assert_eq!(union.doc(), 1);
    assert!(union.advance());
    assert_eq!(union.doc(), 3);
    assert!(union.advance());
    assert_eq!(union.doc(), 4);
    assert!(union.advance());
    assert_eq!(union.doc(), 9);
    assert!(union.advance());
    assert_eq!(union.doc(), 18);
    assert!(!union.advance());
}

#[test]
fn test_union_empty() {
    let a = VecPostings::from(vec![]);
    let b = VecPostings::from(vec![]);
    let c = VecPostings::from(vec![]);
    let mut union = UnionDocSet::from(vec![a, b, c]);
    assert!(!union.advance());
}

#[test]
fn test_union_skip_next() {
    let a = VecPostings::from(vec![1, 3, 7]);
    let b = VecPostings::from(vec![1, 4]);
    let c = VecPostings::from(vec![1, 9]);
    let mut union = UnionDocSet::from(vec![a, b, c]);
    assert_eq!(union.skip_next(1), SkipResult::Reached);
    assert_eq!(union.doc(), 1);
    assert_eq!(union.skip_next(2), SkipResult::OverStep);
    assert_eq!(union.doc(), 3);
    assert!(union.advance());
    assert_eq!(union.doc(), 4);
    assert_eq!(union.skip_next(7), SkipResult::Reached);
    assert_eq!(union.doc(), 7);
    assert_eq!(union.skip_next(10), SkipResult::End);
    assert!(!union.advance());
    assert_eq!(union.skip_next(11), SkipResult::End);
}

#[test]
fn test_union_skip_to_current_moves_on() {
    let a = VecPostings::from(vec![5, 7]);
    let b = VecPostings::from(vec![5]);
    let mut union = UnionDocSet::from(vec![a, b]);
    assert_eq!(union.skip_next(5), SkipResult::Reached);
    assert_eq!(union.doc(), 5);
    // A skip always moves forward, also when a second copy of 5 is pending.
    assert_eq!(union.skip_next(5), SkipResult::OverStep);
    assert_eq!(union.doc(), 7);
    assert_eq!(union.skip_next(3), SkipResult::End);
}

#[test]
fn test_union_largest_doc_id() {
    let a = VecPostings::from(vec![u32::MAX]);
    let b = VecPostings::from(vec![7, u32::MAX]);
    let mut union = UnionDocSet::from(vec![a, b]);
    assert!(union.advance());
    assert_eq!(union.doc(), 7);
    assert!(union.advance());
    assert_eq!(union.doc(), u32::MAX);
    assert!(!union.advance());
    assert!(!union.advance());
    assert_eq!(union.size_hint(), 3);
    assert_eq!(union.docsets().len(), 2);
}

#[test]
fn test_union_all() {
    let left = VecPostings::from(vec![1, 3, 9]);
    let right = VecPostings::from(vec![3, 4, 9, 18]);
    let mut union = UnionAllDocSet::from(vec![left, right]);
    assert!(union.advance());
    assert_eq!(union.doc(), 1);
    assert!(union.advance());
    assert_eq!(union.doc(), 3);
    assert!(union.advance());
    assert_eq!(union.doc(), 3);
    assert!(union.advance());
    assert_eq!(union.doc(), 4);
    assert!(union.advance());
    assert_eq!(union.doc(), 9);
    assert!(union.advance());
    assert_eq!(union.doc(), 9);
    assert!(union.advance());
    assert_eq!(union.doc(), 18);
    assert!(!union.advance());
}

#[test]
fn test_union_all_empty() {
    let a = VecPostings::from(vec![]);
    let b = VecPostings::from(vec![]);
    let c = VecPostings::from(vec![]);
    let mut union = UnionAllDocSet::from(vec![a, b, c]);
    assert!(!union.advance());
}

#[test]
fn test_union_all_skip_next() {
    let a = VecPostings::from(vec![1, 3, 7]);
    let b = VecPostings::from(vec![1, 4]);
    let c = VecPostings::from(vec![1, 9]);
    let mut union = UnionAllDocSet::from(vec![a, b, c]);
    assert_eq!(union.skip_next(1), SkipResult::Reached);
    assert_eq!(union.doc(), 1);
    assert!(union.advance());
    assert_eq!(union.doc(), 1);
    assert_eq!(union.skip_next(2), SkipResult::OverStep);
    assert_eq!(union.doc(), 3);
    assert!(union.advance());
    assert_eq!(union.doc(), 4);
    assert_eq!(union.skip_next(7), SkipResult::Reached);
    assert_eq!(union.doc(), 7);
    assert_eq!(union.skip_next(10), SkipResult::End);
    assert!(!union.advance());
    assert_eq!(union.skip_next(11), SkipResult::End);
}

#[test]
fn test_union_all_size_hint_and_stop() {
    let a = VecPostings::from(vec![1, 3, 7]);
    let b = VecPostings::from(vec![1, 4]);
    let mut union = UnionAllDocSet::from(vec![a, b]);
    assert_eq!(union.size_hint(), 5);
    assert_eq!(union.docsets().len(), 2);
    assert!(union.advance());
    union.stop();
    assert!(!union.advance());
    assert_eq!(union.skip_next(0), SkipResult::End);
}

#[test]
fn test_intersection() {
    let a = VecPostings::from(vec![1, 3, 9]);
    let b = VecPostings::from(vec![3, 4, 9, 18]);
    let mut intersection = IntersectionDocSet::from(vec![a, b]);
    assert_eq!(intersection.size_hint(), 3);
    assert!(intersection.advance());
    assert_eq!(intersection.doc(), 3);
    assert!(intersection.advance());
    assert_eq!(intersection.doc(), 9);
    assert!(!intersection.advance());
    assert!(!intersection.advance());
}

#[test]
fn test_intersection_three_way_skip() {
    let a = VecPostings::from(vec![1, 3, 7, 9, 12, 20]);
    let b = VecPostings::from(vec![3, 4, 9, 12, 18, 20]);
    let c = VecPostings::from(vec![0, 3, 9, 10, 12, 20, 21]);
    let mut intersection = IntersectionDocSet::from(vec![a, b, c]);
    assert_eq!(intersection.skip_next(3), SkipResult::Reached);
    assert_eq!(intersection.doc(), 3);
    assert_eq!(intersection.skip_next(10), SkipResult::OverStep);
    assert_eq!(intersection.doc(), 12);
    assert_eq!(intersection.skip_next(12), SkipResult::OverStep);
    assert_eq!(intersection.doc(), 20);
    assert_eq!(intersection.skip_next(21), SkipResult::End);
    assert_eq!(intersection.docsets().len(), 3);
}

#[test]
fn test_intersection_empty_child() {
    let a = VecPostings::from(vec![1, 3]);
    let b = VecPostings::from(vec![]);
    let mut intersection = IntersectionDocSet::from(vec![a, b]);
    assert!(!intersection.advance());
}

#[test]
fn test_vec_postings_skip_matches_advancing() {
    let docs = vec![2u32, 4, 8, 16, 32];
    for target in 0u32..40 {
        let mut skipped = VecPostings::from(docs.clone());
        let mut stepped = VecPostings::from(docs.clone());
        assert!(skipped.advance());
        assert!(stepped.advance());
        let res = skipped.skip_next(target);
        let mut expected = SkipResult::End;
        while stepped.advance() {
            if stepped.doc() >= target {
                expected = if stepped.doc() == target { SkipResult::Reached } else { SkipResult::OverStep };
                break;
            }
        }
        assert_eq!(res, expected);
        if res != SkipResult::End {
            assert_eq!(skipped.doc(), stepped.doc());
        }
    }
}

#[test]
fn test_docs_rise_strictly() {
    let a = VecPostings::from(vec![1, 3, 9, 40]);
    let b = VecPostings::from(vec![3, 4, 9, 18]);
    let c = VecPostings::from(vec![4, 40, 41]);
    let inner = UnionDocSet::from(vec![a, b]);
    let mut difference = DifferenceDocSet::new(inner, c);
    let mut seen = vec![];
    while difference.advance() {
        seen.push(difference.doc());
    }
    assert_eq!(seen, vec![1, 3, 9, 18]);
    assert!(seen.windows(2).all(|w| w[0] < w[1]));
}

#[test]
fn test_union_all_skip_takes_one_copy() {
    let a = VecPostings::from(vec![1, 3]);
    let b = VecPostings::from(vec![1, 4]);
    let c = VecPostings::from(vec![1, 9]);
    // skipping onto a doc takes one copy of it, as an advance would
    let mut skipped = UnionAllDocSet::from(vec![a, b, c]);
    assert_eq!(skipped.skip_next(1), SkipResult::Reached);
    let mut after_skip = vec![];
    while skipped.advance() {
        after_skip.push(skipped.doc());
    }
    assert_eq!(after_skip, vec![1, 1, 3, 4, 9]);
    let a = VecPostings::from(vec![1, 3]);
    let b = VecPostings::from(vec![1, 4]);
    let c = VecPostings::from(vec![1, 9]);
    let mut advanced = UnionAllDocSet::from(vec![a, b, c]);
    assert!(advanced.advance());
    assert_eq!(advanced.doc(), 1);
    let mut after_advance = vec![];
    while advanced.advance() {
        after_advance.push(advanced.doc());
    }
    assert_eq!(after_advance, after_skip);
}
