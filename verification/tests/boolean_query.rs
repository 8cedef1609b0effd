use tantivy::postings::{DocSet, SkipResult, VecPostings};
use tantivy::query::boolean_query::any_of;
use tantivy::query::{BooleanQuery, Occur};

fn docs_of(clauses: Vec<(Occur, Vec<u32>)>) -> Vec<u32> {
    let mut query = BooleanQuery::new();
    for (occur, docs) in clauses {
        query.add(occur, VecPostings::from(docs));
    }
    let mut docset = query.docset();
    let mut seen = vec![];
    while docset.advance() {
        seen.push(docset.doc());
    }
    assert!(!docset.advance());
    seen
}

#[test]
fn test_boolean_query_plans() {
    let a = vec![1, 2, 3, 5, 8];
    let b = vec![2, 3, 4, 8, 9];
    let c = vec![3, 9];
    // nothing to match
    assert_eq!(docs_of(vec![]), Vec::<u32>::new());
    assert_eq!(docs_of(vec![(Occur::MustNot, a.clone())]), Vec::<u32>::new());
    // required clauses are intersected
    assert_eq!(docs_of(vec![(Occur::Must, a.clone())]), a);
    assert_eq!(docs_of(vec![(Occur::Must, a.clone()), (Occur::Must, b.clone())]), vec![2, 3, 8]);
    // without a required clause, one optional clause has to match
    assert_eq!(docs_of(vec![(Occur::Should, c.clone())]), c);
    assert_eq!(docs_of(vec![(Occur::Should, a.clone()), (Occur::Should, c.clone())]), vec![1, 2, 3, 5, 8, 9]);
    // with a required clause, the optional ones decide nothing
    assert_eq!(docs_of(vec![(Occur::Must, a.clone()), (Occur::Should, c.clone())]), a);
    // forbidden clauses are taken away
    assert_eq!(
        docs_of(vec![(Occur::Must, a.clone()), (Occur::Must, b.clone()), (Occur::MustNot, c.clone())]),
        vec![2, 8]
    );
    assert_eq!(
        docs_of(vec![
            (Occur::Should, a.clone()),
            (Occur::Should, b.clone()),
            (Occur::MustNot, c.clone()),
            (Occur::MustNot, vec![1, 100]),
        ]),
        vec![2, 4, 5, 8]
    );
}

#[test]
fn test_boolean_docset_skip() {
    let mut query = BooleanQuery::new();
    query.add(Occur::Should, VecPostings::from(vec![1, 4, 6]));
    query.add(Occur::Should, VecPostings::from(vec![4, 9]));
    query.add(Occur::MustNot, VecPostings::from(vec![6]));
    let mut docset = query.docset();
    assert_eq!(docset.size_hint(), 5);
    assert_eq!(docset.skip_next(4), SkipResult::Reached);
    assert_eq!(docset.skip_next(5), SkipResult::OverStep);
    assert_eq!(docset.doc(), 9);
    assert_eq!(docset.skip_next(10), SkipResult::End);
}

#[test]
fn test_any_of() {
    assert!(any_of(Vec::<VecPostings>::new()).is_none());
    let mut one = any_of(vec![VecPostings::from(vec![3])]).unwrap();
    assert!(one.advance());
    assert_eq!(one.doc(), 3);
    assert!(!one.advance());
}
