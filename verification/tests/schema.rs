use tantivy::analyzer::{FacetTokenizer, Token, TokenStream, TokenStreamChain};
use tantivy::schema::{Field, FieldValue, NamedFieldDocument, Value};

#[test]
fn test_field_value() {
    let field_value = FieldValue::new(Field(3), Value::U64(5));
    assert_eq!(field_value.field(), Field(3));
    assert_eq!(field_value.value(), &Value::U64(5));
}

#[test]
fn test_named_field_document() {
    let mut document = NamedFieldDocument::new();
    document.insert(String::from("title"), vec![Value::from_text("a"), Value::from_text("b")]);
    document.insert(String::from("year"), vec![Value::U64(1999)]);
    document.insert(String::from("title"), vec![Value::from_text("c")]);
    let fields = document.into_fields();
    assert_eq!(
        fields,
        vec![
            (String::from("title"), vec![Value::from_text("c")]),
            (String::from("year"), vec![Value::U64(1999)]),
        ]
    );
}

#[test]
fn test_token_default() {
    let token = Token::default();
    assert_eq!((token.offset_from, token.offset_to, token.position), (0, 0, 0));
    assert!(token.term.is_empty());
}

#[test]
fn test_token_stream_chain() {
    let streams = vec![
        FacetTokenizer.token_stream("a\u{1f}b"),
        FacetTokenizer.token_stream(""),
        FacetTokenizer.token_stream("c"),
    ];
    let mut chain = TokenStreamChain::new(vec![0, 10, 20], streams);
    let mut seen = vec![];
    while chain.advance() {
        let token = chain.token();
        seen.push((token.term.clone(), token.offset_from, token.position));
    }
    // the tokens of each stream follow one another; the positions of a
    // stream start a gap past the last position of the stream before
    assert_eq!(
        seen,
        vec![
            (String::from("a"), 0, 0),
            (String::from("a\u{1f}b"), 0, 0),
            (String::from(""), 10, 2),
            (String::from("c"), 20, 4),
        ]
    );
    assert!(!chain.advance_chain());

    let mut chain = TokenStreamChain::new(vec![5], vec![FacetTokenizer.token_stream("x")]);
    assert!(chain.advance_chain());
    assert_eq!(chain.chain_token().offset_from, 5);
    chain.token_mut().position = 9;
    assert_eq!(chain.chain_token().position, 9);
}
