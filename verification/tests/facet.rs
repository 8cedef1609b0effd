use tantivy::analyzer::{FacetTokenizer, TokenStream};
use tantivy::schema::facet::{escape_slashes, Facet};

#[test]
fn test_facet_display() {
    {
        let v = ["first", "second", "third"];
        let facet = Facet::from_path(v.to_vec());
        assert_eq!(facet.to_string(), "/first/second/third");
    }
    {
        let v = ["first", "sec/ond", "third"];
        let facet = Facet::from_path(v.to_vec());
        assert_eq!(facet.to_string(), "/first/sec\\/ond/third");
    }
}

#[test]
fn test_facet_debug() {
    let v = ["first", "second", "third"];
    let facet = Facet::from_path(v.to_vec());
    assert_eq!(facet.to_debug_string(), "Facet(/first/second/third)");
}

#[test]
fn test_facet_tokenizer() {
    let facet = Facet::from_path(vec!["top", "a", "b"]);
    let mut tokens = vec![];
    {
        let encoded = String::from_utf8(facet.encoded_bytes().to_vec()).unwrap();
        let mut stream = FacetTokenizer.token_stream(&encoded);
        while stream.advance() {
            let facet = Facet::from_encoded(stream.token().term.clone().into_bytes());
            tokens.push(facet.to_string());
        }
    }
    assert_eq!(tokens.len(), 3);
    assert_eq!(tokens[0], "/top");
    assert_eq!(tokens[1], "/top/a");
    assert_eq!(tokens[2], "/top/a/b");
}

#[test]
fn test_facet_tokenizer_counts_separators() {
    // One token per separator and one for the whole, also where a separator
    // comes first or last, and for the root.
    for (text, expected) in [
        ("", vec![""]),
        ("a", vec!["a"]),
        ("\u{1f}a", vec!["", "\u{1f}a"]),
        ("a\u{1f}", vec!["a", "a\u{1f}"]),
        ("a\u{1f}\u{1f}b", vec!["a", "a\u{1f}", "a\u{1f}\u{1f}b"]),
        ("é\u{1f}ü", vec!["é", "é\u{1f}ü"]),
    ] {
        let mut stream = FacetTokenizer.token_stream(text);
        let mut seen: Vec<String> = vec![];
        while stream.advance() {
            seen.push(stream.token().term.clone());
        }
        assert_eq!(seen, expected);
        assert!(!stream.advance());
    }
}

#[test]
fn test_facet_token_mut() {
    let mut stream = FacetTokenizer.token_stream("a\u{1f}b");
    assert!(stream.advance());
    stream.token_mut().position = 7;
    assert_eq!(stream.token().position, 7);
    assert_eq!(stream.token().term, "a");
}

#[test]
fn test_facet_root() {
    assert!(Facet::root().is_root());
    assert!(Facet::new().is_root());
    assert_eq!(Facet::root().to_string(), "/");
    assert_eq!(Facet::from_str("/").encoded_bytes(), b"");
    assert!(Facet::from_path(vec![]).is_root());
    assert!(!Facet::from_str("/a").is_root());
}

#[test]
fn test_facet_from_str() {
    assert_eq!(Facet::from_str("/first/second").encoded_bytes(), b"first\x1fsecond");
    assert_eq!(Facet::from_str("/first/sec\\/ond").encoded_bytes(), b"first\x1fsec/ond");
    assert_eq!(Facet::from_str("/a\\\\b").encoded_bytes(), b"a\\b");
    // A trailing escape has nothing to escape and is dropped.
    assert_eq!(Facet::from_str("/a\\").encoded_bytes(), b"a");
}

#[test]
fn test_facet_escapes_backslash_with_backslash() {
    let facet = Facet::from_path(vec!["a\\b", "c/d"]);
    assert_eq!(facet.path_bytes(), b"/a\\\\b/c\\/d".to_vec());
    assert_eq!(facet.to_string(), "/a\\\\b/c\\/d");
    assert_eq!(escape_slashes(b"x/y\\z"), b"x\\/y\\\\z".to_vec());
    assert_eq!(escape_slashes(b"plain"), b"plain".to_vec());
}

#[test]
fn test_facet_string_round_trip() {
    for steps in [vec![], vec!["a"], vec!["a", "b/c", "d\\e"], vec!["", ""], vec!["é", "\\/"]] {
        let facet = Facet::from_path(steps);
        let text = facet.to_string();
        assert!(Facet::from_str(&text) == facet);
    }
}

#[test]
fn test_facet_prefixes() {
    let facet = Facet::from_path(vec!["top", "a", "b"]);
    let prefixes = facet.prefixes();
    assert_eq!(prefixes, vec![&b"top"[..], &b"top\x1fa"[..], &b"top\x1fa\x1fb"[..]]);
    assert_eq!(Facet::root().prefixes(), vec![&b""[..]]);
}

#[test]
fn test_facet_clone_and_buffer() {
    let mut facet = Facet::from_str("/a/b");
    let copy = facet.clone();
    assert!(copy == facet);
    facet.inner_buffer_mut().extend_from_slice(b"\x1fc");
    assert_eq!(facet.to_string(), "/a/b/c");
    assert!(copy < facet);
}

#[test]
fn test_facet_lossy_text() {
    let facet = Facet::from_encoded(vec![0xff, 31, b'a']);
    assert_eq!(facet.to_string(), "/\u{fffd}/a");
}
