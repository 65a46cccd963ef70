use mecrab_builder::ntriples::{extract_iri, extract_literal, is_abstract_predicate, is_label_predicate, parse_ntriple};

#[test]
fn test_extract_iri_basic() {
    let s = "<http://example.org/foo> rest";
    let (iri, rest) = extract_iri(s).expect("should parse");
    assert_eq!(iri, "http://example.org/foo");
    assert_eq!(rest.trim(), "rest");
}

#[test]
fn test_extract_iri_no_angle_bracket() {
    assert!(extract_iri("plain text").is_none());
}

#[test]
fn extract_iri_needs_a_closing_bracket() {
    assert!(extract_iri("<unterminated").is_none());
    assert_eq!(extract_iri("<>x"), Some((String::new(), "x".to_string())));
}

#[test]
fn test_extract_literal_with_lang() {
    let s = r#""東京都"@ja ."#;
    let (lit, lang) = extract_literal(s).expect("should parse");
    assert_eq!(lit, "東京都");
    assert_eq!(lang.as_deref(), Some("ja"));
}

#[test]
fn test_extract_literal_escaped_quote() {
    let s = r#""foo\"bar"@en"#;
    let (lit, lang) = extract_literal(s).expect("should parse");
    assert_eq!(lit, r#"foo"bar"#);
    assert_eq!(lang.as_deref(), Some("en"));
}

#[test]
fn test_extract_literal_no_lang() {
    let s = r#""hello"^^<http://www.w3.org/2001/XMLSchema#string>"#;
    let (lit, lang) = extract_literal(s).expect("should parse");
    assert_eq!(lit, "hello");
    assert!(lang.is_none());
}

#[test]
fn extract_literal_escapes_and_tags() {
    let (lit, lang) = extract_literal(r#""a\nb\tc\\d"@en-GB."#).unwrap();
    assert_eq!(lit, "a\nb\tc\\d");
    assert_eq!(lang.as_deref(), Some("en-GB"));
    assert!(extract_literal(r#""open"#).is_none());
    assert!(extract_literal("x").is_none());
}

#[test]
fn test_parse_ntriple_label() {
    let line = r#"<http://ja.dbpedia.org/resource/東京都> <http://www.w3.org/2000/01/rdf-schema#label> "東京都"@ja ."#;
    let triple = parse_ntriple(line).expect("should parse");
    assert_eq!(triple.subject, "http://ja.dbpedia.org/resource/東京都");
    assert_eq!(triple.predicate, "http://www.w3.org/2000/01/rdf-schema#label");
    assert_eq!(triple.object, "東京都");
    assert_eq!(triple.lang.as_deref(), Some("ja"));
}

#[test]
fn test_parse_ntriple_iri_object() {
    let line = r#"<http://ja.dbpedia.org/resource/東京都> <http://www.w3.org/1999/02/22-rdf-syntax-ns#type> <http://dbpedia.org/ontology/Place> ."#;
    let triple = parse_ntriple(line).expect("should parse");
    assert_eq!(triple.object, "http://dbpedia.org/ontology/Place");
    assert!(triple.lang.is_none());
}

#[test]
fn test_parse_ntriple_comment_returns_none() {
    assert!(parse_ntriple("# comment line").is_none());
}

#[test]
fn parse_ntriple_rejects_bad_objects() {
    assert!(parse_ntriple("<a> <b> plain .").is_none());
    assert!(parse_ntriple("<a> b <c> .").is_none());
    let t = parse_ntriple("<a> <b> \"x\" .").unwrap();
    assert_eq!((t.subject.as_str(), t.predicate.as_str(), t.object.as_str()), ("a", "b", "x"));
}

#[test]
fn test_is_label_predicate() {
    assert!(is_label_predicate("http://www.w3.org/2000/01/rdf-schema#label"));
    assert!(is_label_predicate("http://xmlns.com/foaf/0.1/name"));
    assert!(!is_label_predicate("http://dbpedia.org/ontology/abstract"));
}

#[test]
fn test_is_abstract_predicate() {
    assert!(is_abstract_predicate("http://dbpedia.org/ontology/abstract"));
    assert!(!is_abstract_predicate("http://www.w3.org/2000/01/rdf-schema#label"));
}

#[test]
fn predicates_by_substring() {
    assert!(is_label_predicate("http://www.w3.org/2004/02/skos/core#prefLabel"));
    assert!(is_label_predicate("x/skos/core#altLabel/y"));
    assert!(is_abstract_predicate("http://dbpedia.org/ontology/abstract/x"));
    assert!(!is_label_predicate(""));
}
