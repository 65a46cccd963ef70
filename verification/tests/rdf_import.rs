use mecrab_builder::rdf_import::collect_rdf_labels;

fn lines(s: &str) -> Vec<String> {
    s.lines().map(|l| l.to_string()).collect()
}

#[test]
fn rdf_japanese_labels_of_a_description() {
    let xml = r#"<?xml version="1.0"?>
<rdf:RDF xmlns:rdf="http://www.w3.org/1999/02/22-rdf-syntax-ns#"
         xmlns:rdfs="http://www.w3.org/2000/01/rdf-schema#">
  <rdf:Description rdf:about="http://example.com/Tokyo">
    <rdfs:label xml:lang="ja">東京</rdfs:label>
    <rdfs:label xml:lang="ja">とうきょう</rdfs:label>
    <rdfs:label xml:lang="en">Tokyo</rdfs:label>
  </rdf:Description>
</rdf:RDF>"#;
    let (pairs, stats) = collect_rdf_labels(&lines(xml));
    assert_eq!(stats.surfaces_added, 2);
    assert_eq!(stats.entries_read, 1);
    assert_eq!(
        pairs,
        vec![
            ("東京".to_string(), "http://example.com/Tokyo".to_string()),
            ("とうきょう".to_string(), "http://example.com/Tokyo".to_string()),
        ]
    );
}

#[test]
fn rdf_resources_flush_at_next_subject_and_end() {
    let xml = "<owl:Class rdf:about=\"http://e/A\">\n<rdfs:label xml:lang=\"ja\">甲</rdfs:label>\n<owl:Class rdf:about=\"http://e/B\">\n<rdfs:label xml:lang=\"ja\"> 乙 </rdfs:label>";
    let (pairs, stats) = collect_rdf_labels(&lines(xml));
    assert_eq!(stats.entries_read, 2);
    assert_eq!(
        pairs,
        vec![("甲".to_string(), "http://e/A".to_string()), ("乙".to_string(), "http://e/B".to_string())]
    );
}

#[test]
fn rdf_labels_without_subject_are_dropped() {
    let xml = "<rdfs:label xml:lang=\"ja\">孤</rdfs:label>\n</rdf:Description>\n<rdf:Description rdf:about=\"http://e/C\">\n</owl:Class>";
    let (pairs, stats) = collect_rdf_labels(&lines(xml));
    assert!(pairs.is_empty());
    assert_eq!(stats.entries_read, 0);
    assert_eq!(stats.surfaces_added, 0);
}
