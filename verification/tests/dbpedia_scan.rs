use mecrab_builder::dbpedia_scan::scan_dbpedia;

fn lines(s: &str) -> Vec<String> {
    s.lines().map(|l| l.to_string()).collect()
}

#[test]
fn dbpedia_label_and_abstract() {
    let nt = "<http://ja.dbpedia.org/resource/東京都> <http://www.w3.org/2000/01/rdf-schema#label> \"東京都\"@ja .\n\
              <http://ja.dbpedia.org/resource/東京都> <http://dbpedia.org/ontology/abstract> \"東京都は日本の都道府県\"@ja .\n";
    let (subjects, stats) = scan_dbpedia(&lines(nt));
    assert_eq!(stats.triples_processed, 2);
    assert_eq!(stats.labels_found, 1);
    assert_eq!(stats.abstracts_found, 1);
    assert_eq!(stats.surfaces_added, 1);
    assert_eq!(
        subjects,
        vec![("http://ja.dbpedia.org/resource/東京都".to_string(), vec!["東京都".to_string()], true)]
    );
}

#[test]
fn dbpedia_label_only_no_abstract() {
    let nt = "<http://ja.dbpedia.org/resource/渋谷区> <http://www.w3.org/2000/01/rdf-schema#label> \"渋谷区\"@ja .\n";
    let (subjects, stats) = scan_dbpedia(&lines(nt));
    assert_eq!(stats.surfaces_added, 1);
    assert_eq!(subjects[0].2, false);
}

#[test]
fn dbpedia_groups_labels_by_subject_and_skips_other_languages() {
    let nt = "# comment\n\n<http://e/A> <http://xmlns.com/foaf/0.1/name> \"甲\"@ja .\n<http://e/B> <http://www.w3.org/2000/01/rdf-schema#label> \"B\"@en .\n<http://e/A> <http://www.w3.org/2004/02/skos/core#altLabel> \"甲二\"@ja .\nnot a triple\n<http://e/C> <http://www.w3.org/2000/01/rdf-schema#label> \"丙\"@ja .";
    let (subjects, stats) = scan_dbpedia(&lines(nt));
    assert_eq!(stats.triples_processed, 5);
    assert_eq!(stats.labels_found, 3);
    assert_eq!(stats.abstracts_found, 0);
    assert_eq!(stats.surfaces_added, 3);
    assert_eq!(
        subjects,
        vec![
            ("http://e/A".to_string(), vec!["甲".to_string(), "甲二".to_string()], false),
            ("http://e/C".to_string(), vec!["丙".to_string()], false),
        ]
    );
}
