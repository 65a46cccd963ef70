use mecrab_builder::colors::{pos_color, ADJ, AUX, NOUN, OTHER, PARTICLE, SYMBOL, VERB};
use mecrab_builder::matrix_writer::build_matrix_bytes;
use mecrab_builder::ontology::OntologyFormat;
use mecrab_builder::paths::{is_wikidata_dump, is_wikipedia_dump, path_extension, path_file_name};

#[test]
fn test_format_detection() {
    assert_eq!(OntologyFormat::detect("test.csv"), Some(OntologyFormat::Csv));
    assert_eq!(OntologyFormat::detect("test.json"), Some(OntologyFormat::Json));
    assert_eq!(OntologyFormat::detect("test.owl"), Some(OntologyFormat::RdfXml));
    assert_eq!(OntologyFormat::detect("test.rdf"), Some(OntologyFormat::RdfXml));
    assert_eq!(OntologyFormat::detect("test.xml"), Some(OntologyFormat::RdfXml));
    assert_eq!(OntologyFormat::detect("test.txt"), None);
    assert_eq!(OntologyFormat::detect("noext"), None);
}

#[test]
fn format_detection_ignores_case_and_directories() {
    assert_eq!(OntologyFormat::detect("/data/onto.csv"), Some(OntologyFormat::Csv));
    assert_eq!(OntologyFormat::detect("/data/Onto.CSV"), None);
    assert_eq!(OntologyFormat::detect("dir.json/file"), None);
    assert_eq!(OntologyFormat::detect(".json"), None);
}

#[test]
fn test_build_matrix_bytes_size() {
    let lsize: u16 = 4;
    let rsize: u16 = 4;
    let costs = vec![0i16; 16];
    let bytes = build_matrix_bytes(lsize, rsize, &costs).unwrap();
    assert_eq!(bytes.len(), 4 + 16 * 2);
}

#[test]
fn test_build_matrix_bytes_header() {
    let costs = vec![0i16; 6];
    let bytes = build_matrix_bytes(2, 3, &costs).unwrap();
    let lsize = u16::from_le_bytes([bytes[0], bytes[1]]);
    let rsize = u16::from_le_bytes([bytes[2], bytes[3]]);
    assert_eq!(lsize, 2);
    assert_eq!(rsize, 3);
}

#[test]
fn dump_path_detection() {
    assert!(is_wikidata_dump("/dumps/latest-wikidata-all.json.gz"));
    assert!(is_wikidata_dump("wikidata.json"));
    assert!(!is_wikidata_dump("wikidata.xml"));
    assert!(!is_wikidata_dump("/wikidata/other.json"));
    assert!(is_wikipedia_dump("jawiki-latest-abstract.xml.gz"));
    assert!(is_wikipedia_dump("wikipedia.xml"));
    assert!(!is_wikipedia_dump("dbpedia.nt"));
}

#[test]
fn path_parts() {
    assert_eq!(path_file_name("/a/b/c.tar.gz"), Some("c.tar.gz".to_string()));
    assert_eq!(path_extension("/a/b/c.tar.gz"), Some("gz".to_string()));
    assert_eq!(path_extension("/a/.hidden"), None);
    assert_eq!(path_file_name("/"), None);
}

#[test]
fn pos_colors() {
    assert_eq!(pos_color("名詞,一般"), NOUN);
    assert_eq!(pos_color("動詞"), VERB);
    assert_eq!(pos_color("形容詞"), ADJ);
    assert_eq!(pos_color("形状詞"), ADJ);
    assert_eq!(pos_color("助詞"), PARTICLE);
    assert_eq!(pos_color("助動詞"), AUX);
    assert_eq!(pos_color("補助記号"), SYMBOL);
    assert_eq!(pos_color("記号"), SYMBOL);
    assert_eq!(pos_color("副詞"), OTHER);
    assert_eq!(pos_color(""), OTHER);
}
