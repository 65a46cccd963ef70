use mecrab_builder::error::BuildError;
use mecrab_builder::semantic_merge::{
    check_build_sources, extend_record, merge_dictionary_rows, BuildConfig, BuildProgress, BuildResult,
};
use mecrab_builder::wikidata_entry::{dump_line_entity, wikidata_entity_uri};

fn row(text: &str) -> Vec<String> {
    text.split(',').map(str::to_string).collect()
}

fn uris(list: &[&str]) -> Option<Vec<String>> {
    Some(list.iter().map(|s| s.to_string()).collect())
}

#[test]
fn build_config_defaults() {
    let c = BuildConfig::default();
    assert_eq!(c.source_csv, "");
    assert_eq!(c.output_dir, "./output");
    assert_eq!(c.max_candidates, 5);
    assert_eq!(c.num_workers, 0);
    assert!(!c.verbose);
    assert!(c.entity_type_filter.is_empty());
    assert!(c.calibration_enabled);
    assert!(c.wikidata_path.is_none() && c.wikipedia_path.is_none() && c.dbpedia_path.is_none());
    assert!(c.load_existing.is_none());
    assert!(!c.streaming && !c.online_resolution);
    assert!(c.ontology_paths.is_empty());
}

#[test]
fn build_needs_an_entity_source() {
    let c = BuildConfig::default();
    match check_build_sources(&c) {
        Err(BuildError::InvalidInput(m)) => {
            assert_eq!(m, "At least one of wikidata_path or wikipedia_path must be specified")
        }
        _ => panic!("expected InvalidInput"),
    }
    let with_wikidata = BuildConfig { wikidata_path: Some("latest-all.json".to_string()), ..BuildConfig::default() };
    assert!(check_build_sources(&with_wikidata).is_ok());
    let with_wikipedia = BuildConfig { wikipedia_path: Some("abstract.xml".to_string()), ..BuildConfig::default() };
    assert!(check_build_sources(&with_wikipedia).is_ok());
}

#[test]
fn proper_noun_row_keeps_ranked_uris() {
    let fields = row("東京,1285,1285,3993,名詞-固有名詞-地名-一般,*,*,*,*,*,東京,トウキョウ,トウキョウ");
    let ranked = uris(&["http://www.wikidata.org/entity/Q1490", "http://dbpedia.org/resource/Tokyo"]);
    let (out, n) = extend_record(&fields, &ranked, 5);
    assert_eq!(n, 2);
    assert_eq!(out.len(), fields.len() + 2);
    assert_eq!(&out[..fields.len()], &fields[..]);
    assert_eq!(out[fields.len()], "2");
    assert_eq!(out[fields.len() + 1], "http://www.wikidata.org/entity/Q1490|http://dbpedia.org/resource/Tokyo");
}

#[test]
fn candidates_are_capped() {
    let fields = row("東京,1285,1285,3993,名詞-固有名詞-地名-一般,*,*,*,*,*,東京,トウキョウ,トウキョウ");
    let ranked = uris(&["a", "b", "c"]);
    let (out, n) = extend_record(&fields, &ranked, 2);
    assert_eq!(n, 2);
    assert_eq!(out[13], "2");
    assert_eq!(out[14], "a|b");
    let (out, n) = extend_record(&fields, &ranked, 0);
    assert_eq!(n, 0);
    assert_eq!(out[13], "0");
    assert_eq!(out[14], "");
}

#[test]
fn common_noun_row_keeps_nothing() {
    // The fifth field is a common noun: no entity type is allowed.
    let fields = row("机,1285,1285,3000,名詞-一般,*,*,*,*,*,机,ツクエ,ツクエ");
    let (out, n) = extend_record(&fields, &uris(&["http://www.wikidata.org/entity/Q14748"]), 5);
    assert_eq!(n, 0);
    assert_eq!(out[13], "0");
    assert_eq!(out[14], "");
}

#[test]
fn ipadic_proper_noun_reads_the_whole_part_of_speech() {
    // The part of speech is every field from the fifth on: 名詞,固有名詞,地域,一般,…
    // names a proper noun, which allows every entity type.
    let fields = row("東京,1285,1285,3780,名詞,固有名詞,地域,一般,*,*,東京,トウキョウ,トウキョウ");
    let ranked = uris(&["http://www.wikidata.org/entity/Q1490", "http://dbpedia.org/resource/Tokyo"]);
    let (out, n) = extend_record(&fields, &ranked, 1);
    assert_eq!(n, 1);
    assert_eq!(out[13], "1");
    assert_eq!(out[14], "http://www.wikidata.org/entity/Q1490");
    let place = row("大阪,1285,1285,4000,名詞,固有名詞,地名,一般,*,*,大阪,オオサカ,オオサカ");
    assert_eq!(extend_record(&place, &ranked, 5).1, 2);
}

#[test]
fn ipadic_common_noun_keeps_nothing() {
    let fields = row("机,1285,1285,3000,名詞,一般,*,*,*,*,机,ツクエ,ツクエ");
    let (out, n) = extend_record(&fields, &uris(&["u"]), 5);
    assert_eq!(n, 0);
    assert_eq!(out[13], "0");
    assert_eq!(out[14], "");
}

#[test]
fn organisation_and_person_rows_keep_uris() {
    let org = row("国連,1,1,1,名詞-固有名詞-組織,*,*,*,*,*,国連,コクレン,コクレン");
    assert_eq!(extend_record(&org, &uris(&["u1"]), 5).1, 1);
    let person = row("漱石,1,1,1,名詞-固有名詞-人名-名,*,*,*,*,*,漱石,ソウセキ,ソウセキ");
    assert_eq!(extend_record(&person, &uris(&["u1", "u2"]), 5).1, 2);
    let other = row("ポチ,1,1,1,名詞-固有名詞-一般,*,*,*,*,*,ポチ,ポチ,ポチ");
    assert_eq!(extend_record(&other, &uris(&["u1"]), 5).1, 1);
}

#[test]
fn row_without_candidates_gets_zero() {
    let fields = row("大阪,1285,1285,4000,名詞,固有名詞,地名,一般,*,*,大阪,オオサカ,オオサカ");
    let (out, n) = extend_record(&fields, &None, 5);
    assert_eq!(n, 0);
    assert_eq!(out.len(), 15);
    assert_eq!(out[13], "0");
    assert_eq!(out[14], "");
}

#[test]
fn short_row_reads_empty_part_of_speech() {
    // Fewer than five fields: the part of speech is empty and allows nothing.
    let fields = row("東京,1,1");
    let (out, n) = extend_record(&fields, &uris(&["u"]), 5);
    assert_eq!(n, 0);
    assert_eq!(out, vec!["東京", "1", "1", "0", ""]);
}

#[test]
fn merge_counts_rows_and_candidates() {
    let rows = vec![
        row("東京,1285,1285,3993,名詞-固有名詞-地名-一般,*,*,*,*,*,東京,トウキョウ,トウキョウ"),
        row("大阪,1285,1285,4000,名詞-固有名詞-地名-一般,*,*,*,*,*,大阪,オオサカ,オオサカ"),
        row("机,1285,1285,3000,名詞-一般,*,*,*,*,*,机,ツクエ,ツクエ"),
        row("京都,1285,1285,3500,名詞-固有名詞-地名-一般,*,*,*,*,*,京都,キョウト,キョウト"),
    ];
    let ranked = vec![uris(&["q1", "q2", "q3"]), None, uris(&["q9"]), uris(&["q4"])];
    let (out, processed, with_semantics, candidates) = merge_dictionary_rows(&rows, &ranked, 2);
    assert_eq!(out.len(), 4);
    assert_eq!(processed, 4);
    assert_eq!(with_semantics, 2);
    assert_eq!(candidates, 3);
    assert_eq!(out[0][14], "q1|q2");
    assert_eq!(out[1][14], "");
    assert_eq!(out[2][13], "0");
    assert_eq!(out[3][13], "1");
    assert_eq!(out[3][14], "q4");
}

#[test]
fn merge_of_no_rows() {
    let (out, p, w, c) = merge_dictionary_rows(&Vec::new(), &Vec::new(), 5);
    assert!(out.is_empty());
    assert_eq!((p, w, c), (0, 0, 0));
}

#[test]
fn build_records_hold_their_fields() {
    let p = BuildProgress { phase: "merge".to_string(), processed: 3, total: 10 };
    assert_eq!(p.clone().processed, 3);
    let r = BuildResult {
        entries_processed: 4,
        entries_with_semantics: 2,
        total_candidates: 3,
        output_files: vec!["out/extended.csv".to_string()],
    };
    assert_eq!(r.clone().output_files.len(), 1);
}

#[test]
fn dump_lines_yield_entity_text() {
    assert_eq!(dump_line_entity("["), None);
    assert_eq!(dump_line_entity("  ]  "), None);
    assert_eq!(dump_line_entity("   "), None);
    assert_eq!(dump_line_entity(""), None);
    assert_eq!(dump_line_entity("{\"id\":\"Q1\"},").as_deref(), Some("{\"id\":\"Q1\"}"));
    assert_eq!(dump_line_entity("  {\"id\":\"Q2\"}  ").as_deref(), Some("{\"id\":\"Q2\"}"));
    assert_eq!(dump_line_entity("{},,").as_deref(), Some("{}"));
    // Only commas are taken off the end, after trimming.
    assert_eq!(dump_line_entity("{} ,").as_deref(), Some("{} "));
    assert_eq!(dump_line_entity("[1]").as_deref(), Some("[1]"));
}

#[test]
fn wikidata_uris() {
    assert_eq!(wikidata_entity_uri("Q1490"), "http://www.wikidata.org/entity/Q1490");
    assert_eq!(wikidata_entity_uri(""), "http://www.wikidata.org/entity/");
}
