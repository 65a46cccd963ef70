use mecrab_builder::csv_export::{export_row, tally_export_rows, CsvExportStats};

fn strings(list: &[&str]) -> Vec<String> {
    list.iter().map(|s| s.to_string()).collect()
}

#[test]
fn export_rows_append_uri_and_score() {
    let fields = strings(&["東京", "1285", "1285", "3993"]);
    assert_eq!(
        export_row(&fields, "http://www.wikidata.org/entity/Q1490", "0.9"),
        strings(&["東京", "1285", "1285", "3993", "http://www.wikidata.org/entity/Q1490", "0.9"])
    );
    assert_eq!(export_row(&fields, "", "0"), strings(&["東京", "1285", "1285", "3993", "", "0"]));
    assert_eq!(export_row(&Vec::new(), "", "0"), strings(&["", "0"]));
}

#[test]
fn top_mode_statistics() {
    // 東京 has a URI above the threshold, 大阪 has none.
    let stats = tally_export_rows(&strings(&["東京", "大阪"]), &vec![true, false], true);
    assert_eq!(stats.total_rows, 2);
    assert_eq!(stats.rows_with_uri, 1);
    assert_eq!(stats.rows_plain, 1);
    assert_eq!(stats.unique_surfaces_with_uri, 1);
}

#[test]
fn fan_out_statistics_without_plain_rows() {
    let stats = tally_export_rows(&strings(&["東京"]), &vec![true], false);
    assert_eq!(stats.total_rows, 1);
    assert_eq!(stats.rows_with_uri, 1);
    assert_eq!(stats.rows_plain, 0);
    assert_eq!(stats.unique_surfaces_with_uri, 1);
}

#[test]
fn repeated_surfaces_count_once() {
    let stats = tally_export_rows(
        &strings(&["東京", "東京", "京都", "東京", "大阪"]),
        &vec![true, true, true, false, false],
        false,
    );
    assert_eq!(stats.total_rows, 5);
    assert_eq!(stats.rows_with_uri, 3);
    assert_eq!(stats.rows_plain, 0);
    assert_eq!(stats.unique_surfaces_with_uri, 2);
}

#[test]
fn empty_export_statistics() {
    let stats = tally_export_rows(&Vec::new(), &Vec::new(), true);
    let zero = CsvExportStats::default();
    assert_eq!(
        (stats.total_rows, stats.rows_with_uri, stats.rows_plain, stats.unique_surfaces_with_uri),
        (zero.total_rows, zero.rows_with_uri, zero.rows_plain, zero.unique_surfaces_with_uri)
    );
    assert_eq!(zero.total_rows, 0);
}
