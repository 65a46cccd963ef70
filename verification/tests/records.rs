use mecrab_builder::ontology::plan_json_entries;
use mecrab_builder::records::{csv_file_bytes, ontology_csv_rows, source_rows, text_file_lines};
use std::io::Write;

fn rows(v: &[&[&str]]) -> Vec<Vec<String>> {
    v.iter().map(|r| r.iter().map(|f| f.to_string()).collect()).collect()
}

#[test]
fn source_rows_keep_the_first_line() {
    let got = source_rows("東京,1285,1285,3780,名詞\nは,261,261,3865,助詞\n".as_bytes(), false).unwrap();
    assert_eq!(got, rows(&[&["東京", "1285", "1285", "3780", "名詞"], &["は", "261", "261", "3865", "助詞"]]));
}

#[test]
fn source_rows_read_quoted_fields() {
    let got = source_rows(b"\"a,b\",c\n", true).unwrap();
    assert_eq!(got, rows(&[&["a,b", "c"]]));
}

#[test]
fn source_rows_flexible_allows_ragged_records() {
    let bytes = b"a,b,c\nd\n";
    assert_eq!(source_rows(bytes, true).unwrap(), rows(&[&["a", "b", "c"], &["d"]]));
    let err = source_rows(bytes, false).unwrap_err();
    assert_eq!(err, "CSV error: a record could not be read");
}

#[test]
fn source_rows_refuse_invalid_utf8() {
    assert!(source_rows(b"a,\xff\n", true).is_err());
}

#[test]
fn ontology_csv_keeps_rows_with_surface_and_uri() {
    let text = "surface,uri,confidence\n東京,http://x/Q1,0.9\n,http://x/Q2\nonly\n大阪,http://x/Q3\n京都,,0.5\n";
    let (kept, skipped) = ontology_csv_rows(text.as_bytes()).unwrap();
    assert_eq!(
        kept,
        vec![
            ("東京".to_string(), "http://x/Q1".to_string(), Some("0.9".to_string())),
            ("大阪".to_string(), "http://x/Q3".to_string(), None),
        ]
    );
    assert_eq!(skipped, 3);
}

#[test]
fn text_file_lines_split_like_buffered_lines() {
    let got = text_file_lines(b"a\r\nb\n\nc".to_vec(), false).unwrap();
    assert_eq!(got, vec!["a", "b", "", "c"]);
    assert_eq!(text_file_lines(b"x\n".to_vec(), false).unwrap(), vec!["x"]);
    assert!(text_file_lines(Vec::new(), false).unwrap().is_empty());
}

#[test]
fn text_file_lines_refuse_invalid_utf8() {
    let err = text_file_lines(vec![b'a', 0xff, b'\n'], false).unwrap_err();
    assert_eq!(err, "stream did not contain valid UTF-8");
}

#[test]
fn text_file_lines_inflate_gzip() {
    let mut enc = flate2::write::GzEncoder::new(Vec::new(), flate2::Compression::default());
    enc.write_all("<a> <b> \"東京\"@ja .\nsecond\n".as_bytes()).unwrap();
    let gz = enc.finish().unwrap();
    let got = text_file_lines(gz, true).unwrap();
    assert_eq!(got, vec!["<a> <b> \"東京\"@ja .", "second"]);
}

#[test]
fn text_file_lines_report_a_bad_gzip_stream() {
    let err = text_file_lines(b"plain text\n".to_vec(), true).unwrap_err();
    assert_eq!(err, "gzip error: the stream could not be inflated");
}

#[test]
fn json_ontology_plan_skips_entries_without_surface_or_uri() {
    let e = |s: &str, u: &str, al: &[&str]| (s.to_string(), u.to_string(), al.iter().map(|x| x.to_string()).collect::<Vec<_>>());
    let entries = vec![e("東京", "http://x/Q1", &["東京都", "", "Tokyo"]), e("", "http://x/Q2", &["x"]), e("大阪", "", &[]), e("京都", "http://x/Q3", &[])];
    let (kept, stats) = plan_json_entries(&entries);
    assert_eq!(kept, vec![(0, vec!["東京都".to_string(), "Tokyo".to_string()]), (3, vec![])]);
    assert_eq!(stats.entries_read, 2);
    assert_eq!(stats.surfaces_added, 2);
    assert_eq!(stats.aliases_added, 2);
    assert_eq!(stats.skipped_invalid, 2);
}

#[test]
fn csv_file_bytes_quote_where_needed_and_read_back() {
    let rows = vec![
        vec!["東京".to_string(), "a,b".to_string(), "say \"hi\"".to_string()],
        vec!["x".to_string(), "".to_string(), "y".to_string()],
    ];
    let bytes = csv_file_bytes(&rows).unwrap();
    assert_eq!(String::from_utf8(bytes.clone()).unwrap(), "東京,\"a,b\",\"say \"\"hi\"\"\"\nx,,y\n");
    assert_eq!(source_rows(&bytes, false).unwrap(), rows);
    let ragged = vec![vec!["a".to_string(), "b".to_string()], vec!["c".to_string()]];
    assert_eq!(csv_file_bytes(&ragged).unwrap_err(), "CSV error: a record could not be written");
}
