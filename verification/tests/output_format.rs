use mecrab_builder::diagnostics::build_diagnostics;
use mecrab_builder::output_format::{
    build_dump_string, count_oov, build_wakati_string, decimal_string, escape_json_str, resolve_format, ApiError,
    DumpMorpheme, ParseFormat,
};

#[test]
fn escape_json_plain_and_specials() {
    assert_eq!(escape_json_str("東京"), "\"東京\"");
    assert_eq!(escape_json_str("a\"b\\c"), "\"a\\\"b\\\\c\"");
    assert_eq!(escape_json_str("x\ny\rz\t"), "\"x\\ny\\rz\\t\"");
    assert_eq!(escape_json_str("\u{1}\u{1f}"), "\"\\u0001\\u001f\"");
    assert_eq!(escape_json_str(""), "\"\"");
}

#[test]
fn decimal_rendering() {
    assert_eq!(decimal_string(0), "0");
    assert_eq!(decimal_string(1234567890), "1234567890");
    assert_eq!(decimal_string(u64::MAX), u64::MAX.to_string());
}

#[test]
fn dump_string_numbers_morphemes() {
    let ms = vec![
        DumpMorpheme { surface: "東京".to_string(), pos_id: 38, wcost: 3003, feature: "名詞,固有名詞".to_string() },
        DumpMorpheme { surface: "は".to_string(), pos_id: 16, wcost: -100, feature: "助詞".to_string() },
    ];
    assert_eq!(
        build_dump_string(&ms),
        "[0] 東京 (pos_id=38, wcost=3003)\t名詞,固有名詞\n[1] は (pos_id=16, wcost=-100)\t助詞\nEOS\n"
    );
    assert_eq!(build_dump_string(&vec![]), "EOS\n");
    let min = vec![DumpMorpheme { surface: String::new(), pos_id: 0, wcost: i64::MIN, feature: String::new() }];
    assert_eq!(build_dump_string(&min), format!("[0]  (pos_id=0, wcost={})\t\nEOS\n", i64::MIN));
}

#[test]
fn wakati_string_joins_with_spaces() {
    let s = vec!["すもも".to_string(), "も".to_string(), "もも".to_string()];
    assert_eq!(build_wakati_string(&s), "すもも も もも");
    assert_eq!(build_wakati_string(&vec![]), "");
    assert_eq!(build_wakati_string(&vec!["x".to_string()]), "x");
}

#[test]
fn parse_format_names_ignore_case() {
    assert_eq!(ParseFormat::from_str_opt("JSON"), Some(ParseFormat::Json));
    assert_eq!(ParseFormat::from_str_opt("Wakati"), Some(ParseFormat::Wakati));
    assert_eq!(ParseFormat::from_str_opt("dump"), Some(ParseFormat::Dump));
    assert_eq!(ParseFormat::from_str_opt("xml"), None);
    assert_eq!(ParseFormat::default(), ParseFormat::Json);
}

#[test]
fn resolve_format_prefers_query() {
    assert_eq!(resolve_format(None, None).ok(), Some(ParseFormat::Json));
    assert_eq!(resolve_format(Some("wakati"), None).ok(), Some(ParseFormat::Wakati));
    assert_eq!(resolve_format(Some("wakati"), Some("DUMP")).ok(), Some(ParseFormat::Dump));
    match resolve_format(Some("json"), Some("yaml")) {
        Err(ApiError::BadRequest(m)) => assert_eq!(m, "Unknown format 'yaml'. Valid values: json, wakati, dump"),
        other => panic!("unexpected {:?}", other),
    }
}

#[test]
fn diagnostics_for_unknown_words() {
    let text = "東京\nabc";
    let ms = vec![
        ("東京".to_string(), "名詞,固有名詞".to_string()),
        ("\n".to_string(), "記号".to_string()),
        ("abc".to_string(), "未知語,*".to_string()),
    ];
    let d = build_diagnostics(text, &ms);
    assert_eq!(d.len(), 1);
    assert_eq!(d[0].start, (1, 0));
    assert_eq!(d[0].end, (1, 3));
    assert_eq!(d[0].message, "Unknown word 'abc': not found in dictionary");

    let star = vec![("𠮷x".to_string(), "*,*".to_string())];
    let d = build_diagnostics("𠮷x", &star);
    assert_eq!(d.len(), 1);
    assert_eq!(d[0].start, (0, 0));
    assert_eq!(d[0].end, (0, 3));
}

#[test]
fn oov_tokens_are_counted() {
    assert_eq!(count_oov(&vec![1, u32::MAX, 7, u32::MAX]), 2);
    assert_eq!(count_oov(&vec![]), 0);
}
