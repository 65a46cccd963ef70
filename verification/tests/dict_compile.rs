use mecrab_builder::char_writer::{pack_char_info, CharRange};
use mecrab_builder::dict_compile::{
    check_unk_categories, compile_images, parse_char_def, parse_lexicon_csv, parse_matrix_def, parse_unk_def,
    MAX_CODE_POINT,
};
use mecrab_builder::decode::decode_bytes;

#[test]
fn char_def_assigns_default_to_unmapped_code_points() {
    let src = parse_char_def("DEFAULT 0 1 0\nSPACE 0 1 0\n0x0020 SPACE\n").expect("char.def must parse");
    assert_eq!(src.ranges.len(), 2);
    assert_eq!(src.ranges[0].lo, 0);
    assert_eq!(src.ranges[0].hi, MAX_CODE_POINT);
    assert_eq!(src.ranges[0].info, pack_char_info(1, 0, 0, true, false));
    assert_eq!(src.ranges[1].info, pack_char_info(1 << 1, 1, 0, true, false));
}

#[test]
fn char_def_merges_compatible_categories() {
    let src = parse_char_def("DEFAULT 0 1 0\nKANJI 0 0 2\nKANJINUMERIC 1 1 0\n0x4E00 KANJINUMERIC KANJI\n")
        .expect("char.def must parse");
    let mapping = src.ranges.last().expect("mapping range");
    assert_eq!(mapping.info, pack_char_info((1 << 8) | (1 << 2), 8, 0, true, true));
}

#[test]
fn char_def_rejects_unknown_category() {
    let err = parse_char_def("DEFAULT 0 1 0\nEMOJI 1 1 0\n").expect_err("must reject");
    assert!(err.contains("EMOJI"), "message must name the category: {err}");
}

#[test]
fn char_def_requires_default() {
    let err = parse_char_def("SPACE 0 1 0\n").expect_err("must reject");
    assert!(err.contains("DEFAULT"), "message must mention DEFAULT: {err}");
}

#[test]
fn char_def_ranges_comments_and_flags() {
    let text = "# header comment\r\nDEFAULT 1 0 3 # trailing\n\n  HIRAGANA 0 1 2\n0x3041..0x3096 HIRAGANA # kana\n";
    let src = parse_char_def(text).expect("char.def must parse");
    assert_eq!(src.ranges.len(), 2);
    assert_eq!(src.ranges[0].info, pack_char_info(1, 0, 3, false, true));
    assert_eq!(src.ranges[1].lo, 0x3041);
    assert_eq!(src.ranges[1].hi, 0x3096);
    assert_eq!(src.ranges[1].info, pack_char_info(1 << 6, 6, 2, true, false));
    let h = src.flags[6].expect("HIRAGANA declared");
    assert!(h.group && !h.invoke && h.length == 2);
    assert!(src.flags[1].is_none());
}

#[test]
fn char_def_rejects_backwards_range_and_bad_fields() {
    assert!(parse_char_def("DEFAULT 0 1 0\n0x0030..0x0020 DEFAULT\n").is_err());
    assert!(parse_char_def("DEFAULT 0 1 16\n").is_err());
    assert!(parse_char_def("DEFAULT 0 1\n").is_err());
    assert!(parse_char_def("DEFAULT 0 1 0\n0xZZ DEFAULT\n").is_err());
    assert!(parse_char_def("DEFAULT 0 1 0\n0x0020\n").is_err());
    // a mapping to a category the file never declares
    assert!(parse_char_def("DEFAULT 0 1 0\n0x0020 SPACE\n").is_err());
}

#[test]
fn matrix_def_uses_reader_index_formula() {
    let (lsize, rsize, costs) = parse_matrix_def("2 3\n0 0 -1\n1 2 7\n").expect("matrix.def must parse");
    assert_eq!((lsize, rsize), (2, 3));
    assert_eq!(costs.len(), 6);
    assert_eq!(costs[0], -1);
    assert_eq!(costs[5], 7);
    assert_eq!(costs[4], 0, "the transposed cell must stay empty");
}

#[test]
fn matrix_def_rejects_out_of_range_ids() {
    let err = parse_matrix_def("2 2\n5 0 1\n").expect_err("must reject");
    assert!(err.contains("right-context id"), "message must name the field: {err}");
}

#[test]
fn matrix_def_header_and_cost_checks() {
    assert!(parse_matrix_def("").is_err());
    assert!(parse_matrix_def("# only a comment\n").is_err());
    assert!(parse_matrix_def("0 4\n").is_err());
    assert!(parse_matrix_def("2 2\n0 0 40000\n").is_err());
    assert!(parse_matrix_def("2 2\n0 2 1\n").is_err());
    let (l, r, c) = parse_matrix_def("\n# dims\n1 1\n0 0 +5 extra\n").unwrap();
    assert_eq!((l, r, c), (1, 1, vec![5]));
}

#[test]
fn csv_keeps_commas_inside_the_feature_string() {
    let entries = parse_lexicon_csv(
        "東京,1285,1285,3780,名詞,固有名詞,地域,一般,*,*,東京,トウキョウ,トウキョウ\n",
        "test.csv",
    )
    .expect("csv must parse");
    assert_eq!(entries.len(), 1);
    assert_eq!(entries[0].surface, "東京");
    assert_eq!(entries[0].wcost, 3780);
    assert_eq!(entries[0].feature, "名詞,固有名詞,地域,一般,*,*,東京,トウキョウ,トウキョウ");
}

#[test]
fn csv_fields_ranges_and_blank_lines() {
    let entries = parse_lexicon_csv("a, 1 ,2,-3,f\r\n\n   \nb,0,0,0,\n", "x.csv").unwrap();
    assert_eq!(entries.len(), 2);
    assert_eq!((entries[0].left_id, entries[0].right_id, entries[0].wcost, entries[0].pos_id), (1, 2, -3, 0));
    assert_eq!(entries[1].feature, "");
    assert!(parse_lexicon_csv("a,1,2,3\n", "x.csv").is_err());
    assert!(parse_lexicon_csv("a,70000,2,3,f\n", "x.csv").is_err());
    assert!(parse_lexicon_csv("a,1,2,40000,f\n", "x.csv").is_err());
    let err = parse_lexicon_csv("a,x,2,3,f\n", "x.csv").unwrap_err();
    assert!(err.contains("x.csv") && err.contains("line 1"), "{err}");
}

#[test]
fn unk_def_rejects_unknown_category() {
    let err = parse_unk_def("EMOJI,1,1,100,記号,一般,*,*,*,*,*\n").expect_err("must reject");
    assert!(err.contains("EMOJI"), "message must name the category: {err}");
}

#[test]
fn unk_def_accepts_canonical_names_and_rejects_empty() {
    let es = parse_unk_def("KANJI,1,1,100,名詞,一般\n").unwrap();
    assert_eq!(es[0].surface, "KANJI");
    assert!(parse_unk_def("\n").is_err());
}

#[test]
fn unk_categories_must_be_declared() {
    let src = parse_char_def("DEFAULT 0 1 0\nKANJI 0 0 2\n").unwrap();
    let ok = parse_unk_def("KANJI,1,1,100,名詞\n").unwrap();
    assert!(check_unk_categories(&src.flags, &ok).is_ok());
    let bad = parse_unk_def("SPACE,1,1,100,記号\n").unwrap();
    let err = check_unk_categories(&src.flags, &bad).unwrap_err();
    assert!(err.contains("SPACE"), "{err}");
}

#[test]
fn compile_images_builds_all_four() {
    let src = parse_char_def("DEFAULT 0 1 0\nKATAKANA 1 1 2\n0x30A1..0x30FF KATAKANA\n").unwrap();
    let unk = parse_unk_def("DEFAULT,1,1,10000,記号\nKATAKANA,1,1,10000,名詞,一般\n").unwrap();
    let (l, r, costs) = parse_matrix_def("2 2\n0 0 0\n").unwrap();
    let lex = parse_lexicon_csv("東京,1,1,3000,名詞\n", "lex.csv").unwrap();
    let (sys, matrix, chr, unk_dic, stats) = compile_images(&src, &unk, l, r, &costs, &lex).unwrap();
    assert_eq!(chr.len(), 4 + 11 * 32 + 0xFFFF * 4);
    assert_eq!(matrix.len(), 4 + 2 * 2 * 2);
    assert_eq!(stats.sys_tokens, 1);
    assert_eq!(stats.unk_tokens, 2);
    assert_eq!(stats.matrix_size, (2, 2));
    assert_eq!(stats.bytes, [sys.len(), matrix.len(), chr.len(), unk_dic.len()]);
    assert!(compile_images(&src, &unk, l, r, &costs, &Vec::new()).is_err());
    let _ = CharRange { lo: 0, hi: 0, info: 0 };
}

#[test]
fn euc_jp_sources_decode_to_utf8() {
    let (bytes, _, _) = encoding_rs::EUC_JP.encode("東京,1285,1285,3780,名詞,一般");
    let text = decode_bytes(&bytes, "euc-jp", "test.csv").expect("must decode");
    assert!(text.starts_with("東京"), "decoded {text:?}");
    let err = decode_bytes(&bytes, "utf-8", "test.csv").expect_err("must reject");
    assert!(err.contains("not valid"), "message: {err}");
    assert!(decode_bytes(b"abc", "no-such-charset", "x").is_err());
}

#[test]
fn unknown_charset_is_quoted_as_debug_text() {
    assert_eq!(
        decode_bytes(b"x", "klingon", "lex.csv"),
        Err("unknown --charset \"klingon\" (try utf-8, euc-jp or shift_jis)".to_string())
    );
    assert_eq!(
        decode_bytes(b"x", "a\"b\\", "lex.csv"),
        Err("unknown --charset \"a\\\"b\\\\\" (try utf-8, euc-jp or shift_jis)".to_string())
    );
}

fn char_def_err(text: &str) -> String {
    match parse_char_def(text) {
        Err(e) => e,
        Ok(_) => panic!("char.def must be rejected: {text:?}"),
    }
}

#[test]
fn char_def_messages_name_the_offending_values() {
    assert_eq!(char_def_err("DEFAULT 0 1 0\n0x0030..0x0020 DEFAULT\n"), "char.def line 2: range \"0x0030..0x0020\" runs backwards");
    assert_eq!(char_def_err("DEFAULT 0 1 0\n0xZZ DEFAULT\n"), "char.def line 2: bad code point \"0xZZ\": invalid digit found in string");
    assert_eq!(char_def_err("DEFAULT 0 1 0\n0x10..20 DEFAULT\n"), "char.def line 2: \"20\" is not a 0x… code point");
    assert_eq!(char_def_err("DEFAULT 0 1 0\n0x0020\n"), "char.def line 2: 0x0020 has no category name");
    assert_eq!(char_def_err("DEFAULT 0 1 16\n"), "char.def line 1: LENGTH 16 does not fit the 4 bit field (max 15)");
    assert_eq!(char_def_err("DEFAULT 0 1\n"), "char.def line 1: expected 'NAME INVOKE GROUP LENGTH', got \"DEFAULT 0 1\"");
    assert_eq!(char_def_err("DEFAULT x 1 0\n"), "char.def line 1: bad INVOKE \"x\": invalid digit found in string");
    assert_eq!(
        char_def_err("DEFAULT 0 1 0\n0x0020 SPACE\n"),
        "char.def maps 0x0020..0x0020 to category SPACE before defining it"
    );
    assert_eq!(
        char_def_err("DEFAULT 0 1 0\nEMOJI 1 1 0\n"),
        "char.def line 2: unknown character category \"EMOJI\": mecrab's CharCategory only defines DEFAULT, SPACE, KANJI, \
         SYMBOL, NUMERIC, ALPHA, HIRAGANA, KATAKANA, KANJINUMERIC, GREEK, CYRILLIC. A dictionary using other categories \
         cannot be represented — rename the category or extend CharCategory first."
    );
}

#[test]
fn matrix_def_messages_name_the_offending_values() {
    assert_eq!(parse_matrix_def("2 2\n5 0 1\n").unwrap_err(), "matrix.def line 2: right-context id 5 is outside 0..2");
    assert_eq!(parse_matrix_def("2 2\n0 -1 1\n").unwrap_err(), "matrix.def line 2: left-context id -1 is outside 0..2");
    assert_eq!(parse_matrix_def("2 2\n0 0 40000\n").unwrap_err(), "matrix.def line 2: cost 40000 does not fit an i16");
    assert_eq!(parse_matrix_def("2 x\n").unwrap_err(), "matrix.def line 1: bad right_size: invalid digit found in string");
    assert_eq!(parse_matrix_def("70000 1\n").unwrap_err(), "matrix.def line 1: bad left_size: number too large to fit in target type");
    assert_eq!(parse_matrix_def("2\n").unwrap_err(), "matrix.def line 1: missing right_size");
    assert_eq!(parse_matrix_def("0 3\n").unwrap_err(), "matrix.def line 1: dimensions 0×3 describe an empty matrix");
    assert_eq!(parse_matrix_def("2 2\n0 0\n").unwrap_err(), "matrix.def line 2: missing cost");
    assert_eq!(parse_matrix_def("2 2\n- 0 1\n").unwrap_err(), "matrix.def line 2: bad right-context id: invalid digit found in string");
}

#[test]
fn lexicon_messages_name_the_offending_values() {
    assert_eq!(
        parse_lexicon_csv("東京,1,2\n", "x.csv").unwrap_err(),
        "x.csv line 1: expected 'surface,left_id,right_id,cost,feature…', got \"東京,1,2\""
    );
    assert_eq!(
        parse_lexicon_csv("東京, a ,2,3,名詞\n", "x.csv").unwrap_err(),
        "x.csv line 1: bad left_id \" a \": invalid digit found in string"
    );
    assert_eq!(
        parse_lexicon_csv("東京,1,,3,名詞\n", "x.csv").unwrap_err(),
        "x.csv line 1: bad right_id \"\": cannot parse integer from empty string"
    );
    assert_eq!(
        parse_lexicon_csv("東京,70000,2,3,名詞\n", "x.csv").unwrap_err(),
        "x.csv line 1: left_id 70000 is outside 0..=65535"
    );
    assert_eq!(
        parse_lexicon_csv("東京,1,2,-40000,名詞\n", "x.csv").unwrap_err(),
        "x.csv line 1: cost -40000 is outside -32768..=32767"
    );
    assert_eq!(
        parse_lexicon_csv("東京,1,2,99999999999999999999,名詞\n", "x.csv").unwrap_err(),
        "x.csv line 1: bad cost \"99999999999999999999\": number too large to fit in target type"
    );
}
