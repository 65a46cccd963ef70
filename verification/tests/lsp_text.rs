use mecrab_builder::lsp_text::{
    char_offset_to_position, extract_prefix_at, extract_word_at_column, is_cjk, is_unknown_feature, is_word_char,
    parse_ipadic_features, pos_to_completion_kind, utf16_width, word_at_position, CompletionKind,
};

#[test]
fn test_extract_word_at_pos_cjk_start() {
    let line = "東京は日本語";
    let result = extract_word_at_column(line, 0);
    assert!(result.is_some(), "expected Some at col 0");
    let (word, start, end) = result.unwrap();
    assert_eq!(start, 0);
    assert_eq!(end, 6);
    assert_eq!(word, "東京は日本語");
}

#[test]
fn test_extract_word_at_pos_cjk_mid() {
    let line = "東京は日本語";
    let result = extract_word_at_column(line, 2);
    assert!(result.is_some());
    let (word, start, end) = result.unwrap();
    assert_eq!(start, 0);
    assert_eq!(end, 6);
    assert_eq!(word, "東京は日本語");
}

#[test]
fn test_extract_word_at_pos_ascii_second_word() {
    let line = "Hello world";
    let result = extract_word_at_column(line, 6);
    assert!(result.is_some());
    let (word, start, end) = result.unwrap();
    assert_eq!(word, "world");
    assert_eq!(start, 6);
    assert_eq!(end, 11);
}

#[test]
fn test_extract_word_at_pos_ascii_first_word() {
    let line = "Hello world";
    let result = extract_word_at_column(line, 0);
    assert!(result.is_some());
    let (word, start, end) = result.unwrap();
    assert_eq!(word, "Hello");
    assert_eq!(start, 0);
    assert_eq!(end, 5);
}

#[test]
fn test_extract_word_at_pos_mixed_japanese_ascii() {
    let line = "今日はOK";
    let result = extract_word_at_column(line, 0);
    assert!(result.is_some());
    let (word, _, _) = result.unwrap();
    assert_eq!(word, "今日はOK");
}

#[test]
fn test_extract_word_at_pos_mixed_at_ascii_part() {
    let line = "今日は OK";
    let result = extract_word_at_column(line, 4);
    assert!(result.is_some());
    let (word, _, _) = result.unwrap();
    assert_eq!(word, "OK");
}

#[test]
fn test_extract_word_empty_line() {
    let result = extract_word_at_column("", 0);
    assert!(result.is_none(), "empty line should yield None");
}

#[test]
fn test_extract_word_out_of_bounds() {
    let line = "abc";
    let result = extract_word_at_column(line, 100);
    assert!(result.is_none(), "out-of-bounds col should yield None");
}

#[test]
fn test_extract_word_whitespace_only_position() {
    let line = "abc def";
    let result = extract_word_at_column(line, 3);
    assert!(result.is_some());
    let (word, _, _) = result.unwrap();
    assert_eq!(word, "abc");
}

#[test]
fn extract_word_at_end_of_line_and_between_spaces() {
    assert_eq!(extract_word_at_column("ab", 2), Some(("ab".to_string(), 0, 2)));
    assert_eq!(extract_word_at_column("a  b", 2), None);
    assert_eq!(extract_word_at_column("snake_case!", 3), Some(("snake_case".to_string(), 0, 10)));
}

#[test]
fn test_word_at_position_multiline() {
    let text = "first line\n東京都\nthird line";
    let result = word_at_position(text, 1, 0);
    assert!(result.is_some());
    let (word, start, end) = result.unwrap();
    assert_eq!(word, "東京都");
    assert_eq!(start, 0);
    assert_eq!(end, 3);
}

#[test]
fn test_word_at_position_out_of_line_range() {
    let text = "abc";
    assert!(word_at_position(text, 5, 0).is_none());
}

#[test]
fn test_cjk_char_range_kanji() {
    for ch in ['東', '京', '大', '阪', '語', '字'] {
        assert!(is_cjk(ch), "expected is_cjk('{ch}') == true");
    }
}

#[test]
fn test_cjk_char_range_hiragana() {
    for ch in ['あ', 'い', 'う', 'え', 'お', 'ん'] {
        assert!(is_cjk(ch), "hiragana '{ch}' should be detected as CJK");
    }
}

#[test]
fn test_cjk_char_range_katakana() {
    for ch in ['ア', 'イ', 'ウ', 'エ', 'オ', 'ン'] {
        assert!(is_cjk(ch), "katakana '{ch}' should be detected as CJK");
    }
}

#[test]
fn test_cjk_char_range_ascii_false() {
    for ch in ['a', 'z', 'A', 'Z', '0', '9', ' ', '!'] {
        assert!(!is_cjk(ch), "ASCII '{ch}' should NOT be detected as CJK");
    }
}

#[test]
fn cjk_range_edges_and_word_chars() {
    assert!(is_cjk('\u{3000}') && is_cjk('\u{9FFF}') && !is_cjk('\u{A000}'));
    assert!(is_cjk('\u{F900}') && is_cjk('\u{20000}') && !is_cjk('\u{2A6E0}'));
    assert!(is_word_char('_') && is_word_char('é') && is_word_char('7') && !is_word_char('-'));
}

#[test]
fn test_is_unknown_morpheme_prefix() {
    assert!(is_unknown_feature("未知語,*,*,*,*,*,*,*,*"));
}

#[test]
fn test_is_unknown_morpheme_star_fields() {
    assert!(is_unknown_feature("*,*,*,*,*,*,*,*,*"));
}

#[test]
fn test_is_unknown_morpheme_known_word_false() {
    assert!(!is_unknown_feature("名詞,固有名詞,地域,一般,*,*,東京,トウキョウ,トウキョウ"));
}

#[test]
fn test_parse_ipadic_features_full() {
    let feature = "名詞,固有名詞,地域,一般,*,*,東京,トウキョウ,トウキョウ";
    let (pos, sub_pos, base_form, reading) = parse_ipadic_features(feature);
    assert_eq!(pos, "名詞");
    assert_eq!(sub_pos, "固有名詞");
    assert_eq!(base_form, "東京");
    assert_eq!(reading, "トウキョウ");
}

#[test]
fn test_parse_ipadic_features_all_stars() {
    let feature = "*,*,*,*,*,*,*,*,*";
    let (pos, sub_pos, base_form, reading) = parse_ipadic_features(feature);
    assert_eq!(pos, "*");
    assert_eq!(sub_pos, "*");
    assert_eq!(base_form, "*");
    assert_eq!(reading, "*");
}

#[test]
fn test_parse_ipadic_features_short() {
    let feature = "名詞";
    let (pos, sub_pos, base_form, reading) = parse_ipadic_features(feature);
    assert_eq!(pos, "名詞");
    assert_eq!(sub_pos, "*");
    assert_eq!(base_form, "*");
    assert_eq!(reading, "*");
}

#[test]
fn test_utf16_column_calc_ascii() {
    let line = "Hello world";
    let col_utf16: u32 = utf16_width(&line[..5]);
    assert_eq!(col_utf16, 5);
}

#[test]
fn test_utf16_column_calc_cjk() {
    let line = "東京都";
    let col_utf16: u32 = utf16_width(line);
    assert_eq!(col_utf16, 3, "3 BMP kanji = 3 UTF-16 code units");
}

#[test]
fn test_utf16_column_calc_supplementary() {
    let s = "😀";
    let col_utf16: u32 = utf16_width(s);
    assert_eq!(col_utf16, 2, "emoji should be 2 UTF-16 code units");
}

#[test]
fn lsp_positions_count_lines_and_utf16_columns() {
    let text = "ab\n😀c\nx";
    assert_eq!(char_offset_to_position(text, 0), (0, 0));
    assert_eq!(char_offset_to_position(text, 2), (0, 2));
    assert_eq!(char_offset_to_position(text, 3), (1, 0));
    assert_eq!(char_offset_to_position(text, 5), (1, 3));
    assert_eq!(char_offset_to_position(text, 99), (2, 1));
}

#[test]
fn test_extract_prefix_at_mid_line() {
    let text = "東京都に行く\nfoo bar";
    assert_eq!(extract_prefix_at(text, 0, 3), "東京都");
}

#[test]
fn test_extract_prefix_at_nonexistent_line() {
    let text = "only one line";
    assert!(extract_prefix_at(text, 99, 0).is_empty());
}

#[test]
fn test_extract_prefix_at_clamped_col() {
    let text = "abc";
    assert_eq!(extract_prefix_at(text, 0, 999), "abc");
}

#[test]
fn test_pos_to_completion_kind_noun() {
    assert_eq!(pos_to_completion_kind("名詞"), CompletionKind::Text);
    assert_eq!(pos_to_completion_kind("名詞,固有名詞"), CompletionKind::Text);
}

#[test]
fn test_pos_to_completion_kind_verb() {
    assert_eq!(pos_to_completion_kind("動詞"), CompletionKind::Function);
    assert_eq!(pos_to_completion_kind("動詞,自立"), CompletionKind::Function);
}

#[test]
fn test_pos_to_completion_kind_adjective() {
    assert_eq!(pos_to_completion_kind("形容詞"), CompletionKind::Keyword);
    assert_eq!(pos_to_completion_kind("形状詞"), CompletionKind::Keyword);
}

#[test]
fn test_pos_to_completion_kind_particle() {
    assert_eq!(pos_to_completion_kind("助詞"), CompletionKind::Operator);
    assert_eq!(pos_to_completion_kind("助動詞"), CompletionKind::Operator);
}

#[test]
fn test_pos_to_completion_kind_fallback() {
    assert_eq!(pos_to_completion_kind("*"), CompletionKind::Value);
    assert_eq!(pos_to_completion_kind("感動詞"), CompletionKind::Value);
}
