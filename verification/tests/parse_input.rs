use mecrab_builder::parse_input::{parse_partial_file, parse_span_str};

#[test]
fn test_parse_force_span_string_parsing_valid() {
    let result = parse_span_str("3:6");
    assert_eq!(result, Ok((3usize, 6usize)));
}

#[test]
fn test_parse_force_span_string_parsing_zero_start() {
    let result = parse_span_str("0:9");
    assert_eq!(result, Ok((0usize, 9usize)));
}

#[test]
fn test_parse_force_span_string_parsing_invalid_alpha() {
    let result = parse_span_str("abc");
    assert!(result.is_err(), "non-numeric span string must fail");
    let msg = result.unwrap_err();
    assert!(msg.contains("expected format START:END"), "error message should mention expected format, got: {msg}");
}

#[test]
fn test_parse_force_span_string_parsing_invalid_start() {
    let result = parse_span_str("abc:6");
    assert!(result.is_err());
    let msg = result.unwrap_err();
    assert!(msg.contains("abc"), "error message should name the bad token, got: {msg}");
}

#[test]
fn test_parse_force_span_string_parsing_invalid_end() {
    let result = parse_span_str("3:xyz");
    assert!(result.is_err());
    let msg = result.unwrap_err();
    assert!(msg.contains("xyz"), "error message should name the bad token, got: {msg}");
}

#[test]
fn test_parse_force_span_string_parsing_equal_offsets() {
    let result = parse_span_str("5:5");
    assert!(result.is_err(), "start == end must be rejected");
}

#[test]
fn test_parse_force_span_string_parsing_inverted_offsets() {
    let result = parse_span_str("9:3");
    assert!(result.is_err(), "start > end must be rejected");
}

#[test]
fn span_uses_the_first_colon_and_allows_plus() {
    assert_eq!(parse_span_str("+1:2"), Ok((1, 2)));
    assert!(parse_span_str("1:2:3").is_err());
    assert!(parse_span_str(":2").is_err());
}

#[test]
fn test_partial_file_basic_example() {
    let contents = "私\t名詞,代名詞\nは\n本を\n読む\t動詞\nEOS\n";
    let sentences = parse_partial_file(contents);
    assert_eq!(sentences.len(), 1, "expected a single sentence");
    let (text, spans) = &sentences[0];
    assert_eq!(text.as_str(), "私は本を読む");
    assert_eq!(spans.len(), 4, "expected 4 forced spans");
    assert_eq!(spans[0], (0usize, 3usize, Some("名詞,代名詞".to_owned())));
    assert_eq!(spans[1], (3usize, 6usize, None));
    assert_eq!(spans[2], (6usize, 12usize, None));
    assert_eq!(spans[3], (12usize, 18usize, Some("動詞".to_owned())));
}

#[test]
fn test_partial_file_two_sentences_eos() {
    let contents = "猫\nです\nEOS\n犬\nだ\nEOS\n";
    let sentences = parse_partial_file(contents);
    assert_eq!(sentences.len(), 2, "expected two sentences");
    assert_eq!(sentences[0].0.as_str(), "猫です");
    assert_eq!(sentences[0].1.len(), 2);
    assert_eq!(sentences[0].1[0], (0usize, 3usize, None));
    assert_eq!(sentences[0].1[1], (3usize, 9usize, None));
    assert_eq!(sentences[1].0.as_str(), "犬だ");
    assert_eq!(sentences[1].1.len(), 2);
    assert_eq!(sentences[1].1[0], (0usize, 3usize, None));
    assert_eq!(sentences[1].1[1], (3usize, 6usize, None));
}

#[test]
fn test_partial_file_blank_line_terminator() {
    let contents = "猫\nです\n\n犬\nだ\n";
    let sentences = parse_partial_file(contents);
    assert_eq!(sentences.len(), 2, "blank line should split sentences");
    assert_eq!(sentences[0].0.as_str(), "猫です");
    assert_eq!(sentences[1].0.as_str(), "犬だ");
}

#[test]
fn test_partial_file_tab_feature() {
    let contents = "本を\t名詞\n";
    let sentences = parse_partial_file(contents);
    assert_eq!(sentences.len(), 1);
    let (text, spans) = &sentences[0];
    assert_eq!(text.as_str(), "本を");
    assert_eq!(spans.len(), 1);
    assert_eq!(spans[0], (0usize, 6usize, Some("名詞".to_owned())));
}

#[test]
fn test_partial_file_multibyte_byte_offsets() {
    let contents = "東京\n都\n";
    let sentences = parse_partial_file(contents);
    assert_eq!(sentences.len(), 1);
    let (text, spans) = &sentences[0];
    assert_eq!(text.as_str(), "東京都");
    assert_eq!(text.len(), 9, "3 kanji × 3 bytes = 9 bytes");
    assert_eq!(spans[0], (0usize, 6usize, None));
    assert_eq!(spans[1], (6usize, 9usize, None));
    for &(start, end, _) in spans {
        assert!(text.is_char_boundary(start), "start must be a char boundary");
        assert!(text.is_char_boundary(end), "end must be a char boundary");
    }
}

#[test]
fn test_partial_file_crlf() {
    let contents = "私\t名詞\r\nは\r\nEOS\r\n";
    let sentences = parse_partial_file(contents);
    assert_eq!(sentences.len(), 1);
    let (text, spans) = &sentences[0];
    assert_eq!(text.as_str(), "私は");
    assert_eq!(spans.len(), 2);
    assert_eq!(spans[0], (0usize, 3usize, Some("名詞".to_owned())));
    assert_eq!(spans[1], (3usize, 6usize, None));
}

#[test]
fn test_partial_file_empty_and_terminator_only() {
    assert!(parse_partial_file("").is_empty());
    assert!(parse_partial_file("EOS\n").is_empty());
    assert!(parse_partial_file("\n\n").is_empty());
    assert!(parse_partial_file("EOS\nEOS\n").is_empty());
}

#[test]
fn partial_file_empty_surface_with_feature_forces_nothing() {
    let s = parse_partial_file("\tX\na\n");
    assert_eq!(s.len(), 1);
    assert_eq!(s[0].0, "a");
    assert_eq!(s[0].1, vec![(0usize, 1usize, None)]);
}

#[test]
fn span_order_error_names_both_offsets() {
    assert_eq!(parse_span_str("9:3"), Err("invalid span '9:3': start (9) must be less than end (3)".to_string()));
}
