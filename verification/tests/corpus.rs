use mecrab_builder::corpus::{parse_mecab_tsv_corpus, split_dev};

#[test]
fn test_parse_mecab_tsv_corpus_basic() {
    let corpus = "東京\t名詞,固有名詞\nは\t助詞\nEOS\n";
    let segs = parse_mecab_tsv_corpus(corpus);
    assert_eq!(segs.len(), 1);
    assert_eq!(segs[0].0, "東京は");
    assert_eq!(segs[0].1.lines().count(), 2);
}

#[test]
fn test_parse_mecab_tsv_corpus_multiple_sentences() {
    let corpus = "A\tx\nEOS\nB\ty\nEOS\n";
    let segs = parse_mecab_tsv_corpus(corpus);
    assert_eq!(segs.len(), 2);
    assert_eq!(segs[0].0, "A");
    assert_eq!(segs[1].0, "B");
}

#[test]
fn test_parse_mecab_tsv_corpus_no_trailing_eos() {
    let corpus = "X\ta\nY\tb";
    let segs = parse_mecab_tsv_corpus(corpus);
    assert_eq!(segs.len(), 1);
    assert_eq!(segs[0].0, "XY");
}

#[test]
fn test_parse_mecab_tsv_corpus_empty() {
    assert!(parse_mecab_tsv_corpus("").is_empty());
    assert!(parse_mecab_tsv_corpus("EOS\n").is_empty());
}

#[test]
fn mecab_tsv_blocks_keep_raw_lines() {
    let corpus = "東京\t名詞\r\n\n  \nは\t助詞\n  EOS  \n";
    let segs = parse_mecab_tsv_corpus(corpus);
    assert_eq!(segs, vec![("東京は".to_string(), "東京\t名詞\nは\t助詞".to_string())]);
}

#[test]
fn test_train_corpus_split_dev() {
    // Verify that dev_count correctly splits off the last N sentences.
    let n = 10_usize;
    let dev_ratio = 0.3_f64;
    let expected_dev = (n as f64 * dev_ratio).floor() as usize;
    assert_eq!(expected_dev, 3);
    let expected_train = n - 3;
    assert_eq!(expected_train, 7);
    assert_eq!(split_dev(n, expected_dev), (7, 3));
}

#[test]
fn test_dev_count_zero_when_ratio_zero() {
    let all_count = 100_usize;
    let dev_count = if 0.0_f64 > 0.0 {
        (all_count as f64 * 0.0_f64).floor() as usize
    } else {
        0
    };
    assert_eq!(dev_count, 0);
    assert_eq!(split_dev(all_count, dev_count), (100, 0));
}

#[test]
fn split_dev_keeps_one_training_sentence() {
    assert_eq!(split_dev(5, 9), (1, 4));
    assert_eq!(split_dev(1, 1), (1, 0));
    assert_eq!(split_dev(0, 3), (0, 0));
}
