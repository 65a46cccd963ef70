use mecrab_builder::error::Word2VecError;
use mecrab_builder::subword::{parse_subword_header, CharNgramExtractor, SubwordConfig, TrainingObjective};

fn fnv1a(s: &str) -> u64 {
    let mut h: u64 = 14_695_981_039_346_656_037;
    for b in s.as_bytes() {
        h ^= *b as u64;
        h = h.wrapping_mul(1_099_511_628_211);
    }
    h
}

#[test]
fn test_hash_ngram_deterministic() {
    let ext = CharNgramExtractor::new(2, 3, 1_000_000);
    let h1 = ext.hash_ngram("hello");
    let h2 = ext.hash_ngram("hello");
    assert_eq!(h1, h2);
}

#[test]
fn hash_ngram_is_fnv1a_modulo_buckets() {
    let ext = CharNgramExtractor::new(2, 3, 1_000_000);
    assert_eq!(ext.hash_ngram("hello") as u64, fnv1a("hello") % 1_000_000);
    assert_eq!(ext.hash_ngram("") as u64, 14_695_981_039_346_656_037u64 % 1_000_000);
}

#[test]
fn test_extract_bucket_ids_basic() {
    let ext = CharNgramExtractor::new(2, 3, 100);
    let ids = ext.extract_bucket_ids("東京");
    assert!(!ids.is_empty());
    assert!(ids.iter().all(|&id| id < 100));
    assert!(ids.windows(2).all(|w| w[0] <= w[1]));
}

#[test]
fn extract_bucket_ids_are_the_ngram_buckets() {
    let ext = CharNgramExtractor::new(2, 3, 1000);
    let ids = ext.extract_bucket_ids("ab");
    let mut expected: Vec<u32> = ["<a", "ab", "b>", "<ab", "ab>"]
        .iter()
        .map(|g| (fnv1a(g) % 1000) as u32)
        .collect();
    expected.sort();
    expected.dedup();
    assert_eq!(ids, expected);
}

#[test]
fn test_extract_empty_surface() {
    let ext = CharNgramExtractor::new(2, 3, 100);
    let ids = ext.extract_bucket_ids("");
    assert!(ids.is_empty());
}

#[test]
fn test_min_n_greater_than_word_length() {
    let ext = CharNgramExtractor::new(5, 6, 100);
    let ids = ext.extract_bucket_ids("ab");
    assert!(ids.is_empty());
}

#[test]
fn test_bucket_count_one() {
    let ext = CharNgramExtractor::new(2, 3, 1);
    let ids = ext.extract_bucket_ids("test");
    assert!(!ids.is_empty());
    assert!(ids.iter().all(|&id| id == 0));
}

#[test]
fn zero_min_or_buckets_give_nothing() {
    assert!(CharNgramExtractor::new(0, 3, 10).extract_bucket_ids("abc").is_empty());
    assert!(CharNgramExtractor::new(1, 3, 0).extract_bucket_ids("abc").is_empty());
}

#[test]
fn subword_defaults() {
    let c = SubwordConfig::default();
    assert_eq!((c.min_n, c.max_n, c.bucket_count), (3, 6, 2_000_000));
    assert_eq!(TrainingObjective::default(), TrainingObjective::SkipGram);
}

fn header_err(header: &str, has_count_line: bool) -> String {
    match parse_subword_header(header, has_count_line) {
        Err(Word2VecError::InvalidParameter(m)) => m,
        other => panic!("expected an invalid-parameter error, got {other:?}"),
    }
}

#[test]
fn subword_header_reads_the_four_keys() {
    let (cfg, vector_size, total) =
        parse_subword_header("# subword min_n=3 max_n=6 bucket_count=1000 vector_size=50", true).unwrap();
    assert_eq!((cfg.min_n, cfg.max_n, cfg.bucket_count), (3, 6, 1000));
    assert_eq!(vector_size, 50);
    assert_eq!(total, 50_000);
}

#[test]
fn subword_header_later_keys_override() {
    let (cfg, _, _) = parse_subword_header("min_n=2 max_n=4 min_n=1 bucket_count=10 vector_size=2", true).unwrap();
    assert_eq!(cfg.min_n, 1);
}

#[test]
fn subword_header_errors() {
    assert_eq!(header_err("min_n=x max_n=6", true), "cannot parse min_n from 'min_n=x'");
    assert_eq!(header_err("max_n=6 bucket_count=1 vector_size=1", true), "header missing min_n");
    assert_eq!(header_err("min_n=3 max_n=6 vector_size=1", true), "header missing bucket_count");
    assert_eq!(header_err("min_n=3 max_n=6 bucket_count=1 vector_size=1", false), "subword file missing count comment line");
    let big = format!("min_n=3 max_n=6 bucket_count={} vector_size=2", usize::MAX);
    assert_eq!(
        header_err(&big, true),
        format!("bucket_count ({}) * vector_size (2) overflows usize", usize::MAX)
    );
}
