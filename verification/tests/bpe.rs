use mecrab_builder::bpe::{BpeTrainer, BpeVocab};
use mecrab_builder::bpe_state::BpeState;

fn small_corpus() -> Vec<String> {
    vec![
        "東京 は 東京 東京 東京 東京".to_string(),
        "東京 東京 日本 日本 日本".to_string(),
        "東京 は 日本 の 首都 です".to_string(),
        "日本 日本 東京 東京 東京 東京 東京".to_string(),
        "東京 東京 東京 東京 東京 東京".to_string(),
    ]
}

fn vocab_has(v: &BpeVocab, s: &str) -> bool {
    v.vocab.get(s).is_some()
}

#[test]
fn test_bpe_trainer_small_corpus() {
    let corpus = small_corpus();
    let trainer = BpeTrainer::new(200).with_min_frequency(2);
    let vocab = trainer.train(&corpus).expect("train must succeed");

    assert!(
        !vocab.merges.is_empty(),
        "at least one merge should be performed on a repetitive corpus"
    );
    assert!(!vocab.vocab.is_empty(), "vocab map must be non-empty after training");
    assert!(vocab_has(&vocab, "[UNK]"), "[UNK] must be in vocab");
}

#[test]
fn test_bpe_encode_decode() {
    let corpus = vec![
        "東京 東京 東京 東京 東京 東京 東京 東京 東京 東京".to_string(),
        "東京 東京 東京 東京 東京 東京 東京 東京".to_string(),
        "東京 東京 東京 東京 東京 東京".to_string(),
    ];
    let trainer = BpeTrainer::new(50).with_min_frequency(2);
    let vocab = trainer.train(&corpus).expect("train must succeed");

    let tokens = vocab.encode("東京");
    assert!(!tokens.is_empty(), "encoding non-empty text must produce at least one token");

    if !vocab.merges.is_empty() {
        let raw_char_count = "東京".chars().count() + 1;
        assert!(
            tokens.len() <= raw_char_count,
            "merged encoding must not be longer than unmerged char sequence"
        );
    }
}

#[test]
fn test_bpe_min_frequency() {
    let corpus = vec![
        "東京 大阪".to_string(),
        "京都 神戸".to_string(),
        "東京 大阪".to_string(),
    ];
    let trainer = BpeTrainer::new(500).with_min_frequency(100);
    let vocab = trainer.train(&corpus).expect("train must succeed");

    assert_eq!(
        vocab.merges.len(),
        0,
        "no merges should occur when min_frequency > all pair counts"
    );
}

#[test]
fn bpe_merges_the_most_frequent_pair_first() {
    // 東京 occurs 19 times and 日本 6 times; every other pair once.
    let corpus = small_corpus();
    let vocab = BpeTrainer::new(200).with_min_frequency(2).train(&corpus).unwrap();
    let first = &vocab.merges[0];
    assert_eq!(first.left, "東");
    assert_eq!(first.right, "京</w>");
    assert_eq!(first.merged, "東京</w>");
    assert_eq!(first.freq, 19);
    // then (日, 本</w>)
    let second = &vocab.merges[1];
    assert_eq!(second.merged, "日本</w>");
    assert_eq!(second.freq, 6);
    assert_eq!(vocab.merges.len(), 2);
}

#[test]
fn bpe_merged_is_left_plus_right() {
    let vocab = BpeTrainer::new(200).with_min_frequency(1).train(&small_corpus()).unwrap();
    for m in &vocab.merges {
        assert_eq!(m.merged, format!("{}{}", m.left, m.right));
        assert!(m.freq >= 1);
    }
}

#[test]
fn bpe_vocab_ids_specials_then_sorted_base_then_merges() {
    let corpus = vec!["ab ab".to_string()];
    let vocab = BpeTrainer::new(100).with_min_frequency(2).train(&corpus).unwrap();
    assert_eq!(vocab.vocab.get("[UNK]"), Some(&0));
    assert_eq!(vocab.vocab.get("[BOS]"), Some(&1));
    assert_eq!(vocab.vocab.get("[EOS]"), Some(&2));
    // base symbols "a" and "b</w>" in code-point order
    assert_eq!(vocab.vocab.get("a"), Some(&3));
    assert_eq!(vocab.vocab.get("b</w>"), Some(&4));
    assert_eq!(vocab.merges.len(), 1);
    assert_eq!(vocab.vocab.get("ab</w>"), Some(&5));
    assert_eq!(vocab.vocab.len(), 6);
}

#[test]
fn bpe_budget_limits_merges() {
    // the budget is the target minus the base symbols, the special tokens
    // among them: 7 - (3 + 3) = 1
    let corpus = vec!["abc abc abc".to_string()];
    let vocab = BpeTrainer::new(7).with_min_frequency(1).train(&corpus).unwrap();
    assert_eq!(vocab.merges.len(), 1);
    assert_eq!(vocab.vocab.len(), 7);
    let none = BpeTrainer::new(6).with_min_frequency(1).train(&corpus).unwrap();
    assert_eq!(none.merges.len(), 0);
    assert_eq!(none.vocab.len(), 6);
}

#[test]
fn bpe_empty_corpus_has_only_specials() {
    let vocab = BpeTrainer::new(100).train(&Vec::new()).unwrap();
    assert!(vocab.merges.is_empty());
    assert_eq!(vocab.vocab.len(), 3);
    assert_eq!(vocab.vocab.get("[EOS]"), Some(&2));
}

#[test]
fn bpe_custom_special_tokens_dedup() {
    let trainer = BpeTrainer::new(100).with_special_tokens(vec![
        "<s>".to_string(),
        "<s>".to_string(),
        "</s>".to_string(),
    ]);
    let vocab = trainer.train(&vec!["x".to_string()]).unwrap();
    assert_eq!(vocab.vocab.get("<s>"), Some(&0));
    assert_eq!(vocab.vocab.get("</s>"), Some(&1));
    assert_eq!(vocab.vocab.get("x</w>"), Some(&2));
    assert_eq!(vocab.vocab.len(), 3);
}

#[test]
fn bpe_encode_applies_merges_in_order() {
    let vocab = BpeTrainer::new(200).with_min_frequency(2).train(&small_corpus()).unwrap();
    assert_eq!(vocab.encode("東京 日本 の"), vec!["東京</w>", "日本</w>", "の</w>"]);
    assert_eq!(vocab.encode("京東"), vec!["京", "東</w>"]);
    assert!(vocab.encode("   ").is_empty());
}

#[test]
fn bpe_encode_overlapping_pairs_are_greedy() {
    // "aaaa" is a a a a</w>; the rule (a, a) matches greedily once, at the start.
    let corpus = vec!["aaa aaa aaa".to_string()];
    let vocab = BpeTrainer::new(5).with_min_frequency(1).train(&corpus).unwrap();
    // 5 - (3 + 2) leaves no merge
    assert!(vocab.merges.is_empty());
    let vocab = BpeTrainer::new(6).with_min_frequency(1).train(&corpus).unwrap();
    assert_eq!(vocab.merges.len(), 1);
    assert_eq!(vocab.merges[0].merged, "aa");
    assert_eq!(vocab.merges[0].freq, 3);
    assert_eq!(vocab.encode("aaaa"), vec!["aa", "a", "a</w>"]);
}

#[test]
fn bpe_training_stops_at_target_size() {
    // three special tokens and the base symbols a and b</w> leave room for
    // exactly one merge under a target of six
    let vocab = BpeTrainer::new(6).train(&vec!["ab ab".to_string()]).unwrap();
    assert_eq!(vocab.merges.len(), 1);
    assert_eq!(vocab.merges[0].left, "a");
    assert_eq!(vocab.merges[0].right, "b</w>");
    assert_eq!(vocab.merges[0].merged, "ab</w>");
    assert_eq!(vocab.merges[0].freq, 2);
    assert_eq!(vocab.vocab.len(), 6);
}

#[test]
fn bpe_base_symbols_stay_first_across_merges() {
    let s = |x: &str| x.to_string();
    // "ab" twice and "ba" once, with a special token that also occurs as a symbol.
    let words = vec![(vec![s("a"), s("b")], 2u64), (vec![s("b"), s("a")], 1u64)];
    let specials = vec![s("[UNK]"), s("a")];
    let mut st = BpeState::new(&words, &specials).expect("state must build");
    // [UNK], a, b: the specials first, each symbol once.
    assert_eq!(st.num_base_symbols(), 3);
    assert_eq!(st.sym_table, vec![s("[UNK]"), s("a"), s("b")]);
    let id = st.apply_merge((1, 2), "ab").expect("merge must succeed");
    assert_eq!(id, 3);
    assert_eq!(st.num_base_symbols(), 3);
    assert_eq!(&st.sym_table[..3], &[s("[UNK]"), s("a"), s("b")]);
    assert_eq!(st.sym_table.len(), 4);
}

#[test]
fn bpe_pair_table_follows_merges() {
    let s = |x: &str| x.to_string();
    let words = vec![(vec![s("a"), s("b"), s("a"), s("b")], 2u64)];
    let mut st = BpeState::new(&words, &vec![]).expect("state must build");
    let key = |a: u64, b: u64| a * 0x1_0000_0000 + b;
    let count = |st: &BpeState, a: u64, b: u64| st.pair_counts.get(&key(a, b)).copied().unwrap_or(0);
    assert_eq!(count(&st, 0, 1), 4);
    assert_eq!(count(&st, 1, 0), 2);
    assert_eq!(st.find_best_pair(), Some((4, (0, 1))));
    let id = st.apply_merge((0, 1), "ab").unwrap();
    assert_eq!(id, 2);
    assert_eq!(count(&st, 0, 1), 0);
    assert_eq!(count(&st, 1, 0), 0);
    assert_eq!(count(&st, 2, 2), 2);
    assert_eq!(st.find_best_pair(), Some((2, (2, 2))));
}
