use mecrab_builder::wikipedia::{
    classify_article, extract_parenthetical_reading, extract_xml_text, is_kana, parse_articles,
    strip_wikipedia_prefix, tally_articles, ArticleOutcome,
};

fn lines(s: &str) -> Vec<String> {
    s.lines().map(|l| l.to_string()).collect()
}

#[test]
fn test_strip_wikipedia_prefix() {
    assert_eq!(strip_wikipedia_prefix("Wikipedia: 東京都"), "東京都");
    assert_eq!(strip_wikipedia_prefix("東京都"), "東京都");
}

#[test]
fn strip_wikipedia_prefix_without_space() {
    assert_eq!(strip_wikipedia_prefix("Wikipedia:東京都"), "東京都");
    assert_eq!(strip_wikipedia_prefix("Wikipedia: "), "");
}

#[test]
fn test_extract_xml_text() {
    let line = "<title>Wikipedia: 東京都</title>";
    assert_eq!(extract_xml_text(line, "title"), Some("Wikipedia: 東京都".to_string()));
    assert_eq!(extract_xml_text(line, "url"), None);
}

#[test]
fn extract_xml_text_needs_closing_tag_after_opening() {
    assert_eq!(extract_xml_text("</a><a>x", "a"), None);
    assert_eq!(extract_xml_text("<a></a>", "a"), Some(String::new()));
    assert_eq!(extract_xml_text("<a>1</a><a>2</a>", "a"), Some("1".to_string()));
}

#[test]
fn test_extract_parenthetical_reading() {
    assert_eq!(
        extract_parenthetical_reading("東京都（とうきょうと）は"),
        Some("とうきょうと".to_string())
    );
    assert_eq!(extract_parenthetical_reading("test (nothing)"), None);
}

#[test]
fn parenthetical_reading_unclosed() {
    assert_eq!(extract_parenthetical_reading("東京都（とうきょうと"), None);
}

#[test]
fn test_is_kana() {
    assert!(is_kana("とうきょうと"));
    assert!(is_kana("トウキョウト"));
    assert!(!is_kana("東京都"));
    assert!(!is_kana(""));
}

#[test]
fn test_parse_articles() {
    let xml = r#"<feed>
<doc>
<title>Wikipedia: 東京都</title>
<url>http://ja.wikipedia.org/wiki/東京都</url>
<abstract>東京都（とうきょうと）は、日本の都道府県のひとつ。</abstract>
</doc>
<doc>
<title>Wikipedia: 大阪府</title>
<url>http://ja.wikipedia.org/wiki/大阪府</url>
<abstract>大阪府（おおさかふ）は、近畿地方の府県のひとつ。</abstract>
</doc>
</feed>"#;
    let articles = parse_articles(&lines(xml));
    assert_eq!(articles.len(), 2);
    assert_eq!(articles[0].0, "Wikipedia: 東京都");
    assert_eq!(articles[0].1, "http://ja.wikipedia.org/wiki/東京都");
}

#[test]
fn parse_articles_skips_docs_without_url() {
    let xml = "<doc>\n  <title>A</title>\n</doc>\n<doc>\n<title>B</title>\n<url>u</url>\n</doc>\n<title>C</title>";
    let articles = parse_articles(&lines(xml));
    assert_eq!(articles.len(), 1);
    assert_eq!(articles[0], ("B".to_string(), "u".to_string(), String::new()));
}

#[test]
fn classify_articles() {
    assert_eq!(
        classify_article("Wikipedia: 東京都", "東京都（とうきょうと）は、日本の都道府県のひとつ。", 10, false),
        ArticleOutcome::Surfaces { surface: "東京都".to_string(), reading: Some("とうきょうと".to_string()) }
    );
    assert_eq!(
        classify_article("Wikipedia: 東京", "東京 (曖昧さ回避) の記事です。長い説明文です。", 5, false),
        ArticleOutcome::Disambiguation
    );
    assert_eq!(
        classify_article("Wikipedia: 東京", "東京 (曖昧さ回避) の記事です。長い説明文です。", 5, true),
        ArticleOutcome::Surfaces { surface: "東京".to_string(), reading: None }
    );
    assert_eq!(classify_article("Wikipedia: 短", "短い", 20, false), ArticleOutcome::NoAbstract);
    assert_eq!(classify_article("Wikipedia: ", "十分に長い要約がここにあります", 3, false), ArticleOutcome::NoAbstract);
    assert_eq!(
        classify_article("漢字", "漢字（かんじ2）は文字。", 3, false),
        ArticleOutcome::Surfaces { surface: "漢字".to_string(), reading: None }
    );
}

#[test]
fn tally_articles_counts_outcomes_and_entries() {
    let a = |t: &str, u: &str, ab: &str| (t.to_string(), u.to_string(), ab.to_string());
    let articles = vec![
        a("Wikipedia: 東京都", "u1", "東京都（とうきょうと）は、日本の都道府県のひとつ。"),
        a("Wikipedia: 東京", "u2", "東京 (曖昧さ回避) の記事です。長い説明文です。"),
        a("Wikipedia: 短", "u3", "短い"),
        a("Wikipedia: 大阪", "u4", "大阪は日本の都市で、長い説明がここにあります。"),
    ];
    let (entries, stats) = tally_articles(&articles, 10, false);
    assert_eq!(
        entries,
        vec![
            (0, "東京都".to_string(), false),
            (0, "とうきょうと".to_string(), true),
            (3, "大阪".to_string(), false),
        ]
    );
    assert_eq!(stats.articles_processed, 4);
    assert_eq!(stats.surfaces_added, 3);
    assert_eq!(stats.skipped_disambiguation, 1);
    assert_eq!(stats.skipped_no_abstract, 1);
}
