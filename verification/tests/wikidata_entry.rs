use mecrab_builder::wikidata_entry::{
    pos_to_allowed_entity_types, Claim, ClaimValue, Claims, LabelValue, Mainsnak, WikidataEntry,
};

fn label(lang: &str, v: &str) -> LabelValue {
    LabelValue { language: lang.to_string(), value: v.to_string() }
}

fn make_entry_with_types(types: Vec<&str>) -> WikidataEntry {
    WikidataEntry {
        id: "Q1".to_string(),
        labels: Vec::new(),
        aliases: Vec::new(),
        sitelinks: Vec::new(),
        claims: Claims {
            instance_of: types
                .into_iter()
                .map(|t| Claim {
                    mainsnak: Mainsnak {
                        datavalue: Some(ClaimValue {
                            value_type: Some("wikibase-entityid".to_string()),
                            value_id: Some(t.to_string()),
                        }),
                    },
                })
                .collect(),
        },
    }
}

#[test]
fn test_entity_type_filter() {
    let entry = make_entry_with_types(vec!["Q5"]);
    assert!(entry.matches_type_filter(&vec![]));
    assert!(entry.matches_type_filter(&vec!["Q5".to_string()]));
    assert!(!entry.matches_type_filter(&vec!["Q515".to_string()]));

    let bare = WikidataEntry {
        id: "Q999".to_string(),
        labels: Vec::new(),
        aliases: Vec::new(),
        sitelinks: Vec::new(),
        claims: Claims::new(),
    };
    assert!(bare.matches_type_filter(&vec![]));
    assert!(!bare.matches_type_filter(&vec!["Q5".to_string()]));
}

#[test]
fn test_wikidata_entry_japanese_surfaces() {
    let entry = WikidataEntry {
        id: "Q1490".to_string(),
        labels: vec![
            ("ja".to_string(), label("ja", "東京")),
            ("en".to_string(), label("en", "Tokyo")),
        ],
        aliases: vec![(
            "ja".to_string(),
            vec![label("ja", "東京都"), label("ja", "トウキョウ")],
        )],
        sitelinks: Vec::new(),
        claims: Claims::new(),
    };

    let surfaces = entry.japanese_surfaces();
    assert_eq!(surfaces.len(), 3);
    assert!(surfaces.contains(&"東京".to_string()));
    assert!(surfaces.contains(&"東京都".to_string()));
    assert!(surfaces.contains(&"トウキョウ".to_string()));
}

#[test]
fn japanese_surfaces_skip_repeated_aliases() {
    let entry = WikidataEntry {
        id: "Q1".to_string(),
        labels: vec![("en".to_string(), label("en", "Osaka"))],
        aliases: vec![
            ("en".to_string(), vec![label("en", "Ōsaka")]),
            ("ja".to_string(), vec![label("ja", "大阪"), label("ja", "大坂"), label("ja", "大阪")]),
        ],
        sitelinks: Vec::new(),
        claims: Claims::new(),
    };
    assert_eq!(entry.japanese_surfaces(), vec!["大阪".to_string(), "大坂".to_string()]);
}

#[test]
fn entity_type_ids_skip_claims_without_ids() {
    let mut entry = make_entry_with_types(vec!["Q5", "Q215380"]);
    entry.claims.instance_of.push(Claim { mainsnak: Mainsnak { datavalue: None } });
    entry.claims.instance_of.push(Claim {
        mainsnak: Mainsnak { datavalue: Some(ClaimValue { value_type: None, value_id: None }) },
    });
    assert_eq!(entry.entity_type_ids(), vec!["Q5".to_string(), "Q215380".to_string()]);
}

#[test]
fn allowed_entity_types_by_pos() {
    assert_eq!(pos_to_allowed_entity_types("名詞,固有名詞,人名,姓"), Some(vec!["Q5", "Q215380"]));
    assert_eq!(
        pos_to_allowed_entity_types("名詞,固有名詞,地域,地名"),
        Some(vec!["Q515", "Q6256", "Q82794", "Q35657"])
    );
    assert_eq!(pos_to_allowed_entity_types("名詞,固有名詞,組織,*"), Some(vec!["Q4830453", "Q43229", "Q7278"]));
    assert_eq!(pos_to_allowed_entity_types("名詞,固有名詞,一般,*"), None);
    assert_eq!(pos_to_allowed_entity_types("名詞,一般,*,*"), Some(vec![]));
}
