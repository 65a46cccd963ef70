use mecrab_builder::char_writer::{build_char_bytes, pack_char_info, CharRange, CHARINFO_TABLE_SIZE};
use mecrab_builder::double_array::build_double_array;
use mecrab_builder::matrix_writer::{build_matrix_bytes, set_cost};
use mecrab_builder::synthetic::build_synthetic_dictionary;
use mecrab_builder::sysdic_writer::{
    build_sysdic_bytes, build_unkdic_bytes, DicEntry, DICTIONARY_MAGIC_ID, DIC_VERSION, HEADER_SIZE,
};
use mecrab_builder::trie::TrieBuilder;

fn make_entries() -> Vec<DicEntry> {
    vec![
        DicEntry {
            surface: "東京".to_string(),
            left_id: 1285,
            right_id: 1285,
            pos_id: 38,
            wcost: 3780,
            feature: "名詞,固有名詞,地名,一般,*,*,東京,トウキョウ,トウキョウ".to_string(),
        },
        DicEntry {
            surface: "大阪".to_string(),
            left_id: 1285,
            right_id: 1285,
            pos_id: 38,
            wcost: 4900,
            feature: "名詞,固有名詞,地名,一般,*,*,大阪,オオサカ,オオサカ".to_string(),
        },
        DicEntry {
            surface: "東京都".to_string(),
            left_id: 1285,
            right_id: 1285,
            pos_id: 38,
            wcost: 3200,
            feature: "名詞,固有名詞,地名,一般,*,*,東京都,トウキョウト,トウキョウト".to_string(),
        },
        DicEntry {
            surface: "東".to_string(),
            left_id: 1285,
            right_id: 1285,
            pos_id: 38,
            wcost: 6000,
            feature: "名詞,固有名詞,地名,一般,*,*,東,ヒガシ,ヒガシ".to_string(),
        },
    ]
}

fn le32(b: &[u8], at: usize) -> u32 {
    u32::from_le_bytes([b[at], b[at + 1], b[at + 2], b[at + 3]])
}

#[test]
fn test_pack_char_info_bits() {
    // type_mask=2 (bit 1), default_type=1, length=3, group=true, invoke=false
    let packed = pack_char_info(2, 1, 3, true, false);
    assert_eq!(packed & 0x3_FFFF, 2);
    assert_eq!((packed >> 18) & 0xFF, 1);
    assert_eq!((packed >> 26) & 0xF, 3);
    assert_eq!((packed >> 30) & 1, 1);
    assert_eq!((packed >> 31) & 1, 0);
}

#[test]
fn test_build_char_bytes_size() {
    let cats = ["DEFAULT", "SPACE", "KANJI"];
    let ranges: Vec<CharRange> = Vec::new();
    let bytes = build_char_bytes(&cats, &ranges).unwrap();
    let expected = 4 + 3 * 32 + CHARINFO_TABLE_SIZE * 4;
    assert_eq!(bytes.len(), expected, "char.bin must be exactly {expected} bytes");
}

#[test]
fn test_build_char_bytes_csize_field() {
    let cats = ["DEFAULT", "SPACE"];
    let bytes = build_char_bytes(&cats, &[]).unwrap();
    assert_eq!(le32(&bytes, 0), 2);
}

#[test]
fn test_range_application_hiragana() {
    let cats = ["DEFAULT", "SPACE", "KANJI", "SYMBOL", "NUMERIC", "ALPHA", "HIRAGANA"];
    let hiragana_info = pack_char_info(1 << 6, 6, 0, true, true);
    let ranges = vec![CharRange { lo: 0x3041, hi: 0x3096, info: hiragana_info }];
    let bytes = build_char_bytes(&cats, &ranges).unwrap();
    let table_start = 4 + cats.len() * 32;
    let idx = table_start + 0x3042 * 4;
    let info = le32(&bytes, idx);
    assert_eq!(info, hiragana_info, "'あ' CharInfo should match Hiragana");
    assert_eq!((info >> 30) & 1, 1, "group bit must be set for Hiragana");
}

#[test]
fn test_charinfo_table_size_constant() {
    assert_eq!(CHARINFO_TABLE_SIZE, 0xFFFF);
    assert_eq!(CHARINFO_TABLE_SIZE, 65535);
}

#[test]
fn later_char_range_overrides_earlier() {
    let cats = ["DEFAULT", "SPACE"];
    let ranges = vec![
        CharRange { lo: 0, hi: 0x100, info: 7 },
        CharRange { lo: 0x20, hi: 0x20, info: 9 },
    ];
    let bytes = build_char_bytes(&cats, &ranges).unwrap();
    let table = 4 + 2 * 32;
    assert_eq!(le32(&bytes, table + 0x1F * 4), 7);
    assert_eq!(le32(&bytes, table + 0x20 * 4), 9);
    assert_eq!(le32(&bytes, table + 0x101 * 4), 0);
    // the name field is NUL padded
    assert_eq!(&bytes[4..11], b"DEFAULT");
    assert_eq!(bytes[11], 0);
}

#[test]
fn test_set_cost_indexing() {
    let mut costs = vec![0i16; 4 * 4];
    // right_id=1, left_id=2 → index = 1 + 4*2 = 9
    set_cost(&mut costs, 4, 1, 2, 42);
    assert_eq!(costs[9], 42);
}

#[test]
fn test_build_matrix_wrong_len_errors() {
    let costs = vec![0i16; 5];
    let result = build_matrix_bytes(2, 2, &costs);
    assert!(result.is_err());
}

#[test]
fn test_roundtrip_cost_values() {
    let mut costs = vec![1000i16; 64];
    set_cost(&mut costs, 8, 0, 1, 0);
    set_cost(&mut costs, 8, 1, 0, 0);
    set_cost(&mut costs, 8, 1, 2, 0);
    set_cost(&mut costs, 8, 2, 1, 0);
    let bytes = build_matrix_bytes(8, 8, &costs).unwrap();
    assert_eq!(bytes.len(), 4 + 64 * 2);
    let idx = 4 + 8 * 2;
    let cost_val = i16::from_le_bytes([bytes[idx], bytes[idx + 1]]);
    assert_eq!(cost_val, 0, "cost(right=0, left=1) should be 0");
    let other = i16::from_le_bytes([bytes[4 + 3 * 2], bytes[4 + 3 * 2 + 1]]);
    assert_eq!(other, 1000);
}

#[test]
fn test_trie_builder_insert() {
    let mut trie = TrieBuilder::new();
    trie.insert(b"hello", 42);
    trie.insert(b"hell", 10);
    trie.insert(b"world", 99);

    let h_node = trie.child(0, b'h');
    assert!(h_node.is_some(), "'h' child should exist at root");
    let h_node = h_node.unwrap();
    assert!(trie.child(h_node, b'e').is_some(), "'e' child should exist");
}

#[test]
fn trie_keeps_values_of_prefix_keys() {
    let mut trie = TrieBuilder::new();
    trie.insert(b"hello", 42);
    trie.insert(b"hell", 10);
    let mut node = 0;
    for &b in b"hell" {
        node = trie.child(node, b).unwrap();
    }
    assert_eq!(trie.node_value(node), 10);
    let o = trie.child(node, b'o').unwrap();
    assert_eq!(trie.node_value(o), 42);
    assert!(trie.child(0, b'w').is_none());
}

#[test]
fn test_da_value_encoding() {
    let token_start: usize = 42;
    let count: usize = 3;
    let da_value: i32 = ((token_start << 8) | count) as i32;

    let decoded_start = (da_value as u32 >> 8) as usize;
    let decoded_count = (da_value as u32 & 0xff) as usize;

    assert_eq!(decoded_start, token_start);
    assert_eq!(decoded_count, count);
}

fn da_lookup(units: &[mecrab_builder::double_array::DaUnit], key: &[u8]) -> Option<i32> {
    let mut b = units[0].base as usize;
    for &byte in key {
        let slot = b + byte as usize + 1;
        if slot >= units.len() || units[slot].check != b as u32 {
            return None;
        }
        b = units[slot].base as usize;
    }
    if b < units.len() && units[b].check == b as u32 && units[b].base < 0 {
        Some(-units[b].base - 1)
    } else {
        None
    }
}

#[test]
fn test_da_traversal_invariant() {
    let mut trie = TrieBuilder::new();
    trie.insert(b"ab", 999);
    let units = build_double_array(&trie).unwrap();

    let b0 = units[0].base as usize;
    let slot_a = b0 + 97 + 1;
    assert!(slot_a < units.len());
    assert_eq!(units[slot_a].check, b0 as u32);
    let b1 = units[slot_a].base as usize;
    let slot_b = b1 + 98 + 1;
    assert!(slot_b < units.len());
    assert_eq!(units[slot_b].check, b1 as u32);
    let b2 = units[slot_b].base as usize;
    assert!(b2 < units.len());
    assert_eq!(units[b2].check, b2 as u32, "terminal check should be self-referential");
    assert_eq!(units[b2].base, -999 - 1, "terminal base should encode value 999");
}

#[test]
fn test_da_shared_prefix() {
    let key1 = "東京".as_bytes();
    let key2 = "東京都".as_bytes();
    let mut trie = TrieBuilder::new();
    trie.insert(key1, 7);
    trie.insert(key2, 42);
    let units = build_double_array(&trie).unwrap();
    assert_eq!(da_lookup(&units, key1), Some(7));
    assert_eq!(da_lookup(&units, key2), Some(42));
}

#[test]
fn da_finds_only_stored_keys() {
    let mut trie = TrieBuilder::new();
    trie.insert(b"ab", 10);
    trie.insert(b"cd", 20);
    let units = build_double_array(&trie).unwrap();
    assert_eq!(da_lookup(&units, b"ab"), Some(10));
    assert_eq!(da_lookup(&units, b"cd"), Some(20));
    for absent in [&b""[..], b"a", b"b", b"c", b"d", b"abc", b"ba", b"ac"] {
        assert_eq!(da_lookup(&units, absent), None, "{absent:?} must not be found");
    }
}

#[test]
fn da_prefix_of_a_key_is_not_found() {
    let mut trie = TrieBuilder::new();
    trie.insert("東京".as_bytes(), 7);
    trie.insert("東京都".as_bytes(), 42);
    let units = build_double_array(&trie).unwrap();
    assert_eq!(da_lookup(&units, "東".as_bytes()), None);
    assert_eq!(da_lookup(&units, &"東京".as_bytes()[..4]), None);
    assert_eq!(da_lookup(&units, "京".as_bytes()), None);
}

#[test]
fn test_write_sysdic_produces_valid_file() {
    let entries = make_entries();
    let (data, stats) = build_sysdic_bytes(&entries, 1316, 1316, "UTF-8", 0).expect("build should succeed");
    assert_eq!(stats.lexicon_size, 4);
    assert_eq!(stats.token_count, 4);
    assert!(stats.file_size >= HEADER_SIZE);
    assert!(stats.da_units > 0);
    assert_eq!(stats.file_size, data.len());
    let magic = le32(&data, 0);
    assert_eq!((magic ^ DICTIONARY_MAGIC_ID) as usize, data.len());
    assert_eq!(le32(&data, 4), DIC_VERSION);
}

#[test]
fn test_write_sysdic_roundtrip_magic() {
    let entries = vec![DicEntry {
        surface: "a".to_string(),
        left_id: 1,
        right_id: 1,
        pos_id: 0,
        wcost: 100,
        feature: "test".to_string(),
    }];
    let (data, stats) = build_sysdic_bytes(&entries, 10, 10, "UTF-8", 0).expect("build should succeed");
    assert_eq!(data.len(), stats.file_size);
    let magic = le32(&data, 0);
    assert_eq!((magic ^ DICTIONARY_MAGIC_ID) as usize, data.len());
}

#[test]
fn test_write_sysdic_header_fields() {
    let entries = make_entries();
    let (data, _) = build_sysdic_bytes(&entries, 100, 200, "UTF-8", 0).expect("build should succeed");
    assert_eq!(le32(&data, 8), 0);
    assert_eq!(le32(&data, 12), 4);
    assert_eq!(le32(&data, 16), 100);
    assert_eq!(le32(&data, 20), 200);
    let charset_bytes = &data[40..72];
    let end = charset_bytes.iter().position(|&b| b == 0).unwrap_or(32);
    assert_eq!(std::str::from_utf8(&charset_bytes[..end]).unwrap(), "UTF-8");
    // sections: 8 bytes per unit, 16 per token
    assert_eq!(le32(&data, 28) as usize, 16 * 4);
}

#[test]
fn sysdic_surfaces_are_found_with_their_group_values() {
    let entries = make_entries();
    let (data, _) = build_sysdic_bytes(&entries, 10, 10, "UTF-8", 0).unwrap();
    let da_size = le32(&data, 24) as usize;
    let mut units = Vec::new();
    let mut off = HEADER_SIZE;
    while off < HEADER_SIZE + da_size {
        units.push(mecrab_builder::double_array::DaUnit {
            base: le32(&data, off) as i32,
            check: le32(&data, off + 4),
        });
        off += 8;
    }
    // sorted surfaces: 大阪 < 東 < 東京 < 東京都 (byte order)
    let sorted = ["大阪", "東", "東京", "東京都"];
    for (i, s) in sorted.iter().enumerate() {
        assert_eq!(da_lookup(&units, s.as_bytes()), Some(((i as i32) << 8) | 1), "surface {s}");
    }
}

#[test]
fn sysdic_groups_equal_surfaces_and_shares_features() {
    let mut entries = make_entries();
    let mut dup = entries[0].clone();
    dup.wcost = 1;
    entries.push(dup);
    let (data, stats) = build_sysdic_bytes(&entries, 10, 10, "UTF-8", 0).unwrap();
    assert_eq!(stats.lexicon_size, 4);
    assert_eq!(stats.token_count, 5);
    // the duplicated feature is stored once
    let feature_size = le32(&data, 32) as usize;
    let unique: usize = make_entries().iter().map(|e| e.feature.len() + 1).sum();
    assert_eq!(feature_size, unique);
}

#[test]
fn unkdic_has_dict_type_two() {
    let entries = make_entries();
    let (data, _) = build_unkdic_bytes(&entries, 10, 10, "UTF-8").unwrap();
    assert_eq!(le32(&data, 8), 2);
}

#[test]
fn test_build_synthetic_dictionary_no_panic() {
    let d = build_synthetic_dictionary();
    assert!(!d.sys_dic.is_empty());
    assert!(!d.matrix.is_empty());
    assert!(!d.char_def.is_empty());
    assert!(!d.unk_def.is_empty());
}

#[test]
fn test_unk_dic_type_field() {
    let d = build_synthetic_dictionary();
    let dict_type = u32::from_le_bytes([d.unk_def[8], d.unk_def[9], d.unk_def[10], d.unk_def[11]]);
    assert_eq!(dict_type, 2, "unk.dic dict_type must be 2 (MECAB_UNK_DIC)");
}

#[test]
fn test_sys_dic_type_field() {
    let d = build_synthetic_dictionary();
    let dict_type = u32::from_le_bytes([d.sys_dic[8], d.sys_dic[9], d.sys_dic[10], d.sys_dic[11]]);
    assert_eq!(dict_type, 0, "sys.dic dict_type must be 0 (MECAB_SYS_DIC)");
}

#[test]
fn test_matrix_size() {
    let d = build_synthetic_dictionary();
    assert_eq!(d.matrix.len(), 4 + 8 * 8 * 2);
}

#[test]
fn test_char_bin_size() {
    let d = build_synthetic_dictionary();
    let expected = 4 + 11 * 32 + 0xFFFF * 4;
    assert_eq!(d.char_def.len(), expected, "char.bin must be exactly {expected} bytes");
}

#[test]
fn sysdic_units_read_back_from_the_bytes_find_exactly_the_surfaces() {
    let entries = make_entries();
    let (bytes, stats) = build_sysdic_bytes(&entries, 1316, 1316, "UTF-8", 0).expect("image must build");
    let da_bytes = le32(&bytes, 24) as usize;
    assert_eq!(da_bytes, 8 * stats.da_units as usize);
    let units: Vec<mecrab_builder::double_array::DaUnit> = (0..da_bytes / 8)
        .map(|i| {
            let o = HEADER_SIZE + 8 * i;
            mecrab_builder::double_array::DaUnit { base: le32(&bytes, o) as i32, check: le32(&bytes, o + 4) }
        })
        .collect();
    // Surfaces in byte order: 大阪, 東, 東京, 東京都, one token each.
    assert_eq!(da_lookup(&units, "大阪".as_bytes()), Some(1));
    assert_eq!(da_lookup(&units, "東".as_bytes()), Some((1 << 8) | 1));
    assert_eq!(da_lookup(&units, "東京".as_bytes()), Some((2 << 8) | 1));
    assert_eq!(da_lookup(&units, "東京都".as_bytes()), Some((3 << 8) | 1));
    for absent in ["京", "大", "東京都庁", ""] {
        assert_eq!(da_lookup(&units, absent.as_bytes()), None, "{absent:?} must not be found");
    }
}
