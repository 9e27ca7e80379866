use lindera_dictionary::builder::prefix_dictionary::WordEntryMap;
use lindera_dictionary::dictionary::prefix_dictionary::PrefixDictionary;
use lindera_dictionary::viterbi::{LexType, WordEntry, WordId, SERIALIZED_LEN};

fn entry(word_id: u32, cost: i16) -> WordEntry {
    WordEntry::new(WordId::new(LexType::System, word_id), cost, 0, 0)
}

fn sample_map() -> WordEntryMap {
    let mut map = WordEntryMap::new();
    map.insert("世界".to_string(), entry(0, 10));
    map.insert("世界中".to_string(), entry(1, 20));
    map.insert("世界中".to_string(), entry(2, 30));
    map.insert("世論調査".to_string(), entry(3, 40));
    map.insert("統計調査".to_string(), entry(4, 50));
    map
}

fn entries_of(map: &WordEntryMap, surface: &str) -> usize {
    let pos = map.keys.iter().position(|k| k == surface).unwrap();
    map.values[pos].len()
}

#[test]
fn trie_view_matches_crawdad_search() {
    let map = sample_map();
    let keys: Vec<&str> = map.keys.iter().map(|k| k.as_str()).collect();
    let reference = crawdad::Trie::from_keys(keys.iter().copied()).unwrap();

    let dict = PrefixDictionary::from_word_entry_map(&map).unwrap();

    for haystack in ["世界中で世論調査", "統計調査だ", "無関係な文", "世", ""] {
        let chars: Vec<char> = haystack.chars().collect();
        for start in 0..=chars.len() {
            let expected: Vec<(u32, usize)> = reference
                .common_prefix_search(chars[start..].iter().copied())
                .collect();
            let actual: Vec<(usize, usize)> = dict
                .common_prefix_search(&chars[start..])
                .into_iter()
                .map(|(bytes, end)| (bytes.len() / SERIALIZED_LEN, end))
                .collect();

            assert_eq!(actual.len(), expected.len(), "at {haystack:?}[{start}..]");
            for ((key_ord, exp_end), (n_entries, act_end)) in expected.iter().zip(actual.iter()) {
                assert_eq!(exp_end, act_end);
                let surface: String = chars[start..start + exp_end].iter().collect();
                assert_eq!(
                    entries_of(&map, &surface),
                    *n_entries,
                    "run length for key ordinal {key_ord}"
                );
            }
        }
    }
}

#[test]
fn common_prefix_search_codes_matches_chars() {
    let dict = PrefixDictionary::from_word_entry_map(&sample_map()).unwrap();

    for haystack in ["世界中で世論調査", "統計調査だ", "a世界", "世", ""] {
        let chars: Vec<char> = haystack.chars().collect();
        let codes: Vec<u32> = chars.iter().map(|&c| dict.map_code_or_invalid(c)).collect();
        for start in 0..=chars.len() {
            let expected = dict.common_prefix_search(&chars[start..]);
            let actual = dict.common_prefix_search_codes(&codes[start..]);
            assert_eq!(expected, actual, "at {haystack:?}[{start}..]");
        }
    }
}

#[test]
fn find_surface_returns_all_variants() {
    let dict = PrefixDictionary::from_word_entry_map(&sample_map()).unwrap();

    let entries = dict.find_surface("世界中");
    assert_eq!(entries.len(), 2);
    assert_eq!(entries[0].word_cost(), 20);
    assert_eq!(entries[1].word_cost(), 30);

    assert!(dict.find_surface("世論").is_empty());
    assert!(dict.find_surface("未知語").is_empty());
}

#[test]
fn prefix_returns_byte_offsets() {
    let dict = PrefixDictionary::from_word_entry_map(&sample_map()).unwrap();

    let results: Vec<(usize, WordEntry)> = dict.prefix("世界中で");
    assert_eq!(results.len(), 3);
    assert_eq!(results[0].0, 6);
    assert_eq!(results[1].0, 9);
    assert_eq!(results[2].0, 9);
}

#[test]
fn common_prefix_iterator_counts_characters() {
    let dict = PrefixDictionary::from_word_entry_map(&sample_map()).unwrap();

    let chars: Vec<char> = "世界中".chars().collect();
    let matches = dict.common_prefix_iterator(&chars);
    assert_eq!(matches.len(), 3);
    assert_eq!(matches[0].end_char, 2);
    assert_eq!(matches[1].end_char, 3);
    assert_eq!(matches[2].end_char, 3);
}

#[test]
fn load_rejects_truncated_trie() {
    let map = sample_map();
    let (trie_bytes, idx_bytes) = PrefixDictionary::serialize_trie(&map).unwrap();

    let mut truncated = trie_bytes.clone();
    truncated.truncate(trie_bytes.len() - 3);
    assert!(PrefixDictionary::load(truncated, idx_bytes.clone(), Vec::new(), Vec::new(), Vec::new()).is_err());

    assert!(PrefixDictionary::load(vec![0u8; 2], idx_bytes, Vec::new(), Vec::new(), Vec::new()).is_err());
}

#[test]
fn load_rejects_absurd_table_length() {
    let mut data = Vec::new();
    data.extend_from_slice(&u32::MAX.to_le_bytes());
    data.extend_from_slice(&[0u8; 16]);
    assert!(PrefixDictionary::load(data, Vec::new(), Vec::new(), Vec::new(), Vec::new()).is_err());
}

#[test]
fn corrupted_nodes_yield_no_matches_without_panicking() {
    let map = sample_map();
    let (trie_bytes, idx_bytes) = PrefixDictionary::serialize_trie(&map).unwrap();

    for step in [1usize, 3, 7, 13] {
        let mut corrupted = trie_bytes.clone();
        let start = corrupted.len().saturating_sub(200);
        let len = corrupted.len();
        for i in (start..len).step_by(step) {
            corrupted[i] ^= 0xa5;
        }
        if let Ok(dict) = PrefixDictionary::load(corrupted, idx_bytes.clone(), Vec::new(), Vec::new(), Vec::new()) {
            let chars: Vec<char> = "世界中で統計調査".chars().collect();
            for start in 0..chars.len() {
                for _ in dict.common_prefix_search(&chars[start..]) {}
            }
        }
    }
}

#[test]
fn serialize_trie_rejects_nul_in_surface() {
    let mut map = WordEntryMap::new();
    map.insert("a\0b".to_string(), entry(0, 0));
    assert!(PrefixDictionary::serialize_trie(&map).is_err());
}

#[test]
fn empty_dictionary_matches_nothing() {
    let dict = PrefixDictionary::from_word_entry_map(&WordEntryMap::new()).unwrap();
    let chars: Vec<char> = "何か".chars().collect();
    assert_eq!(dict.common_prefix_search(&chars).len(), 0);
}

#[test]
fn serialize_trie_writes_entry_offsets() {
    let (trie, idx) = PrefixDictionary::serialize_trie(&sample_map()).unwrap();
    assert!(trie.len() >= 12);
    let offsets: Vec<u32> = idx.chunks(4).map(|c| u32::from_le_bytes([c[0], c[1], c[2], c[3]])).collect();
    // 世界 (1 entry), 世界中 (2), 世論調査 (1), 統計調査 (1), then the total.
    assert_eq!(offsets, vec![0, 1, 3, 4, 5]);
}

#[test]
fn empty_map_serializes_to_an_empty_image() {
    let (trie, idx) = PrefixDictionary::serialize_trie(&WordEntryMap::new()).unwrap();
    assert_eq!(trie, vec![0u8; 12]);
    assert_eq!(idx, vec![0u8; 4]);
}

#[test]
fn serialize_trie_rejects_empty_surface() {
    let mut map = WordEntryMap::new();
    map.insert(String::new(), entry(0, 0));
    assert!(PrefixDictionary::serialize_trie(&map).is_err());
}

#[test]
fn values_data_holds_the_entries_in_key_order() {
    let dict = PrefixDictionary::from_word_entry_map(&sample_map()).unwrap();
    let costs: Vec<i16> = dict
        .vals_data
        .chunks(SERIALIZED_LEN)
        .map(|c| WordEntry::deserialize(c, true).word_cost())
        .collect();
    assert_eq!(costs, vec![10, 20, 30, 40, 50]);
}

#[test]
fn word_entry_record_round_trips() {
    let e = WordEntry::new(WordId::new(LexType::User, 0x0102_0304), -1234, 1288, 65535);
    let mut out = Vec::new();
    e.serialize(&mut out);
    assert_eq!(out.len(), SERIALIZED_LEN);
    assert_eq!(out, vec![4, 3, 2, 1, 0x2e, 0xfb, 0x08, 0x05, 0xff, 0xff]);
    assert_eq!(WordEntry::deserialize(&out, false), e);
}

#[test]
fn malformed_values_index_ends_the_search() {
    let map = sample_map();
    let (trie, _) = PrefixDictionary::serialize_trie(&map).unwrap();
    // An index with no records: every key that ends stops the search.
    let dict = PrefixDictionary::load(trie, Vec::new(), Vec::new(), Vec::new(), Vec::new()).unwrap();
    let chars: Vec<char> = "世界中".chars().collect();
    assert!(dict.common_prefix_search(&chars).is_empty());
}

#[test]
fn load_rejects_partial_index_records() {
    let map = sample_map();
    let (trie, _) = PrefixDictionary::serialize_trie(&map).unwrap();
    assert!(PrefixDictionary::load(trie, vec![0u8; 3], Vec::new(), Vec::new(), Vec::new()).is_err());
}
