use lindera_dictionary::builder::unknown_dictionary::UnknownDictionaryBuilderOptions;
use lindera_dictionary::dictionary::character_definition::{
    CategoryData, CategoryId, CharacterDefinition, LookupTable,
};
use lindera_dictionary::dictionary::context_id_map::ContextIdMap;
use lindera_dictionary::dictionary::unknown_dictionary::{
    classify_char_type, get_type_name, parse_dictionary_entry, parse_unk, UnknownDictionary, WordIdx,
};
use lindera_dictionary::error::LinderaErrorKind;

const UNK_DEF: &str = "DEFAULT,5,5,4769,記号,一般,*,*,*,*,*\nSPACE,9,9,-5000,記号,空白,*,*,*,*,*\nKANJI,1285,1285,11426,名詞,一般,*,*,*,*,*\nKANJI,1283,1283,17290,名詞,サ変接続,*,*,*,*,*\n";

fn categories() -> Vec<String> {
    vec!["DEFAULT".to_string(), "SPACE".to_string(), "KANJI".to_string(), "ALPHA".to_string()]
}

#[test]
fn parse_unk_references_entries_by_category() {
    let dict = parse_unk(&categories(), UNK_DEF).unwrap();
    assert_eq!(dict.costs.len(), 4);
    assert_eq!(dict.lookup_word_ids(CategoryId(2)), &[2, 3]);
    assert_eq!(dict.lookup_word_ids(CategoryId(3)), &[] as &[u32]);
    let e = dict.word_entry(1);
    assert_eq!(e.word_cost, -5000);
    assert_eq!(e.left_id, 9);
    assert_eq!(e.word_id.id, u32::MAX);
    let bad = parse_unk(&categories(), "DEFAULT,x,5,1\n").unwrap_err();
    assert_eq!(bad.kind, LinderaErrorKind::Parse);
}

#[test]
fn parse_unk_lists_interleaved_lines_in_order() {
    let cats = vec!["A".to_string(), "B".to_string()];
    let dict = parse_unk(&cats, "A,1,1,1\nB,2,2,2\nA,3,3,3\nC,4,4,4\n").unwrap();
    assert_eq!(dict.category_references, vec![vec![0, 2], vec![1]]);
}

#[test]
fn parse_dictionary_entry_checks_count_and_numbers() {
    let fields: Vec<String> = ["A", "1", "2", "-3"].iter().map(|s| s.to_string()).collect();
    let e = parse_dictionary_entry(&fields, 4).unwrap();
    assert_eq!((e.left_id, e.right_id, e.word_cost), (1, 2, -3));
    assert_eq!(parse_dictionary_entry(&fields, 5).unwrap_err().kind, LinderaErrorKind::Content);
}

#[test]
fn unknown_words_follow_the_character_type() {
    let dict = UnknownDictionary { category_references: Vec::new(), costs: Vec::new() };
    let words = dict.gen_unk_words("漢字かな", 0, false, None);
    assert_eq!(words.len(), 3);
    assert_eq!(words[0].word_idx(), WordIdx::new(3));
    assert_eq!(words[2].end_char(), 3);
    assert_eq!(dict.gen_unk_words("ab", 1, false, None).len(), 1);
    assert_eq!(dict.gen_unk_words("abc", 0, true, None).len(), 1);
    assert_eq!(dict.gen_unk_words("abc", 0, false, Some(2)).len(), 2);
    assert!(dict.gen_unk_words("abc", 5, false, None).is_empty());
    assert_eq!(classify_char_type('7'), 5);
    assert_eq!(classify_char_type('Z'), 4);
    assert_eq!(classify_char_type('ア'), 2);
    assert_eq!(classify_char_type('あ'), 1);
    assert_eq!(classify_char_type('!'), 0);
    assert_eq!(get_type_name(4), "固有名詞");
    assert_eq!(dict.compatible_unk_index("ABC", 0, 3, "名詞,固有名詞,組織"), Some(WordIdx::new(4)));
    assert_eq!(dict.compatible_unk_index("ABC", 0, 3, "名詞,一般"), None);
    assert_eq!(dict.compatible_unk_index("ABC", 7, 8, "名詞,固有名詞"), None);
}

#[test]
fn unknown_dictionary_builder_applies_the_remap() {
    let mapping = LookupTable::from_fn(vec![0u32], |_c: u32| vec![CategoryId(0)]);
    let chardef = CharacterDefinition::new(
        vec![CategoryData { invoke: false, group: true, length: 0 }; 4],
        categories(),
        mapping,
    );
    let mut options = UnknownDictionaryBuilderOptions::new();
    let remap: Vec<u16> = (0..1300u16).map(|i| if i == 5 { 7 } else { i }).collect();
    options
        .encoding("UTF-8".to_string())
        .context_id_remap(Some(ContextIdMap { left: remap.clone(), right: remap }));
    let builder = options.builder();
    assert_eq!(builder.encoding, "UTF-8");
    let dict = builder.build(&chardef, UNK_DEF).unwrap();
    assert_eq!(dict.costs[0].left_id, 7);
    assert_eq!(dict.costs[0].right_id, 7);
    assert_eq!(dict.costs[1].left_id, 9);
}
