use lindera_dictionary::dictionary::character_definition::{
    CategoryData, CategoryId, CharacterDefinition, LookupTable,
};
use lindera_dictionary::dictionary::schema::Schema;
use lindera_dictionary::space_penalty::{
    first_pos, pos_detail_index, SpacePenaltyConfig, SpacePenaltyRule, SpacePenaltyTable,
};
use lindera_dictionary::builder::prefix_dictionary::{PrefixDictionaryBuilder, WordEntryMap};
use lindera_dictionary::builder::user_dictionary::UserDictionaryBuilderOptions;
use lindera_dictionary::dictionary::connection_cost_matrix::ConnectionCostMatrix;
use lindera_dictionary::dictionary::metadata::Metadata;
use lindera_dictionary::dictionary::prefix_dictionary::PrefixDictionary;
use lindera_dictionary::dictionary::unknown_dictionary::UnknownDictionary;
use lindera_dictionary::dictionary::Dictionary;
use lindera_dictionary::error::LinderaErrorKind;
use lindera_dictionary::viterbi::{LexType, WordEntry, WordId};

fn ko_dic_rules() -> SpacePenaltyConfig {
    SpacePenaltyConfig::new(vec![
        SpacePenaltyRule::new(&["EC", "EF", "EP", "ETM", "ETN", "VCP", "XSA", "XSN", "XSV"], 3000),
        SpacePenaltyRule::new(&["JC", "JKB", "JKC", "JKG", "JKO", "JKQ", "JKS", "JKV", "JX"], 6000),
    ])
}

#[test]
fn first_pos_takes_the_part_before_the_first_plus() {
    assert_eq!(first_pos("NNG"), "NNG");
    assert_eq!(first_pos("VV+EC"), "VV");
    assert_eq!(first_pos("XSV+ETM"), "XSV");
    assert_eq!(first_pos(""), "");
}

#[test]
fn cost_for_tag_matches_on_the_first_pos() {
    let config = ko_dic_rules();
    assert_eq!(config.cost_for_tag("JKB"), 6000);
    assert_eq!(config.cost_for_tag("EP"), 3000);
    assert_eq!(config.cost_for_tag("EP+EC"), 3000);
    assert_eq!(config.cost_for_tag("VCP+EP"), 3000);
    assert_eq!(config.cost_for_tag("VV+EC"), 0);
    assert_eq!(config.cost_for_tag("NNG"), 0);
}

#[test]
fn cost_for_tag_prefers_the_first_matching_rule() {
    let config = SpacePenaltyConfig::new(vec![
        SpacePenaltyRule::new(&["JKS"], 100),
        SpacePenaltyRule::new(&["JKS", "JX"], 200),
    ]);
    assert_eq!(config.cost_for_tag("JKS"), 100);
    assert_eq!(config.cost_for_tag("JX"), 200);
}

#[test]
fn constructors_set_every_field() {
    let rule = SpacePenaltyRule::new(&["JKS", "JX"], 6000);
    assert_eq!(rule.pos, vec!["JKS".to_string(), "JX".to_string()]);
    assert_eq!(rule.cost, 6000);
    let config = SpacePenaltyConfig::new(vec![rule.clone()]);
    assert_eq!(config.rules.len(), 1);
    assert_eq!(config.rules[0].pos, rule.pos);
    let empty = SpacePenaltyConfig::default();
    assert!(empty.rules.is_empty());
    assert_eq!(empty.cost_for_tag("JKS"), 0);
}

fn schema(names: &[&str]) -> Schema {
    Schema::new(names.iter().map(|s| s.to_string()).collect())
}

#[test]
fn pos_detail_index_prefers_ko_dic_then_generic_name() {
    let ko = schema(&["surface", "left_context_id", "right_context_id", "cost", "part_of_speech_tag"]);
    assert_eq!(pos_detail_index(&ko).unwrap(), 0);
    let generic = schema(&[
        "surface", "left_context_id", "right_context_id", "cost", "display_surface", "part_of_speech",
    ]);
    assert_eq!(pos_detail_index(&generic).unwrap(), 1);
    let none = schema(&["surface", "left_context_id", "right_context_id", "cost", "reading"]);
    assert!(pos_detail_index(&none).is_err());
}

fn char_definition() -> CharacterDefinition {
    let mapping = LookupTable::from_fn(vec![0u32, 0x20, 0x21], |c: u32| {
        if c == 0x20 {
            vec![CategoryId(1)]
        } else {
            vec![CategoryId(0)]
        }
    });
    let categories = vec![CategoryData { invoke: false, group: true, length: 0 }; 2];
    CharacterDefinition::new(categories, vec!["DEFAULT".into(), "SPACE".into()], mapping)
}

#[test]
fn table_looks_up_rules_and_spaces() {
    let config = ko_dic_rules();
    let defs = char_definition();
    let system = vec![Some("JKS".to_string()), Some("NNG".to_string()), None, Some("EP+EC".to_string())];
    let table = SpacePenaltyTable::build_from_tags(&config, &system, &[], &[Some("JX".to_string())], &defs).unwrap();
    assert_eq!(table.cost(WordId::new(LexType::System, 0)), 6000);
    assert_eq!(table.cost(WordId::new(LexType::System, 1)), 0);
    assert_eq!(table.cost(WordId::new(LexType::System, 2)), 0);
    assert_eq!(table.cost(WordId::new(LexType::System, 3)), 3000);
    assert_eq!(table.cost(WordId::new(LexType::System, 9)), 0);
    assert_eq!(table.cost(WordId::new(LexType::User, 0)), 0);
    assert_eq!(table.cost(WordId::new(LexType::Unknown, 0)), 6000);
    assert!(table.is_space(' ', &defs));
    assert!(!table.is_space('\t', &defs));
    assert!(!table.is_space('a', &defs));
    assert!(!table.is_space('\u{3000}', &defs));
}

fn row(fields: &[&str]) -> Vec<String> {
    fields.iter().map(|s| s.to_string()).collect()
}

fn dictionary(schema_names: &[&str]) -> Dictionary {
    let rows = vec![
        row(&["이", "0", "0", "0", "JKS", "x"]),
        row(&["집", "0", "0", "0", "NNG", "y"]),
        row(&["었", "0", "0", "0", "EP+EC"]),
    ];
    let builder = PrefixDictionaryBuilder::new(schema(schema_names));
    let (words, words_idx) = builder.words_files(&rows).unwrap();
    let (trie, vals_idx) = PrefixDictionary::serialize_trie(&WordEntryMap::new()).unwrap();
    let prefix_dictionary = PrefixDictionary::load(trie, vals_idx, Vec::new(), words_idx, words).unwrap();
    let unknown = WordEntry::new(WordId::new(LexType::Unknown, u32::MAX), 0, 0, 0);
    Dictionary {
        prefix_dictionary,
        connection_cost_matrix: ConnectionCostMatrix { table: vec![0], forward_size: 1, backward_size: 1 },
        character_definition: char_definition(),
        unknown_dictionary: UnknownDictionary { category_references: Vec::new(), costs: vec![unknown] },
        metadata: Metadata { dictionary_schema: schema(schema_names), ..Metadata::default() },
    }
}

#[test]
fn table_reads_tags_from_the_dictionaries() {
    let dict = dictionary(&["surface", "left_context_id", "right_context_id", "cost", "part_of_speech_tag", "reading"]);
    let mut user_row = row(&["가", "0", "0", "0", "JX"]);
    user_row.resize(12, "*".to_string());
    let user = UserDictionaryBuilderOptions::default().builder().build_from_rows(vec![user_row]).unwrap();
    let table = SpacePenaltyTable::build(&ko_dic_rules(), &dict, Some(&user)).unwrap();
    assert_eq!(table.cost(WordId::new(LexType::System, 0)), 6000);
    assert_eq!(table.cost(WordId::new(LexType::System, 1)), 0);
    assert_eq!(table.cost(WordId::new(LexType::System, 2)), 3000);
    assert_eq!(table.cost(WordId::new(LexType::System, 3)), 0);
    assert_eq!(table.cost(WordId::new(LexType::User, 0)), 6000);
    assert_eq!(table.cost(WordId::new(LexType::Unknown, 0)), 0);
    let without_user = SpacePenaltyTable::build(&ko_dic_rules(), &dict, None).unwrap();
    assert_eq!(without_user.cost(WordId::new(LexType::User, 0)), 0);
}

#[test]
fn table_needs_a_part_of_speech_column() {
    let dict = dictionary(&["surface", "left_context_id", "right_context_id", "cost", "reading"]);
    let err = SpacePenaltyTable::build(&ko_dic_rules(), &dict, None).err().unwrap();
    assert_eq!(err.kind, LinderaErrorKind::Dictionary);
}
