use lindera_dictionary::dictionary::character_definition::CategoryId;
use lindera_dictionary::trainer::config::{
    build_char_def_from_content, char_def_text_readable, get_text_entry, TrainerConfig,
};

#[test]
fn char_def_ranges_are_checked_before_reading() {
    assert!(char_def_text_readable("DEFAULT 0 1 0\n0x0020..0x007F ALPHA\n0x3042 HIRAGANA\n"));
    assert!(!char_def_text_readable("0x0020..0xFFFFFFFF ALPHA\n"));
    assert!(!char_def_text_readable("0x0020..0 ALPHA\n"));
    // A start that does not parse is a parse error later, not a panic.
    assert!(char_def_text_readable("0xZZ..0 ALPHA\n"));
}

fn config(
    seed_csv: &str,
    char_def: &str,
    unk_def: &str,
    feature_def: &str,
    rewrite_def: &str,
) -> TrainerConfig {
    TrainerConfig::from_readers(seed_csv, char_def, unk_def, feature_def, rewrite_def).unwrap()
}

#[test]
fn test_ipadic_format_13_columns() {
    let seed_csv = "東京,0,0,5000,名詞,固有名詞,地域,一般,*,*,東京,トウキョウ,トーキョー\n\
                    行く,1,1,4000,動詞,自立,*,*,五段・カ行促音便,基本形,行く,イク,イク\n";
    let char_def = "DEFAULT 0 1 0\nHIRAGANA 1 1 0\n0x3042..0x3096 HIRAGANA\n";
    let unk_def = "DEFAULT,0,0,1500,名詞,一般,*,*,*,*,*,*,*\n";
    let feature_def = "UNIGRAM:%F[0]\nUNIGRAM:%F[1]\n";
    let rewrite_def = "*\tUNK\n";

    let config = config(seed_csv, char_def, unk_def, feature_def, rewrite_def);

    assert_eq!(config.surfaces().len(), 2);
    assert!(config.surfaces().contains(&"東京".to_string()));
    assert!(config.surfaces().contains(&"行く".to_string()));

    let tokyo_features = get_text_entry(config.surface_features(), "東京").unwrap();
    assert_eq!(
        tokyo_features,
        "名詞,固有名詞,地域,一般,*,*,東京,トウキョウ,トーキョー"
    );
}

#[test]
fn test_ko_dic_format_8_columns() {
    let seed_csv = "한국,0,0,5000,NNG,Korea,F,han-guk\n\
                    안녕,1,1,4000,NNG,hello,F,an-nyeong\n";
    let char_def = "DEFAULT 0 1 0\nHANGUL 1 1 0\n0xAC00..0xD7A3 HANGUL\n";
    let unk_def = "DEFAULT,0,0,1500,NNG,unknown,F,*\n";
    let feature_def = "UNIGRAM:%F[0]\n";
    let rewrite_def = "*\tUNK\n";

    let config = config(seed_csv, char_def, unk_def, feature_def, rewrite_def);

    assert_eq!(config.surfaces().len(), 2);
    assert!(config.surfaces().contains(&"한국".to_string()));
    assert!(config.surfaces().contains(&"안녕".to_string()));

    let korea_features = get_text_entry(config.surface_features(), "한국").unwrap();
    assert_eq!(korea_features, "NNG,Korea,F,han-guk");
}

#[test]
fn test_cc_cedict_format_8_columns() {
    let seed_csv = "中国,0,0,5000,n,China,*,zhong1guo2\n\
                    你好,1,1,4000,x,hello,*,ni3hao3\n";
    let char_def = "DEFAULT 0 1 0\nHANZI 1 1 0\n0x4E00..0x9FFF HANZI\n";
    let unk_def = "DEFAULT,0,0,1500,n,unknown,*,*\n";
    let feature_def = "UNIGRAM:%F[0]\n";
    let rewrite_def = "*\tUNK\n";

    let config = config(seed_csv, char_def, unk_def, feature_def, rewrite_def);

    assert_eq!(config.surfaces().len(), 2);
    assert!(config.surfaces().contains(&"中国".to_string()));
    assert!(config.surfaces().contains(&"你好".to_string()));

    let china_features = get_text_entry(config.surface_features(), "中国").unwrap();
    assert_eq!(china_features, "n,China,*,zhong1guo2");
}

#[test]
fn test_unidic_format_21_columns() {
    let seed_csv = "東京,0,0,5000,名詞,固有名詞,地名,一般,*,*,トウキョウ,東京,東京,東京,東京,東京,トウキョウ,トーキョー,東京,東京,1\n";
    let char_def = "DEFAULT 0 1 0\nKANJI 0 0 2\n0x4E00..0x9FFF KANJI\n";
    let unk_def = "DEFAULT,0,0,1500,名詞,普通名詞,一般,*,*,*,*,*,*,*,*,*,*,*,*,*,*\n";
    let feature_def = "UNIGRAM:%F[0]\nUNIGRAM:%F[1]\n";
    let rewrite_def = "*\tUNK\n";

    let config = config(seed_csv, char_def, unk_def, feature_def, rewrite_def);

    assert_eq!(config.surfaces().len(), 1);
    assert!(config.surfaces().contains(&"東京".to_string()));

    let tokyo_features = get_text_entry(config.surface_features(), "東京").unwrap();
    assert_eq!(
        tokyo_features,
        "名詞,固有名詞,地名,一般,*,*,トウキョウ,東京,東京,東京,東京,東京,トウキョウ,トーキョー,東京,東京,1"
    );
}

#[test]
fn test_mixed_column_counts() {
    let seed_csv = "東京,0,0,5000,名詞,固有名詞,地域,一般,*,*,東京,トウキョウ,トーキョー\n\
                    한국,1,1,4000,NNG,Korea,F,han-guk\n\
                    中国,2,2,3000,n,China,*,zhong1guo2\n";
    let char_def = "DEFAULT 0 1 0\n";
    let unk_def = "DEFAULT,0,0,1500,*,*,*,*\n";
    let feature_def = "UNIGRAM:%F[0]\n";
    let rewrite_def = "*\tUNK\n";

    let config = config(seed_csv, char_def, unk_def, feature_def, rewrite_def);

    assert_eq!(config.surfaces().len(), 3);
    assert_eq!(
        get_text_entry(config.surface_features(), "東京").unwrap(),
        "名詞,固有名詞,地域,一般,*,*,東京,トウキョウ,トーキョー"
    );
    assert_eq!(
        get_text_entry(config.surface_features(), "한국").unwrap(),
        "NNG,Korea,F,han-guk"
    );
    assert_eq!(
        get_text_entry(config.surface_features(), "中国").unwrap(),
        "n,China,*,zhong1guo2"
    );
}

#[test]
fn test_trainer_config_creation() {
    let lexicon_data = "外国,0,0,5000,名詞,一般,*,*,*,*,外国,ガイコク,ガイコク\n人,1,1,5000,名詞,接尾,一般,*,*,*,人,ジン,ジン\n";
    let char_data = "# char.def placeholder\n";
    let unk_data = "# unk.def placeholder\n";
    let feature_data = "UNIGRAM:%F[0]\nLEFT:%L[0]\nRIGHT:%R[0]\n";
    let rewrite_data = "# rewrite.def placeholder\n";

    let result = TrainerConfig::from_readers(
        lexicon_data,
        char_data,
        unk_data,
        feature_data,
        rewrite_data,
    );

    assert!(result.is_ok());
    let config = result.unwrap();
    assert_eq!(config.surfaces().len(), 2);
    assert!(config.surfaces().contains(&"外国".to_string()));
    assert!(config.surfaces().contains(&"人".to_string()));
}

#[test]
fn test_unk_categories_ipadic() {
    let lexicon_data = "東京,0,0,5000,名詞,固有名詞,地域,一般,*,*,東京,トウキョウ,トーキョー\n";
    let char_data = "DEFAULT 0 1 0\nHIRAGANA 1 1 0\n";
    let unk_data = "DEFAULT,0,0,1500,名詞,一般,*,*,*,*,*,*,*\nHIRAGANA,1,1,2000,名詞,代名詞,一般,*,*,*,*,*,*\n";
    let feature_data = "UNIGRAM:%F[0]\n";
    let rewrite_data = "*\tUNK\n";

    let config = config(lexicon_data, char_data, unk_data, feature_data, rewrite_data);

    assert_eq!(config.unk_categories.len(), 2);
    assert_eq!(
        get_text_entry(&config.unk_categories, "DEFAULT").unwrap(),
        "名詞,一般,*,*,*,*,*,*,*"
    );
    assert_eq!(
        get_text_entry(&config.unk_categories, "HIRAGANA").unwrap(),
        "名詞,代名詞,一般,*,*,*,*,*,*"
    );
}

#[test]
fn test_unk_categories_ko_dic() {
    let lexicon_data = "한국,0,0,5000,NNG,Korea,F,han-guk\n";
    let char_data = "DEFAULT 0 1 0\n";
    let unk_data = "DEFAULT,0,0,1500,NNG,unknown,F,*\n";
    let feature_data = "UNIGRAM:%F[0]\n";
    let rewrite_data = "*\tUNK\n";

    let config = config(lexicon_data, char_data, unk_data, feature_data, rewrite_data);

    assert_eq!(config.unk_categories.len(), 1);
    assert_eq!(
        get_text_entry(&config.unk_categories, "DEFAULT").unwrap(),
        "NNG,unknown,F,*"
    );
}

#[test]
fn test_unk_categories_cc_cedict() {
    let lexicon_data = "中国,0,0,5000,n,China,*,zhong1guo2\n";
    let char_data = "DEFAULT 0 1 0\n";
    let unk_data = "DEFAULT,0,0,1500,n,unknown,*,*\n";
    let feature_data = "UNIGRAM:%F[0]\n";
    let rewrite_data = "*\tUNK\n";

    let config = config(lexicon_data, char_data, unk_data, feature_data, rewrite_data);

    assert_eq!(config.unk_categories.len(), 1);
    assert_eq!(
        get_text_entry(&config.unk_categories, "DEFAULT").unwrap(),
        "n,unknown,*,*"
    );
}

#[test]
fn user_lexicon_entry_takes_precedence() {
    let seed_csv = "東京,0,0,5000,名詞,固有名詞\n行く,1,1,4000,動詞,自立\n";
    let mut config = config(seed_csv, "DEFAULT 0 1 0\n", "", "UNIGRAM:%F[0]\n", "");
    assert_eq!(config.get_features("東京").unwrap(), "名詞,固有名詞");
    assert_eq!(config.get_features("大阪"), None);

    config.add_user_lexicon_entry("東京".to_string(), "名詞,地名".to_string());
    assert_eq!(config.get_features("東京").unwrap(), "名詞,地名");
    assert_eq!(config.get_features("行く").unwrap(), "動詞,自立");
    assert_eq!(get_text_entry(config.surface_features(), "東京").unwrap(), "名詞,固有名詞");
}

#[test]
fn load_user_lexicon_keeps_last_entry_per_surface() {
    let mut config = config("", "DEFAULT 0 1 0\n", "", "", "");
    config
        .load_user_lexicon_from_content(
            "# comment\n大阪,0,0,1,名詞,一\n\n短い,0,0,1\n大阪,0,0,1,名詞,二\n",
        )
        .unwrap();
    assert_eq!(config.user_lexicon().len(), 1);
    assert_eq!(config.get_features("大阪").unwrap(), "名詞,二");
    assert_eq!(config.get_features("短い"), None);
}

#[test]
fn later_seed_line_replaces_surface_features() {
    let seed_csv = "東京,0,0,1,A\n東京,0,0,1,B\n";
    let config = config(seed_csv, "", "X,0,0,7,f\nX,0,0,oops,g\n", "", "");
    assert_eq!(config.surfaces().len(), 2);
    assert_eq!(config.surface_features().len(), 1);
    assert_eq!(get_text_entry(config.surface_features(), "東京").unwrap(), "B");
    assert_eq!(get_text_entry(&config.unk_categories, "X").unwrap(), "g");
    assert_eq!(config.unk_costs.len(), 1);
    assert_eq!(config.unk_costs[0].1, 7);
}

#[test]
fn invalid_char_range_is_a_parse_error() {
    let result = TrainerConfig::from_readers("", "0xZZ..0x10 KANJI\n", "", "", "");
    assert!(result.is_err());
}

#[test]
fn training_dictionary_parts() {
    let config = config("", "DEFAULT 0 1 0\nKANJI 0 0 2\n0x4E00..0x9FFF KANJI\n", "", "", "");
    let dict = config.dict();
    assert_eq!(dict.connection_cost_matrix.forward_size, 6);
    assert_eq!(dict.connection_cost_matrix.backward_size, 6);
    assert_eq!(dict.connection_cost_matrix.table.len(), 36);
    assert_eq!(config.unk_handler().category_references.len(), 6);
    assert_eq!(config.unk_handler().category_references[3], vec![0u32]);
    assert!(config.unk_handler().costs.is_empty());
    assert_eq!(config.metadata().name, "default");
    let cd = &dict.character_definition;
    assert_eq!(cd.category_names, vec!["DEFAULT".to_string(), "KANJI".to_string()]);
    assert_eq!(cd.mapping.eval(0x4E00), &[CategoryId(1)]);
    assert_eq!(cd.mapping.eval(0x41), &[CategoryId(0)]);
}

#[test]
fn char_def_flags_follow_the_definitions() {
    let cd = build_char_def_from_content("0x3041..0x3096 HIRAGANA\nHIRAGANA 0 1 2\n").unwrap();
    assert_eq!(cd.category_definitions.len(), 2);
    assert!(!cd.category_definitions[1].invoke);
    assert!(cd.category_definitions[1].group);
    assert_eq!(cd.category_definitions[1].length, 2);
    assert_eq!(cd.mapping.eval(0x3042), &[CategoryId(1)]);
}

#[test]
fn dictionary_word_details_without_slot_are_empty() {
    let config = config("", "", "", "", "");
    assert!(config.dict().word_details(0).is_empty());
    assert_eq!(config.dict().word_details_iter(5).len(), 0);
}
