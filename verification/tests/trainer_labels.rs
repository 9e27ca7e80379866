use lindera_dictionary::trainer::config::TrainerConfig;
use lindera_dictionary::trainer::{classify_unknown_word, extract_labels, is_word_in_dictionary, LabelTable};

fn config() -> TrainerConfig {
    let seed_csv = "東京,0,0,5000,名詞,固有名詞\n行く,1,1,4000,動詞,自立\n";
    TrainerConfig::from_readers(seed_csv, "DEFAULT 0 1 0\n", "", "", "").unwrap()
}

fn strings(v: &[&str]) -> Vec<String> {
    v.iter().map(|s| s.to_string()).collect()
}

#[test]
fn classify_unknown_word_by_first_character() {
    assert_eq!(classify_unknown_word("42"), 5);
    assert_eq!(classify_unknown_word("abc"), 4);
    assert_eq!(classify_unknown_word("漢字"), 3);
    assert_eq!(classify_unknown_word("カナ"), 2);
    assert_eq!(classify_unknown_word("かな"), 1);
    assert_eq!(classify_unknown_word("。"), 0);
    assert_eq!(classify_unknown_word(""), 0);
}

#[test]
fn labels_are_surfaces_then_classes() {
    let labels = extract_labels(&config());
    assert_eq!(
        labels,
        strings(&["東京", "行く", "DEFAULT", "HIRAGANA", "KATAKANA", "KANJI", "ALPHA", "NUMERIC"])
    );
}

#[test]
fn known_words_are_seed_surfaces_or_categorized() {
    let config = config();
    assert!(is_word_in_dictionary(&config, "東京"));
    // every character falls in some category of the definition
    assert!(is_word_in_dictionary(&config, "大阪"));
    assert!(!is_word_in_dictionary(&config, ""));
}

#[test]
fn label_table_numbers_surfaces_then_classes() {
    let mut table = LabelTable::new(&strings(&["東京", "行く", "東京", ""]));
    assert_eq!(table.unknown_ids, vec![5, 6, 7, 8, 9, 10]);
    let config = config();
    // a later duplicate replaces the earlier label
    assert_eq!(table.get_or_create_label_id(&config, "東京"), 3);
    assert_eq!(table.get_or_create_label_id(&config, "行く"), 2);
    // a known word without a label gets a new one, kept for next time
    let new_id = table.get_or_create_label_id(&config, "大阪");
    assert_eq!(new_id, 4);
    assert_eq!(table.get_or_create_label_id(&config, "大阪"), 4);
    // the empty surface is not known and has no label: the DEFAULT class
    assert_eq!(table.get_or_create_label_id(&config, ""), 5);
}
