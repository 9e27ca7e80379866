use lindera_dictionary::builder::prefix_dictionary::{decode_text, normalize, parse_lexicon, values_files, PrefixDictionaryBuilder};
use lindera_dictionary::dictionary::schema::Schema;
use lindera_dictionary::error::LinderaErrorKind;
use lindera_dictionary::util::{joined_details_at, packed_details_iter, words_idx_offset, DetailFields};
use lindera_dictionary::viterbi::LexType;

fn record(fields: &[&str]) -> Vec<String> {
    fields.iter().map(|s| s.to_string()).collect()
}

#[test]
fn test_new_with_schema() {
    let schema = Schema::default();
    let builder = PrefixDictionaryBuilder::new(schema.clone());
    assert!(builder.flexible_csv);
    assert_eq!(builder.encoding, "UTF-8");
    assert!(!builder.normalize_details);
    assert!(!builder.skip_invalid_cost_or_id);
}

#[test]
fn test_get_common_field_value_empty() {
    let builder = PrefixDictionaryBuilder::new(Schema::default());
    let record = record(&["", "123", "456", "789"]);
    let surface = builder.get_field_value(&record, "surface").unwrap();
    assert_eq!(surface, None);
}

#[test]
fn test_get_common_field_value_out_of_bounds() {
    let builder = PrefixDictionaryBuilder::new(Schema::default());
    let record = record(&["surface_form"]);
    let left_id = builder.get_field_value(&record, "left_context_id").unwrap();
    assert_eq!(left_id, None);
}

#[test]
fn test_parse_word_cost() {
    let builder = PrefixDictionaryBuilder::new(Schema::default());
    let record = record(&["surface_form", "123", "456", "789"]);
    assert_eq!(builder.parse_word_cost(&record).unwrap(), Some(789));
}

#[test]
fn test_parse_word_cost_invalid() {
    let builder = PrefixDictionaryBuilder::new(Schema::default());
    let record = record(&["surface_form", "123", "456", "invalid"]);
    assert!(builder.parse_word_cost(&record).is_err());
}

#[test]
fn test_parse_word_cost_skip_invalid() {
    let mut builder = PrefixDictionaryBuilder::new(Schema::default());
    builder.skip_invalid_cost_or_id = true;
    let record = record(&["surface_form", "123", "456", "invalid"]);
    assert_eq!(builder.parse_word_cost(&record).unwrap(), None);
}

#[test]
fn test_parse_left_id() {
    let builder = PrefixDictionaryBuilder::new(Schema::default());
    let record = record(&["surface_form", "123", "456", "789"]);
    assert_eq!(builder.parse_left_id(&record).unwrap(), Some(123));
}

#[test]
fn test_parse_right_id() {
    let builder = PrefixDictionaryBuilder::new(Schema::default());
    let record = record(&["surface_form", "123", "456", "789"]);
    assert_eq!(builder.parse_right_id(&record).unwrap(), Some(456));
}

#[test]
fn test_normalize_function() {
    assert_eq!(normalize("test―text"), "test—text");
    assert_eq!(normalize("test～text"), "test〜text");
    assert_eq!(normalize("test―text～more"), "test—text〜more");
    assert_eq!(normalize("normal text"), "normal text");
}

#[test]
fn test_get_common_field_value() {
    let builder = PrefixDictionaryBuilder::new(Schema::default());
    let rec = record(&["word", "123", "456", "789", "名詞"]);
    assert_eq!(builder.get_field_value(&rec, "surface").unwrap(), Some("word".to_string()));
    assert_eq!(builder.get_field_value(&rec, "left_context_id").unwrap(), Some("123".to_string()));
    assert_eq!(builder.get_field_value(&rec, "right_context_id").unwrap(), Some("456".to_string()));
    assert_eq!(builder.get_field_value(&rec, "cost").unwrap(), Some("789".to_string()));
    let short_record = record(&["word", "123"]);
    assert_eq!(builder.get_field_value(&short_record, "cost").unwrap(), None);
}

#[test]
fn field_values_are_trimmed() {
    let builder = PrefixDictionaryBuilder::new(Schema::default());
    let rec = record(&[" word\t", " 12 ", "3", "  -4  "]);
    assert_eq!(builder.get_field_value(&rec, "surface").unwrap(), Some("word".to_string()));
    assert_eq!(builder.parse_left_id(&rec).unwrap(), Some(12));
    assert_eq!(builder.parse_word_cost(&rec).unwrap(), Some(-4));
    let big = record(&["w", "70000", "3", "40000"]);
    assert_eq!(builder.parse_left_id(&big).unwrap_err().kind, LinderaErrorKind::Content);
    assert!(builder.parse_word_cost(&big).is_err());
}

fn lexicon() -> Vec<Vec<String>> {
    vec![
        record(&["東京", "1", "2", "100", "名詞", "固有名詞"]),
        record(&["東京", "3", "4", "200", "名詞", "一般"]),
        record(&["京都", "5", "6", "-300", "名詞", "地域"]),
    ]
}

#[test]
fn word_entry_map_groups_rows_by_surface() {
    let builder = PrefixDictionaryBuilder::new(Schema::default());
    let map = builder.build_word_entry_map(&lexicon()).unwrap();
    assert_eq!(map.keys, vec!["京都".to_string(), "東京".to_string()]);
    assert_eq!(map.values[1].len(), 2);
    assert_eq!(map.values[1][0].word_id.id, 0);
    assert_eq!(map.values[1][1].word_id.id, 1);
    assert_eq!(map.values[1][1].word_cost, 200);
    assert_eq!(map.values[0][0].word_cost, -300);
    assert_eq!(map.values[0][0].word_id.lex_type, LexType::System);
    let bad = vec![record(&["x", "1", "2", "oops"])];
    assert_eq!(builder.build_word_entry_map(&bad).unwrap_err().kind, LinderaErrorKind::Content);
}

#[test]
fn built_words_read_back() {
    let builder = PrefixDictionaryBuilder::new(Schema::default());
    let rows = lexicon();
    let files = builder.build(&rows).unwrap();
    for (i, row) in rows.iter().enumerate() {
        let details = packed_details_iter(&files.words_idx, &files.words, i, DetailFields::empty()).collect_vec();
        assert_eq!(details, row[4..].to_vec());
    }
    assert!(!files.da.is_empty());
    let values = values_files(&files.entries);
    assert_eq!(values.costs, files.values.costs);
    assert_eq!(files.values.costs, vec![0xd4, 0xfe, 100, 0, 200, 0]);
    assert_eq!(files.values.left_ids, vec![5, 0, 1, 0, 3, 0]);
    assert_eq!(files.values.word_ids, vec![2, 0, 0, 0, 0, 0, 0, 0, 1, 0, 0, 0]);
}

#[test]
fn sort_rows_orders_by_first_column() {
    let mut builder = PrefixDictionaryBuilder::new(Schema::default());
    let mut rows = vec![record(&["b"]), record(&["a"]), record(&["～"]), record(&["〜x"])];
    builder.sort_rows(&mut rows);
    assert_eq!(rows, vec![record(&["a"]), record(&["b"]), record(&["〜x"]), record(&["～"])]);
    builder.normalize_details = true;
    let mut rows = vec![record(&["～"]), record(&["〜x"])];
    builder.sort_rows(&mut rows);
    assert_eq!(rows, vec![record(&["～"]), record(&["〜x"])]);
}

#[test]
fn test_get_encoding() {
    let schema = Schema::default();
    let builder = PrefixDictionaryBuilder::new(schema);

    let encoding = builder.get_encoding().unwrap();
    assert_eq!(encoding.name(), "UTF-8");
}

#[test]
fn test_get_encoding_invalid() {
    let schema = Schema::default();
    let mut builder = PrefixDictionaryBuilder::new(schema);
    builder.encoding = "INVALID-ENCODING".into();

    let result = builder.get_encoding();
    assert!(result.is_err());
    assert_eq!(result.err().unwrap().kind, LinderaErrorKind::Decode);
}

#[test]
fn get_encoding_accepts_other_labels() {
    let schema = Schema::default();
    let mut builder = PrefixDictionaryBuilder::new(schema);
    builder.encoding = "euc-jp".into();
    assert_eq!(builder.get_encoding().unwrap().name(), "EUC-JP");
    builder.encoding = "replacement".into();
    assert!(builder.get_encoding().is_err());
}

#[test]
fn words_files_read_back_record_by_record() {
    let builder = PrefixDictionaryBuilder::new(Schema::default());
    let rows = vec![
        record(&["東京", "1", "2", "3", "名詞", "固有名詞"]),
        record(&["a", "0", "0", "0"]),
        record(&["行く", "1", "1", "4000", "動詞", "自立", "*"]),
    ];
    let (data, idx) = builder.words_files(&rows).unwrap();
    assert_eq!(idx.len(), 4 * rows.len());
    let expected = ["名詞\0固有名詞", "", "動詞\0自立\0*"];
    for (i, text) in expected.iter().enumerate() {
        let offset = words_idx_offset(&idx, i).unwrap();
        assert_eq!(joined_details_at(&data, offset), Some(*text));
    }
    assert_eq!(words_idx_offset(&idx, rows.len()), None);
}

#[test]
fn lexicon_bytes_are_decoded_then_read_as_csv() {
    let rows = parse_lexicon("東京,1,2,3\n行く,4,5,6\n".as_bytes(), "UTF-8", false).unwrap();
    assert_eq!(rows, vec![record(&["東京", "1", "2", "3"]), record(&["行く", "4", "5", "6"])]);
    // "あ" in EUC-JP.
    let rows = parse_lexicon(&[0xA4, 0xA2, b',', b'1', b'\n'], "EUC-JP", false).unwrap();
    assert_eq!(rows, vec![record(&["あ", "1"])]);
    assert_eq!(parse_lexicon(b"a,b\n", "no-such-encoding", false).unwrap_err().kind, LinderaErrorKind::Decode);
    assert_eq!(parse_lexicon(b"a,b\nc\n", "UTF-8", false).unwrap_err().kind, LinderaErrorKind::Content);
    assert_eq!(parse_lexicon(b"a,b\nc\n", "UTF-8", true).unwrap(), vec![record(&["a", "b"]), record(&["c"])]);
    assert_eq!(decode_text(&[0xA4, 0xA2], "EUC-JP").unwrap(), "あ");
}
