use daachorse::DoubleArrayAhoCorasickBuilder;
use lindera_dictionary::builder::prefix_dictionary::pack_entry_value;
use lindera_dictionary::builder::user_dictionary::{UserDictionaryBuilder, UserDictionaryBuilderOptions};
use lindera_dictionary::builder::DictionaryBuilder;
use lindera_dictionary::dictionary::context_id_map::ContextIdMap;
use lindera_dictionary::dictionary::metadata::Metadata;
use lindera_dictionary::dictionary::prefix_dictionary::UserPrefixDictionary;
use lindera_dictionary::dictionary::UserDictionary;
use lindera_dictionary::error::LinderaErrorKind;
use lindera_dictionary::viterbi::{LexType, WordEntry, SERIALIZED_LEN};

fn user_dictionary(entries: &[&[&str]]) -> UserDictionary {
    let mut words_idx_data = Vec::new();
    let mut words_data = Vec::new();
    for fields in entries {
        words_idx_data.extend_from_slice(&(words_data.len() as u32).to_le_bytes());
        let joined = fields.join("\0");
        words_data.extend_from_slice(&(joined.len() as u32).to_le_bytes());
        words_data.extend_from_slice(joined.as_bytes());
    }
    let da = match DoubleArrayAhoCorasickBuilder::new().build_with_values([("x", 0u32)]) {
        Ok(da) => da,
        Err(err) => panic!("failed to build test automaton: {err}"),
    };
    UserDictionary {
        dict: UserPrefixDictionary {
            da_bytes: da.serialize(),
            da,
            vals_data: Vec::new(),
            words_idx_data,
            words_data,
            is_system: false,
        },
    }
}

#[test]
fn user_word_details_returns_fields_in_order() {
    let dict = user_dictionary(&[&["カスタム名詞", "*", "リンデラ"], &["動詞", "自立", "*"]]);

    assert_eq!(dict.word_details(0), vec!["カスタム名詞", "*", "リンデラ"]);
    assert_eq!(dict.word_details(1), vec!["動詞", "自立", "*"]);
}

#[test]
fn user_word_details_handles_single_field() {
    let dict = user_dictionary(&[&["ONLY"]]);
    assert_eq!(dict.word_details(0), vec!["ONLY"]);
}

#[test]
fn user_word_details_preserves_empty_fields() {
    let dict = user_dictionary(&[&["", "a", "", "b", ""]]);
    assert_eq!(dict.word_details(0), vec!["", "a", "", "b", ""]);
}

#[test]
fn user_word_details_out_of_range_returns_unk() {
    let dict = user_dictionary(&[&["名詞", "一般"]]);
    assert_eq!(dict.word_details(1), vec!["UNK"]);
    assert_eq!(dict.word_details(usize::MAX / 4), vec!["UNK"]);
}

#[test]
fn user_word_details_invalid_utf8_returns_unk() {
    let mut dict = user_dictionary(&[&["ok", "fields"]]);
    let mut bytes = dict.dict.words_data.clone();
    let last = bytes.len() - 1;
    bytes[last] = 0xff;
    dict.dict.words_data = bytes;
    assert_eq!(dict.word_details(0), vec!["UNK"]);
}

#[test]
fn user_word_details_iter_matches_word_details() {
    let dict = user_dictionary(&[&["カスタム名詞", "*", "リンデラ"], &["動詞", "自立", "*"], &["ONLY"]]);

    for word_id in 0..3 {
        let via_iter: Vec<String> = dict.word_details_iter(word_id).collect_vec();
        assert_eq!(via_iter, dict.word_details(word_id), "word_id {word_id}");
    }
}

#[test]
fn user_word_details_iter_reports_an_exact_length() {
    let dict = user_dictionary(&[&["a", "b", "c"], &["only"]]);

    let mut fields = dict.word_details_iter(0);
    assert_eq!(fields.len(), 3);
    assert_eq!(fields.next().as_deref(), Some("a"));
    assert_eq!(fields.len(), 2, "len must track consumption");
    assert_eq!(fields.collect_vec().len(), 2);

    assert_eq!(dict.word_details_iter(1).len(), 1);
    assert_eq!(dict.word_details_iter(99).len(), 1);
}

#[test]
fn user_word_details_corrupt_offset_falls_back_instead_of_panicking() {
    let mut dict = user_dictionary(&[&["名詞", "一般"]]);

    let mut idx_bytes = dict.dict.words_idx_data.clone();
    let past_end = (dict.dict.words_data.len() as u32) + 1_000;
    idx_bytes[0..4].copy_from_slice(&past_end.to_le_bytes());
    dict.dict.words_idx_data = idx_bytes;

    assert_eq!(dict.word_details(0), vec!["UNK"]);
    assert_eq!(dict.word_details_iter(0).collect_vec(), vec!["UNK"]);
}

#[test]
fn user_dictionary_load_validates_da_bytes() {
    let keyset: Vec<(&[u8], u32)> = vec![(b"a", 0), (b"ab", 1), (b"b", 2)];
    let da = DoubleArrayAhoCorasickBuilder::new().build_with_values(keyset).unwrap();
    let da_bytes = da.serialize();

    let dict = UserPrefixDictionary::load(da_bytes.clone(), Vec::<u8>::new(), Vec::<u8>::new(), Vec::<u8>::new())
        .unwrap();
    assert_eq!(dict.da.find_overlapping_iter("ab").count(), 3);
    assert_eq!(dict.da_bytes, da_bytes);

    let mut truncated = da_bytes;
    truncated.truncate(4);
    assert!(UserPrefixDictionary::load(truncated, Vec::<u8>::new(), Vec::<u8>::new(), Vec::<u8>::new()).is_err());
}

fn flexible_builder() -> DictionaryBuilder {
    let metadata = Metadata {
        flexible_csv: true,
        ..Metadata::default()
    };
    DictionaryBuilder::new(metadata)
}

#[test]
fn short_rows_error_instead_of_panicking() {
    for csv in ["東京\n", "東京,1288\n"] {
        let result = flexible_builder().build_user_dict_from_reader(csv.as_bytes());
        let err = match result {
            Ok(_) => panic!("{csv:?} must not build"),
            Err(err) => format!("{err:?}"),
        };
        assert!(
            err.contains("user dictionary should be a CSV with 3 or 13+ fields"),
            "unexpected error for {csv:?}: {err}"
        );
    }
}

fn row(fields: &[&str]) -> Vec<String> {
    fields.iter().map(|s| s.to_string()).collect()
}

#[test]
fn mixed_simple_and_detailed_rows_build_in_surface_order() {
    let csv = "東京スカイツリー,トウキョウスカイツリー,トウキョウスカイツリー\n\
               東武スカイツリーライン,1288,1288,-1000,名詞,固有名詞,一般,*,*,*,東武スカイツリーライン,トウブスカイツリーライン,トウブスカイツリーライン\n\
               とうきょうスカイツリー駅,1288,1288,-1000,名詞,固有名詞,一般,*,*,*,とうきょうスカイツリー駅,トウキョウスカイツリーエキ,トウキョウスカイツリーエキ\n";
    let dict = flexible_builder().build_user_dict_from_reader(csv.as_bytes()).unwrap();
    assert!(!dict.dict.vals_data.is_empty());
    assert!(!dict.dict.is_system);

    // Rows are sorted by surface: とうきょう... < 東京... < 東武...
    let entries: Vec<WordEntry> = dict
        .dict
        .vals_data
        .chunks(SERIALIZED_LEN)
        .map(|c| WordEntry::deserialize(c, false))
        .collect();
    assert_eq!(entries.len(), 3);
    assert_eq!(entries[0].word_id().id(), 0);
    assert_eq!(entries[0].word_cost(), -1000);
    assert_eq!(entries[1].word_cost(), Metadata::default().default_word_cost);
    assert_eq!(entries[1].left_id(), 1288);
    assert_eq!(entries[2].word_id().lex_type(), LexType::User);

    // The simple row's details are laid out in the dictionary schema.
    let details = dict.word_details(1);
    assert_eq!(details.len(), 9);
    assert_eq!(details[0], "*");
    assert_eq!(details[7], "トウキョウスカイツリー");
    assert_eq!(dict.word_details(0)[6], "とうきょうスカイツリー駅");
}

#[test]
fn detailed_row_with_a_bad_cost_is_a_parse_error() {
    let builder = UserDictionaryBuilderOptions::default().builder();
    let rows = vec![row(&["a", "1", "2", "x", "f", "f", "f", "f", "f", "f", "f", "f"])];
    let err = builder.build_from_rows(rows).err().unwrap();
    assert_eq!(err.kind, LinderaErrorKind::Parse);
}

#[test]
fn row_of_wrong_arity_is_a_content_error() {
    let builder = UserDictionaryBuilderOptions::default().builder();
    let rows = vec![row(&["a", "b", "c"]), row(&["a", "b", "c", "d"])];
    let err = builder.build_from_rows(rows).err().unwrap();
    assert_eq!(err.kind, LinderaErrorKind::Content);
    assert_eq!(err.source, "user dictionary should be a CSV with 3 or 12+ fields");
}

#[test]
fn built_user_dictionary_keeps_its_automaton_bytes() {
    let builder = UserDictionaryBuilderOptions::default().builder();
    let dict = builder.build_from_reader(b"b,x,y\na,p,q\n").unwrap();
    let (da, _) = daachorse::DoubleArrayAhoCorasick::<u32>::deserialize(&dict.dict.da_bytes).unwrap();
    let found: Vec<(usize, u32)> = da.find_overlapping_iter("ab").map(|m| (m.end(), m.value())).collect();
    assert_eq!(found, vec![(1, 1), (2, (1 << 8) | 1)]);
}

#[test]
fn simple_rows_without_mapping_keep_their_columns() {
    let builder: UserDictionaryBuilder = UserDictionaryBuilderOptions::default()
        .default_word_cost(-5)
        .default_left_context_id(7)
        .default_right_context_id(9)
        .builder();
    let rows = vec![row(&["b", "x", "y"]), row(&["a", "p", "q"]), row(&["a", "r", "s"])];
    let dict = builder.build_from_rows(rows).unwrap();
    // Sorted stably: a(p,q), a(r,s), b(x,y).
    assert_eq!(dict.word_details(0), vec!["p", "q"]);
    assert_eq!(dict.word_details(1), vec!["r", "s"]);
    assert_eq!(dict.word_details(2), vec!["x", "y"]);
    let e = WordEntry::deserialize(&dict.dict.vals_data[SERIALIZED_LEN..], false);
    assert_eq!((e.word_id().id(), e.word_cost(), e.left_id(), e.right_id()), (1, -5, 7, 9));
    // The automaton finds both surfaces, with packed (first id, count) values.
    let found: Vec<(usize, u32)> = dict.dict.da.find_overlapping_iter("ab").map(|m| (m.end(), m.value())).collect();
    assert_eq!(found, vec![(1, 2), (2, (2 << 8) | 1)]);
    assert_eq!(dict.dict.decode_val(2), (0, 2));
    assert_eq!(dict.dict.decode_val((2 << 8) | 1), (2, 1));
}

#[test]
fn pack_entry_value_limits() {
    assert_eq!(pack_entry_value("a", 5, 3).unwrap(), (5 << 8) | 3);
    assert_eq!(pack_entry_value("a", 0xff_ffff, 255).unwrap(), 0xffff_ffff);
    assert_eq!(pack_entry_value("a", 1, 256).err().unwrap().kind, LinderaErrorKind::Build);
    assert_eq!(pack_entry_value("a", 0x100_0000, 1).err().unwrap().kind, LinderaErrorKind::Build);
}

#[test]
fn remap_context_ids_rewrites_whole_records() {
    let builder = UserDictionaryBuilderOptions::default().builder();
    let rows = vec![
        row(&["a", "1", "2", "10", "f", "f", "f", "f", "f", "f", "f", "f"]),
        row(&["b", "0", "5", "20", "f", "f", "f", "f", "f", "f", "f", "f"]),
    ];
    let mut dict = builder.build_from_rows(rows).unwrap();
    let map = ContextIdMap { left: vec![3, 4], right: vec![0, 1, 2] };
    dict.remap_context_ids(&map);
    let a = WordEntry::deserialize(&dict.dict.vals_data[..SERIALIZED_LEN], false);
    let b = WordEntry::deserialize(&dict.dict.vals_data[SERIALIZED_LEN..], false);
    // Left 1 -> 4, right 2 -> 2; left 0 -> 3, right 5 stays (outside the permutation).
    assert_eq!((a.left_id(), a.right_id(), a.word_cost()), (4, 2, 10));
    assert_eq!((b.left_id(), b.right_id(), b.word_cost()), (3, 5, 20));
}
