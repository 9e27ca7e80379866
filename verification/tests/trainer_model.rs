use lindera_dictionary::trainer::config::TrainerConfig;
use lindera_dictionary::trainer::model::{
    bigram_feature_line, category_id_of, default_features, parse_user_lexicon_line, feature_string_of, id_def_text, id_feature_map, id_maps, infer_context_ids, pos_info,
    unknown_word_cost, FALLBACK_UNKNOWN_COST,
};
use lindera_dictionary::trainer::feature_rewriter::DictionaryRewriter;
use lindera_dictionary::viterbi::{LexType, WordEntry, WordId};

fn config() -> TrainerConfig {
    let seed_csv = "東京,0,0,5000,名詞,固有名詞,地域\n行く,1,1,4000,動詞,自立,*\n";
    let char_def = "DEFAULT 0 1 0\nHIRAGANA 1 1 0\nKANJI 0 0 2\n0x3041..0x3096 HIRAGANA\n0x4E00..0x9FFF KANJI\n";
    let unk_def = "DEFAULT,0,0,1500,名詞,一般,*\nKANJI,2,2,1200,名詞,漢字,*\n";
    TrainerConfig::from_readers(seed_csv, char_def, unk_def, "UNIGRAM:%F[0]\n", "").unwrap()
}

fn strings(v: &[&str]) -> Vec<String> {
    v.iter().map(|s| s.to_string()).collect()
}

fn entry(id: u32, left: u16, right: u16) -> WordEntry {
    WordEntry { word_id: WordId { id, lex_type: LexType::User }, word_cost: 0, left_id: left, right_id: right }
}

#[test]
fn unknown_word_cost_by_category() {
    let config = config();
    assert_eq!(unknown_word_cost(&config, 0), 1500);
    assert_eq!(unknown_word_cost(&config, 1), FALLBACK_UNKNOWN_COST);
    assert_eq!(unknown_word_cost(&config, 2), 1200);
    assert_eq!(unknown_word_cost(&config, 9), 2000);
}

#[test]
fn default_features_follow_first_category() {
    assert_eq!(default_features(&config()), "*,*,*");
    let bare = TrainerConfig::from_readers("a,0,0,1,x,y\n", "", "", "", "").unwrap();
    assert_eq!(default_features(&bare), "*,*");
    let empty = TrainerConfig::from_readers("", "", "", "", "").unwrap();
    assert_eq!(default_features(&empty), "*");
}

#[test]
fn pos_info_of_lexicon_and_category_labels() {
    let config = config();
    let labels = strings(&["東京", "行く", "DEFAULT", "HIRAGANA", "KANJI"]);
    let info = pos_info(&config, &labels);
    assert_eq!(
        info,
        strings(&["名詞,固有名詞,地域", "動詞,自立,*", "名詞,一般,*", "名詞,一般,*", "名詞,漢字,*"])
    );
}

#[test]
fn feature_strings_of_feature_sets() {
    let config = config();
    // five labels: two lexicon entries, then the three categories
    assert_eq!(feature_string_of(&config, 5, 0), "名詞,固有名詞,地域");
    assert_eq!(feature_string_of(&config, 5, 2), "名詞,一般,*");
    assert_eq!(feature_string_of(&config, 5, 3), "UNK_HIRAGANA");
    assert_eq!(feature_string_of(&config, 5, 7), "UNK_5");
    assert_eq!(feature_string_of(&config, 6, 2), "*");
}

#[test]
fn id_feature_map_keeps_first_text_per_id() {
    let ids = [3u32, 1, 3, 2, 1];
    let feats = strings(&["a", "b", "c", "d", "e"]);
    let map = id_feature_map(&ids, &feats);
    assert_eq!(map, vec![(1, "b".to_string()), (2, "d".to_string()), (3, "a".to_string())]);
    assert!(id_feature_map(&[], &[]).is_empty());
}

#[test]
fn id_def_text_lists_ids() {
    let text = id_def_text(&[(1, "名詞,一般".to_string()), (12, "動詞".to_string())]);
    assert_eq!(text, "0 BOS/EOS\n1 名詞,一般\n12 動詞\n");
    assert_eq!(id_def_text(&[]), "0 BOS/EOS\n");
}

#[test]
fn infer_context_ids_prefers_best_feature_match() {
    let config = config();
    let entries = vec![entry(0, 10, 11), entry(1, 20, 21)];
    // matches the second lexicon entry best
    assert_eq!(infer_context_ids(&config, 2, &entries, "走る", "動詞,自立,*"), (20, 21));
    // matches the first
    assert_eq!(infer_context_ids(&config, 2, &entries, "大阪", "名詞,固有名詞,地域"), (10, 11));
}

#[test]
fn infer_context_ids_falls_back_to_category_then_first_entry() {
    let config = config();
    let entries = vec![entry(0, 10, 11)];
    // no feature matches: the kanji category (2) of the first character
    assert_eq!(infer_context_ids(&config, 2, &entries, "漢", "X,Y"), (2, 2));
    // no match and an empty surface: the first user entry
    assert_eq!(infer_context_ids(&config, 2, &entries, "", "X,Y"), (10, 11));
    assert_eq!(infer_context_ids(&config, 2, &[], "", "X,Y"), (0, 0));
    // a match past the user entries: the first user entry
    assert_eq!(infer_context_ids(&config, 2, &entries, "行く", "動詞,自立,*"), (10, 11));
}

#[test]
fn bigram_feature_lines_name_known_features() {
    let line = bigram_feature_line(0, &[Some(1), None, Some(9)], 'R', 3);
    assert_eq!(line, "1\t\"R1\",*,\"*\"\n");
    assert_eq!(bigram_feature_line(41, &[], 'L', 0), "42\t\n");
    assert_eq!(bigram_feature_line(1, &[Some(2)], 'L', 5), "2\t\"L2\"\n");
}

#[test]
fn user_lexicon_lines_parse_with_zero_fallbacks() {
    let (surface, e, features) = parse_user_lexicon_line("東京,1,2,-100,名詞,地名", 3).unwrap();
    assert_eq!(surface, "東京");
    assert_eq!(e, WordEntry { word_id: WordId { id: 3, lex_type: LexType::User }, word_cost: -100, left_id: 1, right_id: 2 });
    assert_eq!(features, "名詞,地名");
    let (_, e, _) = parse_user_lexicon_line("x,70000,abc,99999,f", 0).unwrap();
    assert_eq!((e.left_id, e.right_id, e.word_cost), (4464, 0, 0));
    assert!(parse_user_lexicon_line("# comment,1,2,3,4", 0).is_none());
    assert!(parse_user_lexicon_line("a,1,2,3", 0).is_none());
    assert!(parse_user_lexicon_line("   ", 0).is_none());
}

#[test]
fn category_ids_of_characters() {
    let config = config();
    assert_eq!(category_id_of(&config, '漢'), 2);
    assert_eq!(category_id_of(&config, 'あ'), 1);
    assert_eq!(category_id_of(&config, '!'), 0);
}

#[test]
fn id_maps_rewrite_the_first_feature_set_of_each_id() {
    let config = config();
    let rewriter = DictionaryRewriter::from_reader("[left rewrite]\n*,*\t$1\n[right rewrite]\n*,*\t$2\n");
    // five labels: sets 0 and 1 are lexicon entries, 2 to 4 the categories
    let sets = [(3, 1), (2, 1), (3, 2), (2, 4), (1, 4)];
    let (left, right) = id_maps(&config, 5, &sets, &rewriter);
    assert_eq!(
        left,
        vec![(1, "名詞".to_string()), (2, "動詞".to_string()), (3, "名詞".to_string())]
    );
    assert_eq!(
        right,
        vec![(1, "固有名詞".to_string()), (2, "一般".to_string()), (4, "UNK_HIRAGANA".to_string())]
    );
}
