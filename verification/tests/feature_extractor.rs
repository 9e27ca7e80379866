use lindera_dictionary::trainer::feature_extractor::{
    apply_parsed_template, parse_template, FeatureExtractor, FeatureType,
};

fn strings(v: &[&str]) -> Vec<String> {
    v.iter().map(|s| s.to_string()).collect()
}

#[test]
fn templates_are_parsed_left_to_right() {
    let p = parse_template("%F[0]/%F?[12]/%t/%x/%F[a]", 'F', true);
    assert_eq!(p.captures.len(), 3);
    assert_eq!((p.captures[0].start, p.captures[0].end), (0, 5));
    assert!(matches!(p.captures[0].feature_type, FeatureType::Index(0)));
    assert!(matches!(p.captures[1].feature_type, FeatureType::Index(12)));
    assert!(p.captures[1].required);
    assert!(matches!(p.captures[2].feature_type, FeatureType::CharacterType));
    assert_eq!(p.required_indices, vec![12]);
}

#[test]
fn bigram_templates_do_not_know_the_category_placeholder() {
    let p = parse_template("%L[1]%t", 'L', false);
    assert_eq!(p.captures.len(), 1);
}

#[test]
fn placeholders_are_replaced() {
    let p = parse_template("U:%F[0]-%F[5]-%t", 'F', true);
    let out = apply_parsed_template(&p, &strings(&["名詞", "一般"]), 7);
    assert_eq!(out, Some("U:名詞-*-7".to_string()));
}

#[test]
fn undefined_required_features_skip_the_template() {
    let p = parse_template("%F?[1]", 'F', true);
    assert_eq!(apply_parsed_template(&p, &strings(&["a", "*"]), 0), None);
    assert_eq!(apply_parsed_template(&p, &strings(&["a", ""]), 0), None);
    assert_eq!(apply_parsed_template(&p, &strings(&["a"]), 0), None);
    assert_eq!(apply_parsed_template(&p, &strings(&["a", "b"]), 0), Some("b".to_string()));
}

#[test]
fn feature_ids_start_at_one_and_are_reused() {
    let mut fe = FeatureExtractor::from_templates(
        &strings(&["%F[0]", "%F?[1]", "%F[0]"]),
        &[("%L[0]".to_string(), "%R?[1]".to_string())],
    );
    let ids = fe.extract_unigram_feature_ids(&strings(&["名詞", "*"]), 0);
    // The second template is skipped; the third gives the same string as the first.
    assert_eq!(ids, vec![1, 1]);
    let ids = fe.extract_unigram_feature_ids(&strings(&["動詞", "自立"]), 0);
    assert_eq!(ids, vec![2, 3, 2]);
    assert_eq!(fe.unigram_feature_ids.len(), 3);
    assert_eq!(fe.unigram_feature_ids.get("名詞"), Some(1));

    assert_eq!(fe.extract_left_feature_ids(&strings(&["名詞", "*"])), vec![Some(1)]);
    assert_eq!(fe.extract_right_feature_ids(&strings(&["名詞", "*"])), vec![None]);
    assert_eq!(fe.extract_right_feature_ids(&strings(&["名詞", "一般"])), vec![Some(1)]);
    assert_eq!(fe.right_next_id, 2);
}

#[test]
fn an_empty_extractor_extracts_nothing() {
    let mut fe = FeatureExtractor::new();
    assert!(fe.extract_unigram_feature_ids(&strings(&["a"]), 0).is_empty());
    assert!(fe.extract_left_feature_ids(&strings(&["a"])).is_empty());
}
