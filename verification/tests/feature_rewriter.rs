use lindera_dictionary::trainer::feature_rewriter::{
    parse_pattern, DictionaryRewriter, FeatureRewriter, FeatureRewriterBuilder, Pattern,
};

fn strings(v: &[&str]) -> Vec<String> {
    v.iter().map(|s| s.to_string()).collect()
}

#[test]
fn test_dictionary_rewriter_three_sections() {
    let rewrite_def = "\
[unigram rewrite]
*,*,*,*,*,*\t$1,$2,$3,$4,$5,$6

[left rewrite]
*,*,*,*,*,*\t$1,$2

[right rewrite]
*,*,*,*,*,*\t$1,$2,$3
";
    let rewriter = DictionaryRewriter::from_reader(rewrite_def);

    let (u, l, r) = rewriter.rewrite("名詞,一般,*,*,*,*");
    assert_eq!(u, "名詞,一般,*,*,*,*");
    assert_eq!(l, "名詞,一般");
    assert_eq!(r, "名詞,一般,*");
}

#[test]
fn test_dictionary_rewriter_cached() {
    let rewrite_def = "\
[unigram rewrite]
*\t$1

[left rewrite]
*\t$1

[right rewrite]
*\t$1
";
    let mut rewriter = DictionaryRewriter::from_reader(rewrite_def);

    let result1 = rewriter.rewrite_cached("名詞");
    let result2 = rewriter.rewrite_cached("名詞");
    assert_eq!(result1, result2);
}

#[test]
fn test_dictionary_rewriter_empty() {
    let rewriter = DictionaryRewriter::new();
    let (u, l, r) = rewriter.rewrite("名詞,一般");
    assert_eq!(u, "名詞,一般");
    assert_eq!(l, "名詞,一般");
    assert_eq!(r, "名詞,一般");
}

#[test]
fn test_dictionary_rewriter_legacy_format() {
    let rewrite_def = "*,*,*,*\t$1,$2\n";
    let rewriter = DictionaryRewriter::from_reader(rewrite_def);

    let (u, l, r) = rewriter.rewrite("名詞,一般,*,*");
    assert_eq!(u, "名詞,一般,*,*");
    assert_eq!(l, "名詞,一般,*,*");
    assert_eq!(r, "名詞,一般");
}

#[test]
fn space_separated_rule_lines_are_read() {
    let rewriter = DictionaryRewriter::from_reader("[left rewrite]\n助詞,*   $1,X\n");
    let (u, l, r) = rewriter.rewrite("助詞,格助詞");
    assert_eq!(u, "助詞,格助詞");
    assert_eq!(l, "助詞,X");
    assert_eq!(r, "助詞,格助詞");
}

#[test]
fn cached_rewrites_match_uncached_ones() {
    let mut rewriter = DictionaryRewriter::from_reader("[unigram rewrite]\n(名詞|動詞),*\t$2\n");
    let plain = rewriter.rewrite("動詞,自立");
    assert_eq!(rewriter.rewrite_cached("動詞,自立"), plain);
    assert_eq!(rewriter.rewrite_cached("動詞,自立"), plain);
    assert_eq!(rewriter.cache.len(), 1);
    rewriter.clear_cache();
    assert!(rewriter.cache.is_empty());
    assert_eq!(plain.0, "自立");
}

#[test]
fn feature_rewriter_alternatives_and_references() {
    let rewriter = FeatureRewriter::from_reader("# comment\n(a|b),*\t$2,$1,lit\n\nc\t$3\n");
    assert_eq!(rewriter.rewrite(&strings(&["b", "x"])), Some(strings(&["x", "b", "lit"])));
    assert_eq!(rewriter.rewrite(&strings(&["c", "x"])), Some(strings(&[""])));
    assert_eq!(rewriter.rewrite(&strings(&["d", "x"])), None);
    assert_eq!(rewriter.rewrite(&strings(&[])), None);
}

#[test]
fn feature_rewriter_backtracks_to_later_branches() {
    let mut builder = FeatureRewriterBuilder::new();
    builder.add_rule(&strings(&["a", "x"]), &strings(&["first"]));
    builder.add_rule(&strings(&["*", "y"]), &strings(&["second"]));
    let rewriter = FeatureRewriter::from_builder(builder);
    // "a" matches the first branch but its subtree has no "y"; the search
    // goes back and takes the "*" branch.
    assert_eq!(rewriter.rewrite(&strings(&["a", "y"])), Some(strings(&["second"])));
    assert_eq!(rewriter.rewrite(&strings(&["a", "x"])), Some(strings(&["first"])));
}

#[test]
fn feature_rewriter_applies_the_earliest_registered_match() {
    let mut builder = FeatureRewriterBuilder::new();
    builder.add_rule(&strings(&["A", "C"]), &strings(&["R1"]));
    builder.add_rule(&strings(&["*", "B"]), &strings(&["R2"]));
    builder.add_rule(&strings(&["A", "B"]), &strings(&["R3"]));
    assert_eq!(builder.rules, 3);
    let rewriter = FeatureRewriter::from_builder(builder);
    // Both the second and the third rule match; the second was registered
    // first, though the third shares its first transition with the first.
    assert_eq!(rewriter.rewrite(&strings(&["A", "B"])), Some(strings(&["R2"])));
    assert_eq!(rewriter.rewrite(&strings(&["A", "C"])), Some(strings(&["R1"])));
    assert_eq!(rewriter.rewrite(&strings(&["Z", "B"])), Some(strings(&["R2"])));
    assert_eq!(rewriter.rewrite(&strings(&["A", "D"])), None);
}

#[test]
fn feature_rewriter_shares_prefixes() {
    let mut builder = FeatureRewriterBuilder::new();
    builder.add_rule(&strings(&["(p|q)", "x"]), &strings(&["1"]));
    builder.add_rule(&strings(&["(q|p)", "y"]), &strings(&["2"]));
    // The two alternatives are the same set, so the second rule reuses the
    // first transition: root, one shared node, and one node per second element.
    assert_eq!(builder.nodes.len(), 4);
    let rewriter = FeatureRewriter::from_builder(builder);
    assert_eq!(rewriter.rewrite(&strings(&["q", "y"])), Some(strings(&["2"])));
}

#[test]
fn pattern_texts_are_parsed() {
    assert!(matches!(parse_pattern("*"), Pattern::Any));
    assert!(matches!(parse_pattern("名詞"), Pattern::Exact(s) if s == "名詞"));
    match parse_pattern("(A|B|)") {
        Pattern::Multiple(v) => assert_eq!(v, strings(&["A", "B", ""])),
        _ => panic!("expected alternatives"),
    }
    assert!(matches!(parse_pattern("("), Pattern::Exact(_)));
}
