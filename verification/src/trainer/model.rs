//! The parts of writing a trained model out as dictionary sources that do
//! not depend on its weights: the features of each label, unknown-word
//! costs, the context-id definition files and the feature text of each
//! feature set.
use vstd::prelude::*;

use crate::text::{decimal_spec, decimal_text, join_spec, join_with, split_on, split_seq, string_from_chars, views_of};
use crate::dictionary::character_definition::CategoryId;
use crate::trainer::config::{
    costs_view, get_cost_entry, get_text_entry, keys_unique, map_of, pairs_view, TrainerConfig,
};
use crate::trainer::feature_rewriter::DictionaryRewriter;

verus! {

/// The cost of an unknown-word category that `unk.def` gives none.
pub const FALLBACK_UNKNOWN_COST: i32 = 2000;

/// The cost of unknown-word category `category`: its cost in `unk.def`, or
/// the fallback when the category does not exist or has none.
pub open spec fn unknown_cost_spec(names: Seq<Seq<char>>, costs: Map<Seq<char>, int>, category: int) -> int {
    if 0 <= category < names.len() && costs.dom().contains(names[category]) {
        costs[names[category]]
    } else {
        FALLBACK_UNKNOWN_COST as int
    }
}

/// The cost of unknown-word category `category`; see [`unknown_cost_spec`].
pub fn unknown_word_cost(config: &TrainerConfig, category: usize) -> (r: i32)
    requires
        config.wf(),
    ensures
        r == unknown_cost_spec(
            views_of(config.dict.character_definition.category_names@),
            map_of(costs_view(config.unk_costs@)),
            category as int,
        ),
{
    let names = config.dict.character_definition.categories();
    if category < names.len() {
        proof {
            assert(views_of(names@)[category as int] == names@[category as int]@);
        }
        match get_cost_entry(&config.unk_costs, names[category].as_str()) {
            Some(c) => c,
            None => FALLBACK_UNKNOWN_COST,
        }
    } else {
        FALLBACK_UNKNOWN_COST
    }
}

/// `n` asterisks separated by commas.
pub open spec fn stars_spec(n: nat) -> Seq<char> {
    join_spec(Seq::new(n, |i: int| seq!['*']), ',')
}

/// `n` asterisks separated by commas.
fn stars(n: usize) -> (r: String)
    ensures
        r@ == stars_spec(n as nat),
{
    let mut parts: Vec<String> = Vec::new();
    let mut i: usize = 0;
    while i < n
        invariant
            i <= n,
            views_of(parts@) == Seq::new(i as nat, |k: int| seq!['*']),
        decreases n - i,
    {
        let star = "*".to_owned();
        proof {
            reveal_strlit("*");
            assert(star@ =~= seq!['*']);
        }
        let ghost before = parts@;
        parts.push(star);
        assert(views_of(parts@) =~= Seq::new((i + 1) as nat, |k: int| seq!['*'])) by {
            assert(views_of(parts@) =~= views_of(before).push(seq!['*']));
        }
        i += 1;
    }
    join_with(parts.as_slice(), ',')
}

/// The features of a label that neither the lexicon nor `unk.def` gives:
/// as many `*` fields as the first unknown-word category has, else as the
/// first lexicon entry has, else one.
pub open spec fn default_features_spec(unk: Seq<(Seq<char>, Seq<char>)>, features: Seq<Seq<char>>) -> Seq<char> {
    if unk.len() > 0 {
        stars_spec(split_seq(unk[0].1, ',').len())
    } else if features.len() > 0 {
        stars_spec(split_seq(features[0], ',').len())
    } else {
        stars_spec(1)
    }
}

/// The features of a label that neither the lexicon nor `unk.def` gives;
/// see [`default_features_spec`].
pub fn default_features(config: &TrainerConfig) -> (r: String)
    ensures
        r@ == default_features_spec(pairs_view(config.unk_categories@), views_of(config.features@)),
{
    if config.unk_categories.len() > 0 {
        let parts = split_on(config.unk_categories[0].1.as_str(), ',');
        proof {
            assert(pairs_view(config.unk_categories@)[0].1 == config.unk_categories@[0].1@);
        }
        stars(parts.len())
    } else if config.features.len() > 0 {
        let parts = split_on(config.features[0].as_str(), ',');
        proof {
            assert(views_of(config.features@)[0] == config.features@[0]@);
        }
        stars(parts.len())
    } else {
        stars(1)
    }
}

/// The features of label `i`: a lexicon label has its entry's features; a
/// category label has the features `unk.def` gives it, else those of
/// `DEFAULT`, else the default features.
pub open spec fn pos_of_spec(
    labels: Seq<Seq<char>>,
    features: Seq<Seq<char>>,
    unk: Seq<(Seq<char>, Seq<char>)>,
    i: int,
) -> Seq<char> {
    if i < features.len() {
        features[i]
    } else if map_of(unk).dom().contains(labels[i]) {
        map_of(unk)[labels[i]]
    } else if map_of(unk).dom().contains("DEFAULT"@) {
        map_of(unk)["DEFAULT"@]
    } else {
        default_features_spec(unk, features)
    }
}

/// The features of each label, in order; see [`pos_of_spec`].
pub fn pos_info(config: &TrainerConfig, labels: &[String]) -> (r: Vec<String>)
    requires
        config.wf(),
    ensures
        r@.len() == labels@.len(),
        forall|i: int|
            0 <= i < labels@.len() ==> (#[trigger] r@[i])@ == pos_of_spec(
                views_of(labels@),
                views_of(config.features@),
                pairs_view(config.unk_categories@),
                i,
            ),
{
    let mut out: Vec<String> = Vec::new();
    let mut i: usize = 0;
    while i < labels.len()
        invariant
            config.wf(),
            i <= labels@.len(),
            out@.len() == i,
            forall|k: int|
                0 <= k < i ==> (#[trigger] out@[k])@ == pos_of_spec(
                    views_of(labels@),
                    views_of(config.features@),
                    pairs_view(config.unk_categories@),
                    k,
                ),
        decreases labels@.len() - i,
    {
        proof {
            assert(views_of(labels@)[i as int] == labels@[i as int]@);
        }
        let info = if i < config.features.len() {
            proof {
                assert(views_of(config.features@)[i as int] == config.features@[i as int]@);
            }
            config.features[i].clone()
        } else {
            match get_text_entry(&config.unk_categories, labels[i].as_str()) {
                Some(f) => f,
                None => {
                    let default_label = "DEFAULT";
                    proof {
                        reveal_strlit("DEFAULT");
                    }
                    match get_text_entry(&config.unk_categories, default_label) {
                        Some(f) => f,
                        None => default_features(config),
                    }
                },
            }
        };
        out.push(info);
        i += 1;
    }
    out
}


/// Where the labels of unknown-word categories start: after all but the
/// last `category_count` labels.
pub open spec fn unk_start_spec(labels_len: int, category_count: int) -> int {
    if labels_len >= category_count {
        labels_len - category_count
    } else {
        0
    }
}

/// The feature text of feature set `i`: a lexicon entry's features (`*`
/// past the lexicon), or the features `unk.def` gives the category, else
/// `UNK_` and the category's name (or its number past the categories).
pub open spec fn feature_string_spec(
    features: Seq<Seq<char>>,
    unk: Seq<(Seq<char>, Seq<char>)>,
    names: Seq<Seq<char>>,
    unk_start: int,
    i: int,
) -> Seq<char> {
    if i < unk_start {
        if i < features.len() {
            features[i]
        } else {
            "*"@
        }
    } else {
        let c = i - unk_start;
        if c < names.len() {
            if map_of(unk).dom().contains(names[c]) {
                map_of(unk)[names[c]]
            } else {
                "UNK_"@ + names[c]
            }
        } else {
            "UNK_"@ + decimal_spec(c as nat)
        }
    }
}

/// `UNK_` followed by `tail`.
fn unk_text(tail: &str) -> (r: String)
    ensures
        r@ == "UNK_"@ + tail@,
{
    let mut cs: Vec<char> = Vec::new();
    cs.push('U');
    cs.push('N');
    cs.push('K');
    cs.push('_');
    let t = crate::text::chars_of(tail);
    let mut k: usize = 0;
    while k < t.len()
        invariant
            k <= t@.len(),
            cs@ == seq!['U', 'N', 'K', '_'] + t@.take(k as int),
        decreases t@.len() - k,
    {
        cs.push(t[k]);
        k += 1;
        assert(cs@ =~= seq!['U', 'N', 'K', '_'] + t@.take(k as int));
    }
    proof {
        reveal_strlit("UNK_");
        assert(t@.take(t@.len() as int) =~= t@);
        assert(cs@ =~= "UNK_"@ + tail@);
    }
    string_from_chars(cs.as_slice())
}

/// The feature text of feature set `i` of a model with `labels_len` labels;
/// see [`feature_string_spec`].
pub fn feature_string_of(config: &TrainerConfig, labels_len: usize, i: usize) -> (r: String)
    requires
        config.wf(),
    ensures
        r@ == feature_string_spec(
            views_of(config.features@),
            pairs_view(config.unk_categories@),
            views_of(config.dict.character_definition.category_names@),
            unk_start_spec(labels_len as int, config.dict.character_definition.category_names@.len() as int),
            i as int,
        ),
{
    let names = config.dict.character_definition.categories();
    let unk_start = if labels_len >= names.len() {
        labels_len - names.len()
    } else {
        0
    };
    if i < unk_start {
        if i < config.features.len() {
            proof {
                assert(views_of(config.features@)[i as int] == config.features@[i as int]@);
            }
            config.features[i].clone()
        } else {
            proof {
                reveal_strlit("*");
            }
            "*".to_owned()
        }
    } else {
        let c = i - unk_start;
        if c < names.len() {
            proof {
                assert(views_of(names@)[c as int] == names@[c as int]@);
            }
            match get_text_entry(&config.unk_categories, names[c].as_str()) {
                Some(f) => f,
                None => unk_text(names[c].as_str()),
            }
        } else {
            let n = decimal_text(c);
            unk_text(n.as_str())
        }
    }
}

/// Whether position `k` holds the first occurrence of its id.
pub open spec fn first_occurrence(ids: Seq<u32>, k: int) -> bool {
    &&& 0 <= k < ids.len()
    &&& forall|m: int| 0 <= m < k ==> ids[m] != ids[k]
}

/// Whether `r` lists each id of the first `j` of `ids` once, in ascending
/// order, with the text of the id's first occurrence: entry `t` comes from
/// position `src[t]`, and the id at position `k` is listed at `pos[k]`.
pub open spec fn id_map_upto(
    ids: Seq<u32>,
    feats: Seq<Seq<char>>,
    j: int,
    r: Seq<(u32, Seq<char>)>,
    src: Seq<int>,
    pos: Seq<int>,
) -> bool {
    &&& forall|a: int, b: int| 0 <= a < b < r.len() ==> r[a].0 < r[b].0
    &&& src.len() == r.len()
    &&& forall|t: int|
        0 <= t < r.len() ==> 0 <= #[trigger] src[t] < j && first_occurrence(ids, src[t]) && ids[src[t]] == r[t].0
            && r[t].1 == feats[src[t]]
    &&& pos.len() == j
    &&& forall|k: int| 0 <= k < j ==> 0 <= #[trigger] pos[k] < r.len() && r[pos[k]].0 == ids[k]
}

/// Whether `r` lists each id of `ids` once, in ascending order, with the
/// text of the id's first occurrence.
pub open spec fn id_feature_map_of(ids: Seq<u32>, feats: Seq<Seq<char>>, r: Seq<(u32, Seq<char>)>) -> bool {
    exists|src: Seq<int>, pos: Seq<int>| id_map_upto(ids, feats, ids.len() as int, r, src, pos)
}

/// Id-text pairs as values.
pub open spec fn id_pairs_view(v: Seq<(u32, String)>) -> Seq<(u32, Seq<char>)> {
    v.map_values(|p: (u32, String)| (p.0, p.1@))
}

proof fn lemma_map_insert(
    ids: Seq<u32>,
    feats: Seq<Seq<char>>,
    j: int,
    before: Seq<(u32, Seq<char>)>,
    src: Seq<int>,
    pos: Seq<int>,
    p: int,
) -> (w: (Seq<int>, Seq<int>))
    requires
        0 <= j < ids.len(),
        j < feats.len(),
        id_map_upto(ids, feats, j, before, src, pos),
        0 <= p <= before.len(),
        forall|a: int| 0 <= a < p ==> (#[trigger] before[a]).0 < ids[j],
        p < before.len() ==> before[p].0 > ids[j],
    ensures
        id_map_upto(ids, feats, j + 1, before.insert(p, (ids[j], feats[j])), w.0, w.1),
{
    let id = ids[j];
    let after = before.insert(p, (id, feats[j]));
    assert forall|m: int| 0 <= m < j implies ids[m] != id by {
        let t = pos[m];
        if t > p {
            assert(before[p].0 < before[t].0);
        }
    }
    assert(first_occurrence(ids, j));
    let src2 = src.insert(p, j);
    let pos2 = Seq::new((j + 1) as nat, |k: int| if k == j { p } else if pos[k] < p { pos[k] } else { pos[k] + 1 });
    assert forall|a: int, b: int| 0 <= a < b < after.len() implies after[a].0 < after[b].0 by {
        if b < p {
            assert(after[a] == before[a] && after[b] == before[b]);
        } else if b == p {
            assert(after[a] == before[a]);
        } else if a < p {
            assert(after[a] == before[a] && after[b] == before[b - 1]);
            if b - 1 > p {
                assert(before[p].0 < before[b - 1].0);
            }
        } else if a == p {
            assert(after[b] == before[b - 1]);
            if b - 1 > p {
                assert(before[p].0 < before[b - 1].0);
            }
        } else {
            assert(after[a] == before[a - 1] && after[b] == before[b - 1]);
        }
    }
    assert forall|t: int| 0 <= t < after.len() implies 0 <= #[trigger] src2[t] < j + 1 && first_occurrence(
        ids,
        src2[t],
    ) && ids[src2[t]] == after[t].0 && after[t].1 == feats[src2[t]] by {
        if t < p {
            assert(src2[t] == src[t] && after[t] == before[t]);
        } else if t > p {
            assert(src2[t] == src[t - 1] && after[t] == before[t - 1]);
        }
    }
    assert forall|k: int| 0 <= k < j + 1 implies 0 <= #[trigger] pos2[k] < after.len() && after[pos2[k]].0
        == ids[k] by {
        if k < j {
            if pos[k] < p {
                assert(after[pos[k]] == before[pos[k]]);
            } else {
                assert(after[pos[k] + 1] == before[pos[k]]);
            }
        }
    }
    (src2, pos2)
}

/// The context ids of the feature sets with the feature text of the first
/// feature set that has each, in ascending order of id.
pub fn id_feature_map(ids: &[u32], feats: &[String]) -> (r: Vec<(u32, String)>)
    requires
        ids@.len() == feats@.len(),
    ensures
        id_feature_map_of(ids@, views_of(feats@), id_pairs_view(r@)),
{
    let mut out: Vec<(u32, String)> = Vec::new();
    let mut j: usize = 0;
    let ghost mut src: Seq<int> = Seq::empty();
    let ghost mut pos: Seq<int> = Seq::empty();
    assert(id_pairs_view(out@) =~= Seq::<(u32, Seq<char>)>::empty());
    while j < ids.len()
        invariant
            ids@.len() == feats@.len(),
            j <= ids@.len(),
            id_map_upto(ids@, views_of(feats@), j as int, id_pairs_view(out@), src, pos),
        decreases ids@.len() - j,
    {
        let id = ids[j];
        let ghost before = id_pairs_view(out@);
        let mut p: usize = 0;
        while p < out.len() && out[p].0 < id
            invariant
                p <= out@.len(),
                id_pairs_view(out@) == before,
                forall|a: int| 0 <= a < p ==> (#[trigger] before[a]).0 < id,
            decreases out@.len() - p,
        {
            p += 1;
        }
        if p < out.len() && out[p].0 == id {
            proof {
                pos = pos.push(p as int);
                assert(before[p as int].0 == id);
            }
        } else {
            let text = feats[j].clone();
            proof {
                assert(views_of(feats@)[j as int] == feats@[j as int]@);
                if p < before.len() {
                    assert(before[p as int].0 >= id);
                }
                let w = lemma_map_insert(ids@, views_of(feats@), j as int, before, src, pos, p as int);
                src = w.0;
                pos = w.1;
            }
            out.insert(p, (id, text));
            assert(id_pairs_view(out@) =~= before.insert(p as int, (id, views_of(feats@)[j as int])));
        }
        j += 1;
    }
    proof {
        assert(id_map_upto(ids@, views_of(feats@), ids@.len() as int, id_pairs_view(out@), src, pos));
    }
    out
}

/// The feature text of feature set `i` of a model with `labels_len` labels.
pub open spec fn set_feature_spec(config: TrainerConfig, labels_len: int, i: int) -> Seq<char> {
    feature_string_spec(
        views_of(config.features@),
        pairs_view(config.unk_categories@),
        views_of(config.dict.character_definition.category_names@),
        unk_start_spec(labels_len, config.dict.character_definition.category_names@.len() as int),
        i,
    )
}

/// The left context ids of the feature sets.
pub open spec fn left_ids_of(sets: Seq<(u32, u32)>) -> Seq<u32> {
    sets.map_values(|s: (u32, u32)| s.0)
}

/// The right context ids of the feature sets.
pub open spec fn right_ids_of(sets: Seq<(u32, u32)>) -> Seq<u32> {
    sets.map_values(|s: (u32, u32)| s.1)
}

/// The left (`side` 1) or right (`side` 2) rewrites of the feature texts
/// of the first `n` feature sets.
pub open spec fn rewritten_features(
    config: TrainerConfig,
    rewriter: DictionaryRewriter,
    labels_len: int,
    n: int,
    side: int,
) -> Seq<Seq<char>> {
    Seq::new(
        n as nat,
        |k: int|
            {
                let t = rewriter.rewrite3(set_feature_spec(config, labels_len, k));
                if side == 1 {
                    t.1
                } else {
                    t.2
                }
            },
    )
}

/// The left and right context-id maps of a trained model whose feature sets
/// have the `(left id, right id)` pairs `sets`: each lists the ids once, in
/// ascending order, with the left (or right) rewrite of the feature text of
/// the first feature set that has the id.
pub fn id_maps(config: &TrainerConfig, labels_len: usize, sets: &[(u32, u32)], rewriter: &DictionaryRewriter) -> (r: (
    Vec<(u32, String)>,
    Vec<(u32, String)>,
))
    requires
        config.wf(),
        rewriter.wf(),
    ensures
        id_feature_map_of(
            left_ids_of(sets@),
            rewritten_features(*config, *rewriter, labels_len as int, sets@.len() as int, 1),
            id_pairs_view(r.0@),
        ),
        id_feature_map_of(
            right_ids_of(sets@),
            rewritten_features(*config, *rewriter, labels_len as int, sets@.len() as int, 2),
            id_pairs_view(r.1@),
        ),
{
    let mut lids: Vec<u32> = Vec::new();
    let mut rids: Vec<u32> = Vec::new();
    let mut lfeats: Vec<String> = Vec::new();
    let mut rfeats: Vec<String> = Vec::new();
    let mut i: usize = 0;
    while i < sets.len()
        invariant
            config.wf(),
            rewriter.wf(),
            i <= sets@.len(),
            lids@ == left_ids_of(sets@).take(i as int),
            rids@ == right_ids_of(sets@).take(i as int),
            views_of(lfeats@) == rewritten_features(*config, *rewriter, labels_len as int, i as int, 1),
            views_of(rfeats@) == rewritten_features(*config, *rewriter, labels_len as int, i as int, 2),
        decreases sets@.len() - i,
    {
        let feat = feature_string_of(config, labels_len, i);
        let (_, l, r) = rewriter.rewrite(feat.as_str());
        let ghost lf0 = lfeats@;
        let ghost rf0 = rfeats@;
        lids.push(sets[i].0);
        rids.push(sets[i].1);
        lfeats.push(l);
        rfeats.push(r);
        proof {
            assert(lids@ =~= left_ids_of(sets@).take(i + 1));
            assert(rids@ =~= right_ids_of(sets@).take(i + 1));
            assert(views_of(lfeats@) =~= rewritten_features(*config, *rewriter, labels_len as int, i + 1, 1)) by {
                assert(views_of(lfeats@) =~= views_of(lf0).push(l@));
            }
            assert(views_of(rfeats@) =~= rewritten_features(*config, *rewriter, labels_len as int, i + 1, 2)) by {
                assert(views_of(rfeats@) =~= views_of(rf0).push(r@));
            }
        }
        i += 1;
    }
    assert(left_ids_of(sets@).take(sets@.len() as int) =~= left_ids_of(sets@));
    assert(right_ids_of(sets@).take(sets@.len() as int) =~= right_ids_of(sets@));
    let left = id_feature_map(lids.as_slice(), lfeats.as_slice());
    let right = id_feature_map(rids.as_slice(), rfeats.as_slice());
    (left, right)
}

/// The text of a context-id definition file: `0 BOS/EOS`, then one line per
/// entry with its id and its feature text.
pub open spec fn id_def_spec(entries: Seq<(u32, Seq<char>)>) -> Seq<char>
    decreases entries.len(),
{
    if entries.len() == 0 {
        "0 BOS/EOS\n"@
    } else {
        id_def_spec(entries.drop_last()) + decimal_spec(entries.last().0 as nat) + seq![' '] + entries.last().1
            + seq!['\n']
    }
}

/// The text of a context-id definition file; see [`id_def_spec`].
pub fn id_def_text(entries: &[(u32, String)]) -> (r: String)
    ensures
        r@ == id_def_spec(id_pairs_view(entries@)),
{
    let head = "0 BOS/EOS\n";
    proof {
        reveal_strlit("0 BOS/EOS\n");
    }
    let mut cs: Vec<char> = crate::text::chars_of(head);
    let ghost es = id_pairs_view(entries@);
    let mut i: usize = 0;
    assert(es.take(0) =~= Seq::<(u32, Seq<char>)>::empty());
    while i < entries.len()
        invariant
            es == id_pairs_view(entries@),
            i <= entries@.len(),
            cs@ == id_def_spec(es.take(i as int)),
        decreases entries@.len() - i,
    {
        let ghost t = es.take(i + 1);
        assert(t.drop_last() =~= es.take(i as int));
        let id_text = crate::text::chars_of(decimal_text(entries[i].0 as usize).as_str());
        let feat = crate::text::chars_of(entries[i].1.as_str());
        let ghost c0 = cs@;
        let mut k: usize = 0;
        while k < id_text.len()
            invariant
                k <= id_text@.len(),
                cs@ == c0 + id_text@.take(k as int),
            decreases id_text@.len() - k,
        {
            cs.push(id_text[k]);
            k += 1;
            assert(cs@ =~= c0 + id_text@.take(k as int));
        }
        cs.push(' ');
        let ghost c1 = cs@;
        let mut k: usize = 0;
        while k < feat.len()
            invariant
                k <= feat@.len(),
                cs@ == c1 + feat@.take(k as int),
            decreases feat@.len() - k,
        {
            cs.push(feat[k]);
            k += 1;
            assert(cs@ =~= c1 + feat@.take(k as int));
        }
        cs.push('\n');
        proof {
            assert(id_text@.take(id_text@.len() as int) =~= id_text@);
            assert(feat@.take(feat@.len() as int) =~= feat@);
            assert(t.last() == (entries@[i as int].0, entries@[i as int].1@));
            assert(cs@ =~= id_def_spec(t));
        }
        i += 1;
    }
    assert(es.take(entries@.len() as int) =~= es);
    string_from_chars(cs.as_slice())
}

/// The similarity of two feature lists: over their common length `m`,
/// field `j` adds `(m - j) * 10` when both have the same text there.
pub open spec fn score_from(f: Seq<Seq<char>>, v: Seq<Seq<char>>, j: int, m: int) -> int
    decreases m - j,
{
    if j >= m {
        0
    } else {
        (if f[j] == v[j] {
            (m - j) * 10
        } else {
            0
        }) + score_from(f, v, j + 1, m)
    }
}

/// The common length of two feature lists.
pub open spec fn common_len(f: Seq<Seq<char>>, v: Seq<Seq<char>>) -> int {
    if f.len() <= v.len() {
        f.len() as int
    } else {
        v.len() as int
    }
}

/// The similarity of the features `f` to lexicon features `v`.
pub open spec fn score_spec(f: Seq<Seq<char>>, v: Seq<Seq<char>>) -> int {
    score_from(f, v, 0, common_len(f, v))
}

/// The best match among the first `n` lexicon entries: the first with the
/// highest positive similarity, and that similarity (0 when none matches).
pub open spec fn best_match(f: Seq<Seq<char>>, vocab: Seq<Seq<char>>, n: int) -> (Option<int>, int)
    decreases n,
{
    if n <= 0 {
        (None, 0)
    } else {
        let (b, s) = best_match(f, vocab, n - 1);
        let sc = score_spec(f, split_seq(vocab[n - 1], ','));
        if sc > s {
            (Some(n - 1), sc)
        } else {
            (b, s)
        }
    }
}

/// The context ids a user lexicon entry with `surface` and feature text
/// `features` gets: those of the user entry at the position of the best
/// matching lexicon entry; without a match, the first category of the
/// surface's first character (as both ids); else those of the first user
/// entry, else 0 and 0.
pub open spec fn infer_spec(
    vocab: Seq<Seq<char>>,
    labels_len: int,
    entries: Seq<crate::viterbi::WordEntry>,
    cats_of_first: Option<Seq<CategoryId>>,
    features: Seq<char>,
) -> (u32, u32) {
    let n = if labels_len <= vocab.len() {
        labels_len
    } else {
        vocab.len() as int
    };
    let (best, score) = best_match(split_seq(features, ','), vocab, n);
    if best is Some && best->0 < entries.len() {
        (entries[best->0].left_id as u32, entries[best->0].right_id as u32)
    } else if score == 0 && cats_of_first is Some && cats_of_first->0.len() > 0 {
        (cats_of_first->0[0].0 as u32, cats_of_first->0[0].0 as u32)
    } else if entries.len() > 0 {
        (entries[0].left_id as u32, entries[0].right_id as u32)
    } else {
        (0, 0)
    }
}

proof fn lemma_score_bound(f: Seq<Seq<char>>, v: Seq<Seq<char>>, j: int, m: int)
    requires
        0 <= j <= m,
    ensures
        0 <= score_from(f, v, j, m) <= 5 * (m - j) * (m - j + 1),
    decreases m - j,
{
    if j < m {
        lemma_score_bound(f, v, j + 1, m);
        assert(5 * (m - j - 1) * (m - j) + 10 * (m - j) == 5 * (m - j) * (m - j + 1)) by (nonlinear_arith);
    }
}

/// The similarity of `f` to `v`; see [`score_spec`].
fn similarity(f: &Vec<String>, v: &Vec<String>) -> (r: u64)
    requires
        5 * f@.len() * (f@.len() + 1) <= u64::MAX,
    ensures
        r == score_spec(views_of(f@), views_of(v@)),
{
    let m = if f.len() <= v.len() {
        f.len()
    } else {
        v.len()
    };
    let ghost fv = views_of(f@);
    let ghost vv = views_of(v@);
    proof {
        lemma_score_bound(fv, vv, 0, m as int);
        assert(5 * m * (m + 1) <= 5 * f@.len() * (f@.len() + 1)) by (nonlinear_arith)
            requires
                m <= f@.len(),
        ;
    }
    let mut score: u64 = 0;
    let mut j: usize = m;
    while j > 0
        invariant
            j <= m,
            m <= f@.len() && m <= v@.len(),
            m == common_len(fv, vv),
            fv == views_of(f@),
            vv == views_of(v@),
            score == score_from(fv, vv, j as int, m as int),
            5 * m * (m + 1) <= u64::MAX,
        decreases j,
    {
        j -= 1;
        proof {
            lemma_score_bound(fv, vv, j as int, m as int);
            assert(5 * (m - j) * (m - j + 1) <= 5 * m * (m + 1)) by (nonlinear_arith)
                requires
                    j <= m,
            ;
            assert(fv[j as int] == f@[j as int]@ && vv[j as int] == v@[j as int]@);
        }
        if crate::text::str_eq(f[j].as_str(), v[j].as_str()) {
            score = score + ((m - j) as u64) * 10;
        }
    }
    score
}

/// The context ids a user lexicon entry gets; see [`infer_spec`]. The user
/// entries are those read so far, in order.
pub fn infer_context_ids(
    config: &TrainerConfig,
    labels_len: usize,
    user_entries: &[crate::viterbi::WordEntry],
    surface: &str,
    features: &str,
) -> (r: (u32, u32))
    requires
        config.dict.character_definition.wf(),
        5 * split_seq(features@, ',').len() * (split_seq(features@, ',').len() + 1) <= u64::MAX,
    ensures
        r == infer_spec(
            views_of(config.features@),
            labels_len as int,
            user_entries@,
            if surface@.len() > 0 {
                Some(config.dict.character_definition.categories_of(surface@[0] as u32))
            } else {
                None
            },
            features@,
        ),
{
    let parts = split_on(features, ',');
    let n = if labels_len <= config.features.len() {
        labels_len
    } else {
        config.features.len()
    };
    let ghost fv = views_of(parts@);
    let ghost vocab = views_of(config.features@);
    let mut best: Option<usize> = None;
    let mut best_score: u64 = 0;
    let mut i: usize = 0;
    while i < n
        invariant
            i <= n,
            n <= config.features@.len(),
            fv == views_of(parts@),
            fv == split_seq(features@, ','),
            vocab == views_of(config.features@),
            5 * parts@.len() * (parts@.len() + 1) <= u64::MAX,
            (match best {
                Some(b) => Some(b as int),
                None => None,
            }, best_score as int) == best_match(fv, vocab, i as int),
        decreases n - i,
    {
        let vparts = split_on(config.features[i].as_str(), ',');
        proof {
            assert(vocab[i as int] == config.features@[i as int]@);
        }
        let sc = similarity(&parts, &vparts);
        if sc > best_score {
            best = Some(i);
            best_score = sc;
        }
        i += 1;
    }
    if let Some(b) = best {
        if b < user_entries.len() {
            return (user_entries[b].left_id as u32, user_entries[b].right_id as u32);
        }
    }
    if best_score == 0 {
        let cs = crate::text::chars_of(surface);
        if cs.len() > 0 {
            let cats = config.dict.character_definition.lookup_categories(cs[0]);
            if cats.len() > 0 {
                let c = cats[0].0 as u32;
                return (c, c);
            }
        }
    }
    if user_entries.len() > 0 {
        (user_entries[0].left_id as u32, user_entries[0].right_id as u32)
    } else {
        (0, 0)
    }
}

/// The text of one feature of a connection id's line: the quoted feature
/// name (`letter` and the number) when the feature exists among `count`,
/// a quoted `*` when it does not, and a bare `*` when there is none.
pub open spec fn bigram_feature_spec(feat: Option<u32>, letter: char, count: int) -> Seq<char> {
    match feat {
        Some(id) => if id < count {
            seq!['"', letter] + decimal_spec(id as nat) + seq!['"']
        } else {
            seq!['"', '*', '"']
        },
        None => seq!['*'],
    }
}

/// The features of a connection id's line, comma-separated.
pub open spec fn bigram_features_spec(feats: Seq<Option<u32>>, letter: char, count: int) -> Seq<char>
    decreases feats.len(),
{
    if feats.len() == 0 {
        Seq::empty()
    } else if feats.len() == 1 {
        bigram_feature_spec(feats[0], letter, count)
    } else {
        bigram_features_spec(feats.drop_last(), letter, count) + seq![','] + bigram_feature_spec(
            feats.last(),
            letter,
            count,
        )
    }
}

/// The line of connection id `conn_index + 1` in a bigram feature file:
/// the id, a tab, its features, and a line break.
pub open spec fn bigram_line_spec(conn_index: nat, feats: Seq<Option<u32>>, letter: char, count: int) -> Seq<char> {
    decimal_spec(conn_index + 1) + seq!['\t'] + bigram_features_spec(feats, letter, count) + seq!['\n']
}

fn push_all(cs: &mut Vec<char>, tail: &Vec<char>)
    ensures
        final(cs)@ == old(cs)@ + tail@,
{
    let ghost c0 = cs@;
    let mut k: usize = 0;
    while k < tail.len()
        invariant
            k <= tail@.len(),
            cs@ == c0 + tail@.take(k as int),
        decreases tail@.len() - k,
    {
        cs.push(tail[k]);
        k += 1;
        assert(cs@ =~= c0 + tail@.take(k as int));
    }
    assert(tail@.take(tail@.len() as int) =~= tail@);
}

/// The line of connection id `conn_index + 1` in a bigram feature file,
/// naming the features `letter` and their number, of `count` features; see
/// [`bigram_line_spec`].
pub fn bigram_feature_line(conn_index: usize, feats: &[Option<u32>], letter: char, count: usize) -> (r: String)
    requires
        conn_index < usize::MAX,
    ensures
        r@ == bigram_line_spec(conn_index as nat, feats@, letter, count as int),
{
    let mut cs: Vec<char> = crate::text::chars_of(decimal_text(conn_index + 1).as_str());
    cs.push('\t');
    let ghost head = cs@;
    let mut i: usize = 0;
    assert(feats@.take(0) =~= Seq::<Option<u32>>::empty());
    assert(cs@ =~= head + bigram_features_spec(feats@.take(0), letter, count as int));
    while i < feats.len()
        invariant
            i <= feats@.len(),
            cs@ == head + bigram_features_spec(feats@.take(i as int), letter, count as int),
        decreases feats@.len() - i,
    {
        let ghost t = feats@.take(i + 1);
        assert(t.drop_last() =~= feats@.take(i as int));
        assert(t.last() == feats@[i as int]);
        let ghost c0 = cs@;
        if i > 0 {
            cs.push(',');
        }
        let part: Vec<char> = match feats[i] {
            Some(id) => {
                if (id as usize) < count {
                    let mut v: Vec<char> = Vec::new();
                    v.push('"');
                    v.push(letter);
                    let digits = crate::text::chars_of(decimal_text(id as usize).as_str());
                    push_all(&mut v, &digits);
                    v.push('"');
                    assert(v@ =~= seq!['"', letter] + decimal_spec(id as nat) + seq!['"']);
                    v
                } else {
                    let mut v: Vec<char> = Vec::new();
                    v.push('"');
                    v.push('*');
                    v.push('"');
                    assert(v@ =~= seq!['"', '*', '"']);
                    v
                }
            },
            None => {
                let mut v: Vec<char> = Vec::new();
                v.push('*');
                assert(v@ =~= seq!['*']);
                v
            },
        };
        assert(part@ == bigram_feature_spec(feats@[i as int], letter, count as int));
        push_all(&mut cs, &part);
        proof {
            if i > 0 {
                assert(cs@ =~= head + bigram_features_spec(t, letter, count as int));
            } else {
                assert(cs@ =~= head + bigram_features_spec(t, letter, count as int));
            }
        }
        i += 1;
    }
    assert(feats@.take(feats@.len() as int) =~= feats@);
    cs.push('\n');
    assert(cs@ =~= bigram_line_spec(conn_index as nat, feats@, letter, count as int));
    string_from_chars(cs.as_slice())
}

/// The category id of a character: its first category, or 0 when it has
/// none.
pub open spec fn category_id_spec(config: TrainerConfig, c: char) -> u32 {
    let cats = config.dict.character_definition.categories_of(c as u32);
    if cats.len() > 0 {
        cats[0].0 as u32
    } else {
        0
    }
}

/// The category id of a character; see [`category_id_spec`].
pub fn category_id_of(config: &TrainerConfig, c: char) -> (r: u32)
    requires
        config.dict.character_definition.wf(),
    ensures
        r == category_id_spec(*config, c),
{
    let cats = config.dict.character_definition.lookup_categories(c);
    if cats.len() > 0 {
        cats[0].0 as u32
    } else {
        0
    }
}

/// A number column of a user lexicon line: the value when it parses within
/// the range, else 0.
pub open spec fn number_or_zero(s: Seq<char>, lo: int, hi: int) -> int {
    match crate::text::parse_int_spec(s, true, lo, hi) {
        Some(v) => v,
        None => 0,
    }
}

/// The entry a user lexicon line gives as the `index`-th user word: with
/// at least five columns, the surface, the word (left and right ids as
/// `i32` taken modulo 2^16, cost as `i16`, 0 where a column does not
/// parse) and the features (columns 4 on); blank lines and `#` comments
/// give none.
pub open spec fn user_lexicon_line_spec(line: Seq<char>, index: u32) -> Option<
    (Seq<char>, crate::viterbi::WordEntry, Seq<char>),
> {
    let parts = split_seq(line, ',');
    if crate::trainer::config::skipped_line(line) || parts.len() < 5 {
        None
    } else {
        Some(
            (
                parts[0],
                crate::viterbi::WordEntry {
                    word_id: crate::viterbi::WordId { id: index, lex_type: crate::viterbi::LexType::User },
                    word_cost: number_or_zero(parts[3], i16::MIN as int, i16::MAX as int) as i16,
                    left_id: number_or_zero(parts[1], i32::MIN as int, i32::MAX as int) as u16,
                    right_id: number_or_zero(parts[2], i32::MIN as int, i32::MAX as int) as u16,
                },
                join_spec(parts.skip(4), ','),
            ),
        )
    }
}

fn number_or_zero_i32(s: &str) -> (r: i32)
    ensures
        r == number_or_zero(s@, i32::MIN as int, i32::MAX as int),
{
    let cs = crate::text::chars_of(s);
    match crate::text::parse_decimal(cs.as_slice(), true, i32::MIN as i64, i32::MAX as i64) {
        Some(v) => v as i32,
        None => 0,
    }
}

/// The entry of a user lexicon line; see [`user_lexicon_line_spec`].
pub fn parse_user_lexicon_line(line: &str, index: u32) -> (r: Option<(String, crate::viterbi::WordEntry, String)>)
    ensures
        match r {
            Some((s, e, f)) => user_lexicon_line_spec(line@, index) == Some((s@, e, f@)),
            None => user_lexicon_line_spec(line@, index) is None,
        },
{
    let cs = crate::text::chars_of(line);
    if crate::text::trims_to_empty(line) || (cs.len() > 0 && cs[0] == '#') {
        return None;
    }
    let parts = split_on(line, ',');
    if parts.len() < 5 {
        return None;
    }
    proof {
        assert(views_of(parts@)[0] == parts@[0]@);
        assert(views_of(parts@)[1] == parts@[1]@);
        assert(views_of(parts@)[2] == parts@[2]@);
        assert(views_of(parts@)[3] == parts@[3]@);
    }
    let left = number_or_zero_i32(parts[1].as_str());
    let right = number_or_zero_i32(parts[2].as_str());
    let cost_cs = crate::text::chars_of(parts[3].as_str());
    let cost: i16 = match crate::text::parse_decimal(cost_cs.as_slice(), true, i16::MIN as i64, i16::MAX as i64) {
        Some(v) => v as i16,
        None => 0,
    };
    let rest = vstd::slice::slice_subrange(parts.as_slice(), 4, parts.len());
    let features = join_with(rest, ',');
    proof {
        assert(views_of(rest@) =~= views_of(parts@).skip(4));
    }
    let entry = crate::viterbi::WordEntry {
        word_id: crate::viterbi::WordId { id: index, lex_type: crate::viterbi::LexType::User },
        word_cost: cost,
        left_id: left as u16,
        right_id: right as u16,
    };
    Some((parts[0].clone(), entry, features))
}
} // verus!
