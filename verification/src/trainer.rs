//! Dictionary training: the labels of the seed surfaces and unknown-word
//! classes, which words count as known, and the modules of its inputs.
pub mod config;
pub mod feature_extractor;
pub mod feature_rewriter;
pub mod model;
use vstd::prelude::*;

verus! {

/// Identifies a word by its id.
#[derive(Debug, Clone, Copy, PartialEq, Eq, Structural)]
pub struct WordIdx {
    /// The word id.
    pub word_id: u32,
}

impl WordIdx {
    /// Wraps a raw word id.
    pub fn new(word_id: u32) -> (r: Self)
        ensures
            r.word_id == word_id,
    {
        WordIdx { word_id }
    }
}

/// A word matching at a position of the input.
#[derive(Debug, Clone, Copy, PartialEq, Eq, Structural)]
pub struct Match {
    /// Which word matched.
    pub word_idx: WordIdx,
    /// Match length in characters.
    pub end_char: usize,
}

} // verus!

verus! {

use crate::text::{str_eq, views_of};
use crate::trainer::config::{keys_unique, lemma_map_of_absent, lemma_map_of_index, lemma_map_of_update, map_of, TrainerConfig};

/// The class of an unknown word by its first character: 5 for an ASCII
/// digit, 4 for an ASCII letter, 3 for a CJK ideograph (U+4E00 to U+9FAF),
/// 2 for katakana (U+30A1 to U+30F6), 1 for hiragana (U+3041 to U+3096),
/// and 0 for anything else or an empty word.
pub open spec fn unknown_class_spec(surface: Seq<char>) -> usize {
    if surface.len() == 0 {
        0
    } else {
        let u = surface[0] as u32;
        if 0x30 <= u <= 0x39 {
            5
        } else if (0x41 <= u <= 0x5A) || (0x61 <= u <= 0x7A) {
            4
        } else if 0x4E00 <= u <= 0x9FAF {
            3
        } else if 0x30A1 <= u <= 0x30F6 {
            2
        } else if 0x3041 <= u <= 0x3096 {
            1
        } else {
            0
        }
    }
}

/// The class of an unknown word; see [`unknown_class_spec`].
pub fn classify_unknown_word(surface: &str) -> (r: usize)
    ensures
        r == unknown_class_spec(surface@),
        r < 6,
{
    let cs = crate::text::chars_of(surface);
    if cs.len() == 0 {
        return 0;
    }
    let u = cs[0] as u32;
    if 0x30 <= u && u <= 0x39 {
        5
    } else if (0x41 <= u && u <= 0x5A) || (0x61 <= u && u <= 0x7A) {
        4
    } else if 0x4E00 <= u && u <= 0x9FAF {
        3
    } else if 0x30A1 <= u && u <= 0x30F6 {
        2
    } else if 0x3041 <= u && u <= 0x3096 {
        1
    } else {
        0
    }
}

/// The labels of training: the seed surfaces, then the six unknown-word
/// classes.
pub open spec fn labels_spec(surfaces: Seq<Seq<char>>) -> Seq<Seq<char>> {
    surfaces + seq!["DEFAULT"@, "HIRAGANA"@, "KATAKANA"@, "KANJI"@, "ALPHA"@, "NUMERIC"@]
}

/// The labels of training; see [`labels_spec`].
pub fn extract_labels(config: &TrainerConfig) -> (r: Vec<String>)
    ensures
        views_of(r@) == labels_spec(views_of(config.surfaces@)),
{
    let mut labels: Vec<String> = config.surfaces.clone();
    let ghost base = views_of(config.surfaces@);
    assert(views_of(labels@) == base);
    let names = ["DEFAULT", "HIRAGANA", "KATAKANA", "KANJI", "ALPHA", "NUMERIC"];
    proof {
        reveal_strlit("DEFAULT");
        reveal_strlit("HIRAGANA");
        reveal_strlit("KATAKANA");
        reveal_strlit("KANJI");
        reveal_strlit("ALPHA");
        reveal_strlit("NUMERIC");
    }
    let ghost want = seq!["DEFAULT"@, "HIRAGANA"@, "KATAKANA"@, "KANJI"@, "ALPHA"@, "NUMERIC"@];
    let mut k: usize = 0;
    while k < 6
        invariant
            k <= 6,
            names@.len() == 6,
            want.len() == 6,
            forall|j: int| 0 <= j < 6 ==> (#[trigger] names@[j])@ == want[j],
            views_of(labels@) == base + want.take(k as int),
        decreases 6 - k,
    {
        let ghost before = views_of(labels@);
        labels.push(names[k].to_owned());
        assert(views_of(labels@) =~= before.push(want[k as int]));
        assert(base + want.take(k + 1) =~= (base + want.take(k as int)).push(want[k as int]));
        k += 1;
    }
    assert(want.take(6) =~= want);
    labels
}

/// Whether a word counts as known: a seed surface, or a word whose first
/// character has a category.
pub open spec fn known_spec(config: TrainerConfig, surface: Seq<char>) -> bool {
    ||| views_of(config.surfaces@).contains(surface)
    ||| (surface.len() > 0 && config.dict.character_definition.categories_of(surface[0] as u32).len() > 0)
}

/// Whether a word counts as known; see [`known_spec`].
pub fn is_word_in_dictionary(config: &TrainerConfig, surface: &str) -> (r: bool)
    requires
        config.dict.character_definition.wf(),
    ensures
        r == known_spec(*config, surface@),
{
    let mut i: usize = 0;
    while i < config.surfaces.len()
        invariant
            i <= config.surfaces@.len(),
            forall|j: int| 0 <= j < i ==> (#[trigger] config.surfaces@[j])@ != surface@,
        decreases config.surfaces@.len() - i,
    {
        if str_eq(config.surfaces[i].as_str(), surface) {
            assert(views_of(config.surfaces@)[i as int] == surface@);
            return true;
        }
        i += 1;
    }
    assert(!views_of(config.surfaces@).contains(surface@)) by {
        if views_of(config.surfaces@).contains(surface@) {
            let j = choose|j: int| 0 <= j < views_of(config.surfaces@).len() && views_of(config.surfaces@)[j] == surface@;
            assert(config.surfaces@[j]@ == surface@);
        }
    }
    let cs = crate::text::chars_of(surface);
    if cs.len() > 0 {
        let cats = config.dict.character_definition.lookup_categories(cs[0]);
        cats.len() > 0
    } else {
        false
    }
}

/// Surface-label pairs as values.
pub open spec fn label_entries_view(v: Seq<(String, Option<u32>)>) -> Seq<(Seq<char>, Option<u32>)> {
    v.map_values(|p: (String, Option<u32>)| (p.0@, p.1))
}

/// The label ids of training: per seed surface the id of its label (none
/// for an empty surface), and the ids of the six unknown-word classes.
pub struct LabelTable {
    /// Surface to label id, one entry per surface.
    pub entries: Vec<(String, Option<u32>)>,
    /// The label ids of the unknown-word classes, by class.
    pub unknown_ids: Vec<u32>,
}

impl LabelTable {
    /// Whether each surface has one entry and each class an id.
    pub open spec fn wf(&self) -> bool {
        &&& keys_unique(label_entries_view(self.entries@))
        &&& self.unknown_ids@.len() == 6
    }

    /// Surface to label id.
    pub open spec fn label_map(&self) -> Map<Seq<char>, Option<u32>> {
        map_of(label_entries_view(self.entries@))
    }

    /// The label id of a surface, if it has one.
    pub open spec fn label_of(&self, surface: Seq<char>) -> Option<u32> {
        if self.label_map().dom().contains(surface) {
            self.label_map()[surface]
        } else {
            None
        }
    }

    fn set_entry(&mut self, key: String, value: Option<u32>)
        requires
            old(self).wf(),
        ensures
            final(self).wf(),
            final(self).label_map() == old(self).label_map().insert(key@, value),
            final(self).unknown_ids == old(self).unknown_ids,
            final(self).entries@.len() == old(self).entries@.len() + (if old(self).label_map().dom().contains(
                key@,
            ) {
                0int
            } else {
                1int
            }),
    {
        let ghost before = label_entries_view(self.entries@);
        let mut i: usize = 0;
        while i < self.entries.len()
            invariant
                i <= self.entries@.len(),
                before == label_entries_view(self.entries@),
                before == label_entries_view(old(self).entries@),
                self.unknown_ids == old(self).unknown_ids,
                self.unknown_ids@.len() == 6,
                keys_unique(before),
                forall|j: int| 0 <= j < i ==> (#[trigger] self.entries@[j]).0@ != key@,
            decreases self.entries@.len() - i,
        {
            if str_eq(self.entries[i].0.as_str(), key.as_str()) {
                let ghost x = (key@, value);
                proof {
                    lemma_map_of_index(before, i as int);
                }
                self.entries.set(i, (key, value));
                proof {
                    lemma_map_of_update(before, i as int, x);
                    assert(label_entries_view(self.entries@) =~= before.update(i as int, x));
                    assert(before[i as int].0 == x.0);
                }
                return;
            }
            i += 1;
        }
        proof {
            assert forall|j: int| 0 <= j < before.len() implies before[j].0 != key@ by {
                assert(before[j].0 == self.entries@[j].0@);
            }
            lemma_map_of_absent(before, key@);
        }
        self.entries.push((key, value));
        proof {
            let after = label_entries_view(self.entries@);
            assert(after =~= before.push((key@, value)));
            assert(after.drop_last() =~= before);
        }
    }

    fn get_entry(&self, key: &str) -> (r: Option<u32>)
        requires
            self.wf(),
        ensures
            r == self.label_of(key@),
    {
        let ghost s = label_entries_view(self.entries@);
        let mut i: usize = 0;
        while i < self.entries.len()
            invariant
                i <= self.entries@.len(),
                s == label_entries_view(self.entries@),
                keys_unique(s),
                forall|j: int| 0 <= j < i ==> (#[trigger] self.entries@[j]).0@ != key@,
            decreases self.entries@.len() - i,
        {
            if str_eq(self.entries[i].0.as_str(), key) {
                proof {
                    lemma_map_of_index(s, i as int);
                }
                return self.entries[i].1;
            }
            i += 1;
        }
        proof {
            assert forall|j: int| 0 <= j < s.len() implies s[j].0 != key@ by {
                assert(s[j].0 == self.entries@[j].0@);
            }
            lemma_map_of_absent(s, key@);
        }
        None
    }

    /// The label table of the seed surfaces: surface `i` (1-based `i + 1`)
    /// labels itself, a later duplicate replacing an earlier one, an empty
    /// surface has no label; the unknown-word classes get the ids after the
    /// surfaces.
    pub fn new(surfaces: &[String]) -> (r: Self)
        requires
            surfaces@.len() + 6 <= u32::MAX,
        ensures
            r.wf(),
            forall|k: int| 0 <= k < 6 ==> #[trigger] r.unknown_ids@[k] == surfaces@.len() + k + 1,
            forall|s: Seq<char>|
                #[trigger] r.label_map().dom().contains(s) <==> views_of(surfaces@).contains(s),
            forall|i: int|
                0 <= i < surfaces@.len() && (forall|j: int| i < j < surfaces@.len() ==> surfaces@[j]@ != surfaces@[i]@)
                    ==> #[trigger] r.label_map()[surfaces@[i]@] == (if surfaces@[i]@.len() > 0 {
                    Some((i + 1) as u32)
                } else {
                    None
                }),
    {
        let mut table = LabelTable { entries: Vec::new(), unknown_ids: Vec::new() };
        let mut k: usize = 0;
        while k < 6
            invariant
                k <= 6,
                surfaces@.len() + 6 <= u32::MAX,
                table.entries@.len() == 0,
                table.unknown_ids@.len() == k,
                forall|j: int| 0 <= j < k ==> #[trigger] table.unknown_ids@[j] == surfaces@.len() + j + 1,
            decreases 6 - k,
        {
            table.unknown_ids.push((surfaces.len() + k + 1) as u32);
            k += 1;
        }
        assert(label_entries_view(table.entries@) =~= Seq::<(Seq<char>, Option<u32>)>::empty());
        let mut i: usize = 0;
        while i < surfaces.len()
            invariant
                i <= surfaces@.len(),
                surfaces@.len() + 6 <= u32::MAX,
                table.wf(),
                forall|j: int| 0 <= j < 6 ==> #[trigger] table.unknown_ids@[j] == surfaces@.len() + j + 1,
                forall|s: Seq<char>|
                    #[trigger] table.label_map().dom().contains(s) <==> views_of(surfaces@).take(i as int).contains(s),
                forall|a: int|
                    0 <= a < i && (forall|j: int| a < j < i ==> surfaces@[j]@ != surfaces@[a]@)
                        ==> #[trigger] table.label_map()[surfaces@[a]@] == (if surfaces@[a]@.len() > 0 {
                        Some((a + 1) as u32)
                    } else {
                        None
                    }),
            decreases surfaces@.len() - i,
        {
            let cs = crate::text::chars_of(surfaces[i].as_str());
            let id: Option<u32> = if cs.len() > 0 {
                Some((i + 1) as u32)
            } else {
                None
            };
            let ghost m0 = table.label_map();
            table.set_entry(surfaces[i].clone(), id);
            proof {
                let t0 = views_of(surfaces@).take(i as int);
                let t1 = views_of(surfaces@).take(i + 1);
                assert(t1 =~= t0.push(surfaces@[i as int]@));
                assert forall|s: Seq<char>| #[trigger] table.label_map().dom().contains(s) <==> t1.contains(s) by {
                    if s == surfaces@[i as int]@ {
                        assert(t1[i as int] == s);
                    } else if t0.contains(s) {
                        let w = choose|w: int| 0 <= w < t0.len() && t0[w] == s;
                        assert(t1[w] == s);
                    } else if t1.contains(s) {
                        let w = choose|w: int| 0 <= w < t1.len() && t1[w] == s;
                        if w < i {
                            assert(t0[w] == s);
                        }
                    }
                }
                assert forall|a: int|
                    0 <= a < i + 1 && (forall|j: int| a < j < i + 1 ==> surfaces@[j]@ != surfaces@[a]@)
                        implies #[trigger] table.label_map()[surfaces@[a]@] == (if surfaces@[a]@.len() > 0 {
                        Some((a + 1) as u32)
                    } else {
                        None
                    }) by {
                    if a < i {
                        assert(surfaces@[i as int]@ != surfaces@[a]@);
                    }
                }
            }
            i += 1;
        }
        assert(views_of(surfaces@).take(surfaces@.len() as int) =~= views_of(surfaces@));
        table
    }

    /// The label id of a word: its surface's label when it has one; for an
    /// unknown word, the id of its class; for a known word without a label,
    /// a new label numbered after the entries, given to its surface when it
    /// is not empty.
    pub fn get_or_create_label_id(&mut self, config: &TrainerConfig, surface: &str) -> (r: u32)
        requires
            old(self).wf(),
            old(self).entries@.len() + 1 <= u32::MAX,
            config.dict.character_definition.wf(),
        ensures
            final(self).wf(),
            final(self).unknown_ids == old(self).unknown_ids,
            match old(self).label_of(surface@) {
                Some(id) => r == id && final(self).label_map() == old(self).label_map(),
                None => if !known_spec(*config, surface@) {
                    r == old(self).unknown_ids@[unknown_class_spec(surface@) as int] && final(self).label_map()
                        == old(self).label_map()
                } else {
                    &&& r == old(self).entries@.len() + 1
                    &&& final(self).label_map() == (if surface@.len() > 0 {
                        old(self).label_map().insert(surface@, Some(r))
                    } else {
                        old(self).label_map()
                    })
                },
            },
    {
        let known = is_word_in_dictionary(config, surface);
        if let Some(id) = self.get_entry(surface) {
            return id;
        }
        if !known {
            let class = classify_unknown_word(surface);
            return self.unknown_ids[class];
        }
        let new_id = (self.entries.len() + 1) as u32;
        let cs = crate::text::chars_of(surface);
        if cs.len() > 0 {
            self.set_entry(surface.to_owned(), Some(new_id));
        }
        new_id
    }
}

} // verus!
