//! Left-space penalty: an extra cost for lattice candidates that begin right
//! after whitespace, chosen by the candidate's first part-of-speech tag.
use vstd::prelude::*;

use crate::dictionary::character_definition::{CategoryId, CharacterDefinition};
use crate::dictionary::schema::{last_index_of, Schema};
use crate::error::{error_of, LinderaErrorKind};
use crate::text::{char_is_white_space, chars_of, is_white_space, split_seq, str_eq, string_from_chars, views_of};
use crate::viterbi::{LexType, WordId};
use crate::dictionary::{Dictionary, UserDictionary};
use crate::util::packed_details_spec;
use crate::LinderaResult;

verus! {

/// Number of leading CSV columns that precede the detail fields.
pub const COMMON_FIELD_COUNT: usize = 4;

/// One rule: the cost added to a candidate whose first part-of-speech tag is
/// listed in `pos`, when it starts after whitespace.
#[derive(Debug, Clone)]
pub struct SpacePenaltyRule {
    /// First part-of-speech tags the rule applies to.
    pub pos: Vec<String>,
    /// The cost added.
    pub cost: i32,
}

impl SpacePenaltyRule {
    /// A rule from tag names and a cost.
    pub fn new(pos: &[&str], cost: i32) -> (r: Self)
        ensures
            r.cost == cost,
            r.pos@.len() == pos@.len(),
            forall|i: int| 0 <= i < pos@.len() ==> #[trigger] r.pos@[i]@ == pos@[i]@,
    {
        let mut tags: Vec<String> = Vec::new();
        let mut i: usize = 0;
        while i < pos.len()
            invariant
                i <= pos@.len(),
                tags@.len() == i,
                forall|k: int| 0 <= k < i ==> #[trigger] tags@[k]@ == pos@[k]@,
            decreases pos@.len() - i,
        {
            tags.push(pos[i].to_owned());
            i += 1;
        }
        SpacePenaltyRule { pos: tags, cost }
    }
}

/// The penalty rules, consulted in order; the first rule listing a tag wins.
#[derive(Debug, Clone)]
pub struct SpacePenaltyConfig {
    /// The rules, in priority order.
    pub rules: Vec<SpacePenaltyRule>,
}

impl Default for SpacePenaltyConfig {
    /// No rules.
    fn default() -> (r: Self)
        ensures
            r.rules@.len() == 0,
    {
        SpacePenaltyConfig { rules: Vec::new() }
    }
}

/// The first component of a `+`-joined part-of-speech tag.
pub open spec fn first_pos_spec(tag: Seq<char>) -> Seq<char> {
    split_seq(tag, '+')[0]
}

/// Whether a rule lists `tag`.
pub open spec fn rule_lists(rule: SpacePenaltyRule, tag: Seq<char>) -> bool {
    exists|k: int| 0 <= k < rule.pos@.len() && (#[trigger] rule.pos@[k])@ == tag
}

/// The 1-based index of the first rule listing `tag`, or 0 when none does.
pub open spec fn rule_index_spec(rules: Seq<SpacePenaltyRule>, tag: Seq<char>) -> int
    decreases rules.len(),
{
    if rules.len() == 0 {
        0
    } else {
        let rest = rule_index_spec(rules.drop_last(), tag);
        if rest != 0 {
            rest
        } else if rule_lists(rules.last(), tag) {
            rules.len() as int
        } else {
            0
        }
    }
}

/// The cost of the first rule listing `tag`, or 0 when none does.
pub open spec fn cost_for_tag_spec(rules: Seq<SpacePenaltyRule>, tag: Seq<char>) -> int {
    let i = rule_index_spec(rules, tag);
    if i == 0 {
        0
    } else {
        rules[i - 1].cost as int
    }
}

proof fn lemma_rule_index_range(rules: Seq<SpacePenaltyRule>, tag: Seq<char>)
    ensures
        0 <= rule_index_spec(rules, tag) <= rules.len(),
    decreases rules.len(),
{
    if rules.len() > 0 {
        lemma_rule_index_range(rules.drop_last(), tag);
    }
}

/// The text before the first `+` of a part-of-speech tag (the whole tag
/// when there is none).
pub fn first_pos(pos_tag: &str) -> (r: String)
    ensures
        r@ == first_pos_spec(pos_tag@),
{
    let parts = crate::text::split_on(pos_tag, '+');
    proof {
        crate::text::lemma_split_seq_nonempty(pos_tag@, '+');
        assert(views_of(parts@)[0] == parts@[0]@);
    }
    parts[0].clone()
}

/// Whether `rule` lists `tag`.
fn rule_lists_tag(rule: &SpacePenaltyRule, tag: &str) -> (r: bool)
    ensures
        r == rule_lists(*rule, tag@),
{
    let mut k: usize = 0;
    while k < rule.pos.len()
        invariant
            k <= rule.pos@.len(),
            forall|j: int| 0 <= j < k ==> (#[trigger] rule.pos@[j])@ != tag@,
        decreases rule.pos@.len() - k,
    {
        if str_eq(rule.pos[k].as_str(), tag) {
            return true;
        }
        k += 1;
    }
    false
}

/// The 1-based index of the first rule listing `tag`, or 0.
pub fn rule_index_for(rules: &Vec<SpacePenaltyRule>, tag: &str) -> (r: usize)
    ensures
        r == rule_index_spec(rules@, tag@),
{
    let mut i: usize = 0;
    while i < rules.len()
        invariant
            i <= rules@.len(),
            rule_index_spec(rules@.take(i as int), tag@) == 0,
        decreases rules@.len() - i,
    {
        let listed = rule_lists_tag(&rules[i], tag);
        proof {
            let t = rules@.take(i + 1);
            assert(t.drop_last() =~= rules@.take(i as int));
            assert(t.last() == rules@[i as int]);
        }
        if listed {
            proof {
                lemma_rule_index_prefix(rules@, tag@, i + 1);
            }
            return i + 1;
        }
        i += 1;
    }
    assert(rules@.take(rules@.len() as int) =~= rules@);
    0
}

proof fn lemma_rule_index_prefix(rules: Seq<SpacePenaltyRule>, tag: Seq<char>, m: int)
    requires
        0 < m <= rules.len(),
        rule_index_spec(rules.take(m), tag) != 0,
    ensures
        rule_index_spec(rules, tag) == rule_index_spec(rules.take(m), tag),
    decreases rules.len() - m,
{
    if m < rules.len() {
        let t = rules.take(m + 1);
        assert(t.drop_last() =~= rules.take(m));
        lemma_rule_index_prefix(rules, tag, m + 1);
    } else {
        assert(rules.take(m) =~= rules);
    }
}

impl SpacePenaltyConfig {
    /// A config from rules, in priority order.
    pub fn new(rules: Vec<SpacePenaltyRule>) -> (r: Self)
        ensures
            r.rules@ == rules@,
    {
        SpacePenaltyConfig { rules }
    }

    /// The penalty for a part-of-speech tag: the cost of the first rule that
    /// lists the tag's first component, or 0 when no rule does.
    pub fn cost_for_tag(&self, pos_tag: &str) -> (r: i32)
        ensures
            r == cost_for_tag_spec(self.rules@, first_pos_spec(pos_tag@)),
    {
        let first = first_pos(pos_tag);
        let i = rule_index_for(&self.rules, first.as_str());
        proof {
            lemma_rule_index_range(self.rules@, first@);
        }
        if i == 0 {
            0
        } else {
            self.rules[i - 1].cost
        }
    }
}

/// The detail-field index of the part-of-speech column: the column of the
/// first of `part_of_speech_tag` and `part_of_speech` that the schema has,
/// less the four common columns; `None` when neither is there or the one
/// found is a common column.
pub open spec fn pos_detail_index_spec(fields: Seq<String>) -> Option<int> {
    let a = last_index_of(fields, "part_of_speech_tag"@, fields.len() as int);
    let found = if a is Some {
        a
    } else {
        last_index_of(fields, "part_of_speech"@, fields.len() as int)
    };
    match found {
        Some(i) => if i >= 4 {
            Some(i - 4)
        } else {
            None
        },
        None => None,
    }
}

/// Resolves the detail-field index of the part-of-speech tag in a schema; a
/// schema without such a column is a dictionary error.
pub fn pos_detail_index(schema: &Schema) -> (r: LinderaResult<usize>)
    ensures
        match r {
            Ok(i) => pos_detail_index_spec(schema.fields@) == Some(i as int),
            Err(e) => pos_detail_index_spec(schema.fields@) is None && e.kind
                == LinderaErrorKind::Dictionary,
        },
{
    let found = match schema.get_field_index("part_of_speech_tag") {
        Some(i) => Some(i),
        None => schema.get_field_index("part_of_speech"),
    };
    match found {
        Some(i) => {
            if i >= COMMON_FIELD_COUNT {
                Ok(i - COMMON_FIELD_COUNT)
            } else {
                Err(error_of(LinderaErrorKind::Dictionary, "space penalty requires a part-of-speech field"))
            }
        },
        None => Err(error_of(LinderaErrorKind::Dictionary, "space penalty requires a part-of-speech field")),
    }
}

/// Whether `cats` holds `id`.
fn contains_category(cats: &[CategoryId], id: CategoryId) -> (r: bool)
    ensures
        r == cats@.contains(id),
{
    let mut i: usize = 0;
    while i < cats.len()
        invariant
            i <= cats@.len(),
            forall|j: int| 0 <= j < i ==> cats@[j] != id,
        decreases cats@.len() - i,
    {
        if cats[i] == id {
            return true;
        }
        i += 1;
    }
    false
}

/// Whether `c` counts as whitespace: it has the `SPACE` category when the
/// dictionary defines one, else it is Unicode white space.
pub open spec fn space_spec(defs: &CharacterDefinition, space_category: Option<CategoryId>, c: char) -> bool {
    match space_category {
        Some(id) => defs.categories_of(c as u32).contains(id),
        None => is_white_space(c),
    }
}

/// Per-word-id penalty lookup precomputed from a config, with the
/// whitespace classifier the penalty is gated on.
#[derive(Debug, Clone)]
pub struct SpacePenaltyTable {
    /// Rule index (1-based, 0 for none) per system word id.
    pub system: Vec<u8>,
    /// Rule index per user word id.
    pub user: Vec<u8>,
    /// Rule index per unknown-word entry id.
    pub unknown: Vec<u8>,
    /// `costs[0] == 0`; `costs[i]` is the cost of rule `i - 1`.
    pub costs: Vec<i32>,
    /// Whitespace classification of the code points below 256.
    pub space_ascii: Vec<bool>,
    /// The dictionary's `SPACE` category, if it defines one.
    pub space_category: Option<CategoryId>,
}

/// The rule index for an entry's part-of-speech tag, if it has one.
fn rule_for(rules: &Vec<SpacePenaltyRule>, tag: &Option<String>) -> (r: u8)
    requires
        rules@.len() <= 255,
    ensures
        r == match tag {
            Some(t) => rule_index_spec(rules@, first_pos_spec(t@)),
            None => 0,
        },
{
    match tag {
        Some(t) => {
            let first = first_pos(t.as_str());
            let i = rule_index_for(rules, first.as_str());
            proof {
                lemma_rule_index_range(rules@, first@);
            }
            i as u8
        },
        None => 0,
    }
}

/// The rule indexes of a lexicon's entries, from their part-of-speech tags.
fn rule_indexes(rules: &Vec<SpacePenaltyRule>, tags: &[Option<String>]) -> (r: Vec<u8>)
    requires
        rules@.len() <= 255,
    ensures
        r@.len() == tags@.len(),
        forall|i: int|
            0 <= i < tags@.len() ==> #[trigger] r@[i] == match tags@[i] {
                Some(t) => rule_index_spec(rules@, first_pos_spec(t@)),
                None => 0,
            },
{
    let mut out: Vec<u8> = Vec::new();
    let mut i: usize = 0;
    while i < tags.len()
        invariant
            rules@.len() <= 255,
            i <= tags@.len(),
            out@.len() == i,
            forall|k: int|
                0 <= k < i ==> #[trigger] out@[k] == match tags@[k] {
                    Some(t) => rule_index_spec(rules@, first_pos_spec(t@)),
                    None => 0,
                },
        decreases tags@.len() - i,
    {
        out.push(rule_for(rules, &tags[i]));
        i += 1;
    }
    out
}

/// The lookup table of a lexicon, by lexicon kind.
pub open spec fn table_of(t: &SpacePenaltyTable, lex: LexType) -> Seq<u8> {
    match lex {
        LexType::System => t.system@,
        LexType::User => t.user@,
        LexType::Unknown => t.unknown@,
    }
}

/// Tags as values.
pub open spec fn tags_view(tags: Seq<Option<String>>) -> Seq<Option<Seq<char>>> {
    tags.map_values(
        |t: Option<String>|
            match t {
                Some(s) => Some(s@),
                None => None,
            },
    )
}

/// The part-of-speech tags of the entries of lexicon `lex`.
pub open spec fn tags_of(
    lex: LexType,
    system: Seq<Option<Seq<char>>>,
    user: Seq<Option<Seq<char>>>,
    unknown: Seq<Option<Seq<char>>>,
) -> Seq<Option<Seq<char>>> {
    match lex {
        LexType::System => system,
        LexType::User => user,
        LexType::Unknown => unknown,
    }
}

/// The tag of the entry of `w`, `None` when it has none or is not there.
pub open spec fn entry_tag(
    w: WordId,
    system: Seq<Option<Seq<char>>>,
    user: Seq<Option<Seq<char>>>,
    unknown: Seq<Option<Seq<char>>>,
) -> Option<Seq<char>> {
    let tags = tags_of(w.lex_type, system, user, unknown);
    if (w.id as int) < tags.len() {
        tags[w.id as int]
    } else {
        None
    }
}

/// Whether the table holds, per rule, its cost after the leading 0, and per
/// entry of each lexicon the index of the first rule listing its tag's first
/// component (0 when none does or it has no tag).
pub open spec fn tables_follow(
    t: SpacePenaltyTable,
    rules: Seq<SpacePenaltyRule>,
    system: Seq<Option<Seq<char>>>,
    user: Seq<Option<Seq<char>>>,
    unknown: Seq<Option<Seq<char>>>,
) -> bool {
    &&& t.costs@.len() == rules.len() + 1
    &&& t.costs@[0] == 0
    &&& forall|i: int| 1 <= i < t.costs@.len() ==> #[trigger] t.costs@[i] == rules[i - 1].cost
    &&& forall|lex: LexType|
        #[trigger] table_of(&t, lex).len() == tags_of(lex, system, user, unknown).len()
    &&& forall|lex: LexType, i: int|
        0 <= i < tags_of(lex, system, user, unknown).len() ==> #[trigger] table_of(&t, lex)[i] == match tags_of(
            lex,
            system,
            user,
            unknown,
        )[i] {
            Some(s) => rule_index_spec(rules, first_pos_spec(s)),
            None => 0,
        }
}

/// The penalty of an entry is the configured penalty for its
/// part-of-speech tag: the cost of the first rule listing the tag's first
/// component, 0 when no rule does, when the entry has no tag or when its
/// id is outside its lexicon.
pub proof fn lemma_cost_is_tag_cost(
    t: SpacePenaltyTable,
    rules: Seq<SpacePenaltyRule>,
    system: Seq<Option<Seq<char>>>,
    user: Seq<Option<Seq<char>>>,
    unknown: Seq<Option<Seq<char>>>,
    w: WordId,
)
    requires
        tables_follow(t, rules, system, user, unknown),
    ensures
        (if (w.id as int) < table_of(&t, w.lex_type).len() {
            t.costs@[table_of(&t, w.lex_type)[w.id as int] as int] as int
        } else {
            0
        }) == match entry_tag(w, system, user, unknown) {
            Some(s) => cost_for_tag_spec(rules, first_pos_spec(s)),
            None => 0,
        },
{
    let tags = tags_of(w.lex_type, system, user, unknown);
    assert(table_of(&t, w.lex_type).len() == tags.len());
    if (w.id as int) < tags.len() {
        let i = w.id as int;
        assert(table_of(&t, w.lex_type)[i] == match tags[i] {
            Some(s) => rule_index_spec(rules, first_pos_spec(s)),
            None => 0,
        });
        if let Some(s) = tags[i] {
            lemma_rule_index_range(rules, first_pos_spec(s));
        }
    }
}

impl SpacePenaltyTable {
    /// Whether the table is consistent: one cost per rule plus the leading 0,
    /// every rule index addressing a cost, and 256 whitespace flags.
    pub open spec fn wf(&self) -> bool {
        &&& self.costs@.len() >= 1
        &&& self.costs@[0] == 0
        &&& self.space_ascii@.len() == 256
        &&& forall|i: int| 0 <= i < self.system@.len() ==> (#[trigger] self.system@[i]) < self.costs@.len()
        &&& forall|i: int| 0 <= i < self.user@.len() ==> (#[trigger] self.user@[i]) < self.costs@.len()
        &&& forall|i: int| 0 <= i < self.unknown@.len() ==> (#[trigger] self.unknown@[i]) < self.costs@.len()
    }

    /// Precomputes the lookup from the rules, the part-of-speech tag of every
    /// system, user and unknown-word entry (`None` when an entry has none),
    /// and the dictionary's character definitions; more than 255 rules is an
    /// argument error.
    pub fn build_from_tags(
        config: &SpacePenaltyConfig,
        system_tags: &[Option<String>],
        user_tags: &[Option<String>],
        unknown_tags: &[Option<String>],
        char_definitions: &CharacterDefinition,
    ) -> (r: LinderaResult<Self>)
        requires
            char_definitions.wf(),
        ensures
            match r {
                Ok(t) => {
                    &&& config.rules@.len() <= 255
                    &&& t.wf()
                    &&& t.costs@.len() == config.rules@.len() + 1
                    &&& forall|i: int| 1 <= i < t.costs@.len() ==> #[trigger] t.costs@[i] == config.rules@[i - 1].cost
                    &&& t.system@.len() == system_tags@.len()
                    &&& t.user@.len() == user_tags@.len()
                    &&& t.unknown@.len() == unknown_tags@.len()
                    &&& tables_follow(
                        t,
                        config.rules@,
                        tags_view(system_tags@),
                        tags_view(user_tags@),
                        tags_view(unknown_tags@),
                    )
                    &&& forall|i: int| 0 <= i < system_tags@.len() ==> #[trigger] t.system@[i] == match system_tags@[i] {
                        Some(s) => rule_index_spec(config.rules@, first_pos_spec(s@)),
                        None => 0,
                    }
                    &&& forall|i: int| 0 <= i < user_tags@.len() ==> #[trigger] t.user@[i] == match user_tags@[i] {
                        Some(s) => rule_index_spec(config.rules@, first_pos_spec(s@)),
                        None => 0,
                    }
                    &&& forall|i: int| 0 <= i < unknown_tags@.len() ==> #[trigger] t.unknown@[i] == match unknown_tags@[i] {
                        Some(s) => rule_index_spec(config.rules@, first_pos_spec(s@)),
                        None => 0,
                    }
                    &&& t.space_category == (if exists|k: int| 0 <= k < char_definitions.category_names@.len()
                        && (#[trigger] char_definitions.category_names@[k])@ == "SPACE"@ {
                        Some(CategoryId((choose|k: int| 0 <= k < char_definitions.category_names@.len()
                        && char_definitions.category_names@[k]@ == "SPACE"@ && forall|j: int| 0 <= j < k ==> (#[trigger] char_definitions.category_names@[j])@ != "SPACE"@) as usize))
                    } else {
                        None
                    })
                    &&& forall|cp: int| 0 <= cp < 256 ==> #[trigger] t.space_ascii@[cp] == space_spec(
                        char_definitions,
                        t.space_category,
                        cp as char,
                    )
                },
                Err(e) => config.rules@.len() > 255 && e.kind == LinderaErrorKind::Args,
            },
    {
        if config.rules.len() > 255 {
            return Err(error_of(LinderaErrorKind::Args, "space penalty supports at most 255 rules"));
        }
        let mut costs: Vec<i32> = Vec::new();
        costs.push(0);
        let mut i: usize = 0;
        while i < config.rules.len()
            invariant
                i <= config.rules@.len(),
                costs@.len() == i + 1,
                costs@[0] == 0,
                forall|k: int| 1 <= k <= i ==> #[trigger] costs@[k] == config.rules@[k - 1].cost,
            decreases config.rules@.len() - i,
        {
            costs.push(config.rules[i].cost);
            i += 1;
        }
        proof {
            lemma_all_rule_indexes_in_range(config.rules@);
        }
        let system = rule_indexes(&config.rules, system_tags);
        let user = rule_indexes(&config.rules, user_tags);
        let unknown = rule_indexes(&config.rules, unknown_tags);
        let space_category = char_definitions.category_id_by_name("SPACE");
        proof {
            reveal_strlit("SPACE");
        }
        let mut space_ascii: Vec<bool> = Vec::new();
        let mut cp: u32 = 0;
        while cp < 256
            invariant
                char_definitions.wf(),
                cp <= 256,
                space_ascii@.len() == cp,
                forall|k: int|
                    0 <= k < cp ==> #[trigger] space_ascii@[k] == space_spec(
                        char_definitions,
                        space_category,
                        k as char,
                    ),
            decreases 256 - cp,
        {
            let c = (cp as u8) as char;
            assert(c as u32 == cp);
            let is_space = match space_category {
                Some(space_id) => contains_category(char_definitions.lookup_categories(c), space_id),
                None => char_is_white_space(c),
            };
            space_ascii.push(is_space);
            cp += 1;
        }
        Ok(SpacePenaltyTable { system, user, unknown, costs, space_ascii, space_category })
    }

    /// Whether `c` counts as whitespace for the penalty.
    pub fn is_space(&self, c: char, char_definitions: &CharacterDefinition) -> (r: bool)
        requires
            self.wf(),
            char_definitions.wf(),
        ensures
            (c as u32) < 256 ==> r == self.space_ascii@[c as u32 as int],
            (c as u32) >= 256 ==> r == space_spec(char_definitions, self.space_category, c),
    {
        let codepoint = c as u32;
        if codepoint < 256 {
            self.space_ascii[codepoint as usize]
        } else {
            match self.space_category {
                Some(space_id) => contains_category(char_definitions.lookup_categories(c), space_id),
                None => char_is_white_space(c),
            }
        }
    }

    /// The penalty for a candidate that starts after whitespace: the cost of
    /// its entry's rule, or 0 for an unlisted tag or an id outside the table.
    pub fn cost(&self, word_id: WordId) -> (r: i32)
        requires
            self.wf(),
        ensures
            r == if (word_id.id as int) < table_of(self, word_id.lex_type).len() {
                self.costs@[table_of(self, word_id.lex_type)[word_id.id as int] as int]
            } else {
                0
            },
    {
        let table = match word_id.lex_type() {
            LexType::System => &self.system,
            LexType::User => &self.user,
            LexType::Unknown => &self.unknown,
        };
        let id = word_id.id() as usize;
        let rule: u8 = if id < table.len() {
            table[id]
        } else {
            0
        };
        self.costs[rule as usize]
    }
}

proof fn lemma_all_rule_indexes_in_range(rules: Seq<SpacePenaltyRule>)
    ensures
        forall|tag: Seq<char>| 0 <= #[trigger] rule_index_spec(rules, tag) <= rules.len(),
{
    assert forall|tag: Seq<char>| 0 <= #[trigger] rule_index_spec(rules, tag) <= rules.len() by {
        lemma_rule_index_range(rules, tag);
    }
}

} // verus!

verus! {

/// The field at `pi` of a word's detail fields, if it has one.
pub open spec fn tag_at(fields: Seq<Seq<char>>, pi: int) -> Option<Seq<char>> {
    if 0 <= pi < fields.len() {
        Some(fields[pi])
    } else {
        None
    }
}

/// The part-of-speech tags of the system words: per slot of the word index,
/// the field at `pi` of the word's details.
pub open spec fn system_tags_spec(d: Dictionary, pi: int) -> Seq<Option<Seq<char>>> {
    let idx = d.prefix_dictionary.words_idx();
    Seq::new(
        idx.len() / 4,
        |w: int| tag_at(packed_details_spec(idx, d.prefix_dictionary.words(), w, Seq::empty()), pi),
    )
}

/// The part-of-speech tags of the user words (none without a user
/// dictionary): per slot of its word index, the field at `pi` of the
/// word's details, the sentinel `UNK` standing for a malformed record.
pub open spec fn user_tags_spec(user: Option<UserDictionary>, pi: int) -> Seq<Option<Seq<char>>> {
    match user {
        Some(u) => Seq::new(
            u.dict.words_idx_data@.len() / 4,
            |w: int| tag_at(packed_details_spec(u.dict.words_idx_data@, u.dict.words_data@, w, seq!["UNK"@]), pi),
        ),
        None => Seq::empty(),
    }
}

/// The part-of-speech tags of the unknown-word entries: the unknown
/// dictionary keeps no detail records, so each entry has the sentinel
/// details `UNK`.
pub open spec fn unknown_tags_spec(d: Dictionary, pi: int) -> Seq<Option<Seq<char>>> {
    Seq::new(d.unknown_dictionary.costs@.len(), |w: int| tag_at(seq!["UNK"@], pi))
}

/// The field at `pi` of `fields`, if it has one.
fn field_at(fields: &Vec<String>, pi: usize) -> (r: Option<String>)
    ensures
        match r {
            Some(s) => tag_at(views_of(fields@), pi as int) == Some(s@),
            None => tag_at(views_of(fields@), pi as int) is None,
        },
{
    if pi < fields.len() {
        assert(views_of(fields@)[pi as int] == fields@[pi as int]@);
        Some(fields[pi].clone())
    } else {
        None
    }
}

/// Pushing a tag pushes its value.
proof fn lemma_tags_push(tags: Seq<Option<String>>, t: Option<String>, v: Option<Seq<char>>)
    requires
        match t {
            Some(s) => v == Some(s@),
            None => v is None,
        },
    ensures
        tags_view(tags.push(t)) == tags_view(tags).push(v),
{
    assert(tags_view(tags.push(t)) =~= tags_view(tags).push(v));
}

impl SpacePenaltyTable {
    /// Precomputes the lookup for a dictionary and, if any, the user
    /// dictionary used with it: the part-of-speech tag of a word is its
    /// detail field at the column that `pos_detail_index` finds in the
    /// dictionary's schema. More than 255 rules is an argument error; a
    /// schema without a part-of-speech column is a dictionary error.
    pub fn build(
        config: &SpacePenaltyConfig,
        dictionary: &Dictionary,
        user_dictionary: Option<&UserDictionary>,
    ) -> (r: LinderaResult<Self>)
        requires
            dictionary.character_definition.wf(),
        ensures
            r is Ok <==> config.rules@.len() <= 255 && pos_detail_index_spec(
                dictionary.metadata.dictionary_schema.fields@,
            ) is Some,
            match r {
                Ok(t) => {
                    let pi = pos_detail_index_spec(dictionary.metadata.dictionary_schema.fields@)->0;
                    &&& t.wf()
                    &&& tables_follow(
                        t,
                        config.rules@,
                        system_tags_spec(*dictionary, pi),
                        user_tags_spec(
                            match user_dictionary {
                                Some(u) => Some(*u),
                                None => None,
                            },
                            pi,
                        ),
                        unknown_tags_spec(*dictionary, pi),
                    )
                    &&& forall|cp: int| 0 <= cp < 256 ==> #[trigger] t.space_ascii@[cp] == space_spec(
                        &dictionary.character_definition,
                        t.space_category,
                        cp as char,
                    )
                },
                Err(e) => (e.kind == LinderaErrorKind::Args && config.rules@.len() > 255) || (e.kind
                    == LinderaErrorKind::Dictionary && config.rules@.len() <= 255),
            },
    {
        if config.rules.len() > 255 {
            return Err(error_of(LinderaErrorKind::Args, "space penalty supports at most 255 rules"));
        }
        let pi = pos_detail_index(&dictionary.metadata.dictionary_schema)?;
        let ghost user_v = match user_dictionary {
            Some(u) => Some(*u),
            None => None,
        };
        // System words.
        let n = dictionary.prefix_dictionary.words_idx_bytes().len() / 4;
        let ghost sys_spec = system_tags_spec(*dictionary, pi as int);
        let mut system: Vec<Option<String>> = Vec::new();
        let mut w: usize = 0;
        while w < n
            invariant
                w <= n,
                n == sys_spec.len(),
                sys_spec == system_tags_spec(*dictionary, pi as int),
                tags_view(system@) == sys_spec.take(w as int),
            decreases n - w,
        {
            let details = dictionary.word_details(w);
            let t = field_at(&details, pi);
            proof {
                lemma_tags_push(system@, t, sys_spec[w as int]);
                assert(sys_spec.take(w + 1) =~= sys_spec.take(w as int).push(sys_spec[w as int]));
            }
            system.push(t);
            w += 1;
        }
        assert(sys_spec.take(n as int) =~= sys_spec);
        // User words.
        let ghost user_spec = user_tags_spec(user_v, pi as int);
        let mut user: Vec<Option<String>> = Vec::new();
        match user_dictionary {
            Some(ud) => {
                let m = ud.dict.words_idx_data.len() / 4;
                let mut w: usize = 0;
                while w < m
                    invariant
                        w <= m,
                        m == user_spec.len(),
                        user_v == Some(*ud),
                        user_spec == user_tags_spec(user_v, pi as int),
                        tags_view(user@) == user_spec.take(w as int),
                    decreases m - w,
                {
                    let details = ud.word_details(w);
                    let t = field_at(&details, pi);
                    proof {
                        lemma_tags_push(user@, t, user_spec[w as int]);
                        assert(user_spec.take(w + 1) =~= user_spec.take(w as int).push(user_spec[w as int]));
                    }
                    user.push(t);
                    w += 1;
                }
                assert(user_spec.take(m as int) =~= user_spec);
            },
            None => {
                assert(tags_view(user@) =~= user_spec);
            },
        }
        // Unknown-word entries.
        let k = dictionary.unknown_dictionary.costs.len();
        let ghost unk_spec = unknown_tags_spec(*dictionary, pi as int);
        let mut unk_details: Vec<String> = Vec::new();
        unk_details.push("UNK".to_owned());
        proof {
            reveal_strlit("UNK");
            assert(views_of(unk_details@) =~= seq!["UNK"@]);
        }
        let mut unknown: Vec<Option<String>> = Vec::new();
        let mut w: usize = 0;
        while w < k
            invariant
                w <= k,
                k == unk_spec.len(),
                unk_spec == unknown_tags_spec(*dictionary, pi as int),
                views_of(unk_details@) == seq!["UNK"@],
                tags_view(unknown@) == unk_spec.take(w as int),
            decreases k - w,
        {
            let t = field_at(&unk_details, pi);
            proof {
                lemma_tags_push(unknown@, t, unk_spec[w as int]);
                assert(unk_spec.take(w + 1) =~= unk_spec.take(w as int).push(unk_spec[w as int]));
            }
            unknown.push(t);
            w += 1;
        }
        assert(unk_spec.take(k as int) =~= unk_spec);
        Self::build_from_tags(
            config,
            system.as_slice(),
            user.as_slice(),
            unknown.as_slice(),
            &dictionary.character_definition,
        )
    }
}

} // verus!
