//! Building the unknown-word dictionary from `unk.def`.
use vstd::prelude::*;

use crate::dictionary::character_definition::CharacterDefinition;
use crate::dictionary::context_id_map::{map_id, ContextIdMap};
use crate::dictionary::unknown_dictionary::{
    category_refs_of,
    entry_spec, parse_unk, unk_lines_have_fields, UnknownDictionary,
};
use crate::text::{lines_spec, split_seq};
use crate::viterbi::{LexType, WordEntry, WordId};
use crate::LinderaResult;

verus! {

/// Builds the unknown-word dictionary.
#[derive(Debug, Clone)]
pub struct UnknownDictionaryBuilder {
    /// Character encoding of `unk.def`.
    pub encoding: String,
    /// Optional context-ID remap applied to each entry's ids.
    pub context_id_remap: Option<ContextIdMap>,
}

/// Options for [`UnknownDictionaryBuilder`]; every one has a default.
#[derive(Debug, Clone)]
pub struct UnknownDictionaryBuilderOptions {
    /// Character encoding of `unk.def` (default `UTF-8`).
    pub encoding: Option<String>,
    /// Optional context-ID remap.
    pub context_id_remap: Option<ContextIdMap>,
}

impl UnknownDictionaryBuilderOptions {
    /// No option set.
    pub fn new() -> (r: Self)
        ensures
            r.encoding is None,
            r.context_id_remap is None,
    {
        UnknownDictionaryBuilderOptions { encoding: None, context_id_remap: None }
    }

    /// Sets the encoding of `unk.def`.
    pub fn encoding(&mut self, value: String) -> (r: &mut Self)
        ensures
            r.encoding == Some(value),
            r.context_id_remap == old(self).context_id_remap,
            *final(self) == *final(r),
    {
        self.encoding = Some(value);
        self
    }

    /// Sets the context-ID remap.
    pub fn context_id_remap(&mut self, value: Option<ContextIdMap>) -> (r: &mut Self)
        ensures
            r.context_id_remap == value,
            r.encoding == old(self).encoding,
            *final(self) == *final(r),
    {
        self.context_id_remap = value;
        self
    }

    /// The builder these options describe; the encoding defaults to `UTF-8`.
    pub fn builder(&self) -> (r: UnknownDictionaryBuilder)
        ensures
            r.encoding@ == match self.encoding {
                Some(e) => e@,
                None => "UTF-8"@,
            },
            r.context_id_remap is Some <==> self.context_id_remap is Some,
            self.context_id_remap matches Some(m) ==> r.context_id_remap matches Some(n) && n.left@
                == m.left@ && n.right@ == m.right@,
    {
        let encoding = match &self.encoding {
            Some(e) => e.clone(),
            None => "UTF-8".to_owned(),
        };
        let context_id_remap = match &self.context_id_remap {
            Some(m) => Some(ContextIdMap { left: m.left.clone(), right: m.right.clone() }),
            None => None,
        };
        UnknownDictionaryBuilder { encoding, context_id_remap }
    }
}

/// An entry with its context ids remapped.
pub open spec fn remap_entry(e: WordEntry, remap: Option<ContextIdMap>) -> WordEntry {
    match remap {
        Some(m) => WordEntry {
            left_id: map_id(m.left@, e.left_id),
            right_id: map_id(m.right@, e.right_id),
            ..e
        },
        None => e,
    }
}

impl UnknownDictionaryBuilder {
    /// Parses the text of `unk.def` against the categories of `chardef`, with
    /// this builder's remap applied to every entry's context ids.
    pub fn build(&self, chardef: &CharacterDefinition, unk_text: &str) -> (r: LinderaResult<
        UnknownDictionary,
    >)
        requires
            unk_lines_have_fields(unk_text@),
            lines_spec(unk_text@).len() <= u32::MAX + 1,
        ensures
            match r {
                Ok(d) => {
                    &&& d.costs@.len() == lines_spec(unk_text@).len()
                    &&& category_refs_of(
                        chardef.category_names@,
                        unk_text@,
                        d.costs@.len() as int,
                        d.category_references@,
                    )
                    &&& forall|i: int|
                        0 <= i < d.costs@.len() ==> (entry_spec(
                            split_seq(lines_spec(unk_text@)[i], ','),
                        ) matches Some((name, l, rr, c)) && #[trigger] d.costs@[i] == remap_entry(
                            WordEntry {
                                word_id: WordId { id: u32::MAX, lex_type: LexType::Unknown },
                                word_cost: c as i16,
                                left_id: l as u16,
                                right_id: rr as u16,
                            },
                            self.context_id_remap,
                        ))
                },
                Err(e) => e.kind == crate::error::LinderaErrorKind::Parse && exists|i: int|
                    0 <= i < lines_spec(unk_text@).len() && entry_spec(
                        split_seq(#[trigger] lines_spec(unk_text@)[i], ','),
                    ) is None,
            },
    {
        let parsed = parse_unk(chardef.categories(), unk_text);
        let mut dict = match parsed {
            Ok(d) => d,
            Err(e) => {
                return Err(e);
            },
        };
        match &self.context_id_remap {
            Some(m) => {
                let ghost before = dict.costs@;
                let n = dict.costs.len();
                let mut i: usize = 0;
                while i < n
                    invariant
                        n == dict.costs@.len(),
                        n == before.len(),
                        n == lines_spec(unk_text@).len(),
                        category_refs_of(chardef.category_names@, unk_text@, n as int, dict.category_references@),
                        forall|k: int|
                            0 <= k < n ==> (entry_spec(
                                split_seq(lines_spec(unk_text@)[k], ','),
                            ) matches Some((name, l, rr, c)) && #[trigger] before[k] == (WordEntry {
                                word_id: WordId { id: u32::MAX, lex_type: LexType::Unknown },
                                word_cost: c as i16,
                                left_id: l as u16,
                                right_id: rr as u16,
                            })),
                        i <= n,
                        self.context_id_remap == Some(*m),
                        forall|k: int|
                            0 <= k < i ==> #[trigger] dict.costs@[k] == remap_entry(
                                before[k],
                                self.context_id_remap,
                            ),
                        forall|k: int| i <= k < n ==> #[trigger] dict.costs@[k] == before[k],
                    decreases n - i,
                {
                    let e = dict.costs[i];
                    let left_id = m.map_left(e.left_id);
                    let right_id = m.map_right(e.right_id);
                    dict.costs.set(i, WordEntry { left_id, right_id, ..e });
                    i += 1;
                }
                Ok(dict)
            },
            None => Ok(dict),
        }
    }
}

} // verus!
