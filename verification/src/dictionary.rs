pub mod context_id_map;
pub mod connection_cost_matrix;
pub mod character_definition;
pub mod schema;
pub mod unknown_dictionary;
pub mod metadata;
pub mod prefix_dictionary;

use vstd::prelude::*;
use crate::byte_order::u16_from_le;
use crate::dictionary::context_id_map::{ContextIdMap, map_id};
use crate::dictionary::prefix_dictionary::{PrefixDictionary, UserPrefixDictionary};
use crate::dictionary::connection_cost_matrix::ConnectionCostMatrix;
use crate::dictionary::character_definition::CharacterDefinition;
use crate::dictionary::unknown_dictionary::UnknownDictionary;
use crate::dictionary::metadata::Metadata;
use crate::util::{DetailFields, packed_details_iter, packed_details_spec};

verus! {

/// A system dictionary: the lexicon, the connection costs, the character
/// categories, the unknown-word entries and the metadata.
pub struct Dictionary {
    /// The lexicon.
    pub prefix_dictionary: PrefixDictionary,
    /// The connection costs.
    pub connection_cost_matrix: ConnectionCostMatrix,
    /// The character categories.
    pub character_definition: CharacterDefinition,
    /// The unknown-word entries.
    pub unknown_dictionary: UnknownDictionary,
    /// The metadata.
    pub metadata: Metadata,
}

impl Dictionary {
    /// The detail fields of system entry `word_id`, one at a time: none when
    /// the id has no slot in the index, the sentinel `"UNK"` when the record
    /// is malformed.
    pub fn word_details_iter(&self, word_id: usize) -> (r: DetailFields)
        ensures
            r.remaining() == packed_details_spec(
                self.prefix_dictionary.words_idx(),
                self.prefix_dictionary.words(),
                word_id as int,
                Seq::empty(),
            ),
            r.pos <= r.fields@.len(),
    {
        packed_details_iter(
            self.prefix_dictionary.words_idx_bytes(),
            self.prefix_dictionary.words_bytes(),
            word_id,
            DetailFields::empty(),
        )
    }

    /// The detail fields of system entry `word_id`: empty when the id has no
    /// slot in the index, the sentinel `"UNK"` when the record is malformed.
    pub fn word_details(&self, word_id: usize) -> (r: Vec<String>)
        ensures
            crate::util::field_views(r@) == packed_details_spec(
                self.prefix_dictionary.words_idx(),
                self.prefix_dictionary.words(),
                word_id as int,
                Seq::empty(),
            ),
    {
        self.word_details_iter(word_id).collect_vec()
    }
}

/// A user dictionary.
pub struct UserDictionary {
    /// Its prefix dictionary.
    pub dict: UserPrefixDictionary,
}

/// Byte `i` of the values data after remapping the context ids: inside a
/// whole record, the left id (bytes 6 and 7) and the right id (bytes 8 and
/// 9) are mapped through the permutations; every other byte stays.
pub open spec fn remapped_byte(vals: Seq<u8>, map: ContextIdMap, i: int) -> u8 {
    let base = i - i % 10;
    if base + 10 > vals.len() {
        vals[i]
    } else {
        let left = map_id(map.left@, u16_from_le(vals[base + 6], vals[base + 7]));
        let right = map_id(map.right@, u16_from_le(vals[base + 8], vals[base + 9]));
        if i % 10 == 6 {
            (left % 256) as u8
        } else if i % 10 == 7 {
            (left / 256) as u8
        } else if i % 10 == 8 {
            (right % 256) as u8
        } else if i % 10 == 9 {
            (right / 256) as u8
        } else {
            vals[i]
        }
    }
}

/// The values data after remapping the context ids.
pub open spec fn remapped_vals(vals: Seq<u8>, map: ContextIdMap) -> Seq<u8> {
    Seq::new(vals.len(), |i: int| remapped_byte(vals, map, i))
}

impl UserDictionary {
    /// Moves the context ids of the entries into the space of a system
    /// dictionary built with remapped ids: in every whole record of the
    /// values data, the left id goes through `map.left` and the right id
    /// through `map.right`; ids outside a permutation stay.
    pub fn remap_context_ids(&mut self, map: &ContextIdMap)
        ensures
            final(self).dict.vals_data@ == remapped_vals(old(self).dict.vals_data@, *map),
            final(self).dict.words_idx_data@ == old(self).dict.words_idx_data@,
            final(self).dict.words_data@ == old(self).dict.words_data@,
            final(self).dict.is_system == old(self).dict.is_system,
    {
        let ghost orig = self.dict.vals_data@;
        let len = self.dict.vals_data.len();
        let n = len / 10;
        let mut k: usize = 0;
        while k < n
            invariant
                len == orig.len(),
                n == orig.len() / 10,
                k <= n,
                self.dict.vals_data@.len() == orig.len(),
                self.dict.words_idx_data@ == old(self).dict.words_idx_data@,
                self.dict.words_data@ == old(self).dict.words_data@,
                self.dict.is_system == old(self).dict.is_system,
                orig == old(self).dict.vals_data@,
                forall|i: int| 0 <= i < 10 * k ==> #[trigger] self.dict.vals_data@[i] == remapped_byte(orig, *map, i),
                forall|i: int| 10 * k <= i < orig.len() ==> #[trigger] self.dict.vals_data@[i] == orig[i],
            decreases n - k,
        {
            assert(10 * k + 10 <= len) by (nonlinear_arith)
                requires
                    k < n,
                    n == len / 10,
            ;
            let base = 10 * k;
            let left: u16 = (self.dict.vals_data[base + 6] as u16) + (self.dict.vals_data[base + 7] as u16) * 256;
            let right: u16 = (self.dict.vals_data[base + 8] as u16) + (self.dict.vals_data[base + 9] as u16)
                * 256;
            let nl = map.map_left(left);
            let nr = map.map_right(right);
            self.dict.vals_data.set(base + 6, (nl % 256) as u8);
            self.dict.vals_data.set(base + 7, (nl / 256) as u8);
            self.dict.vals_data.set(base + 8, (nr % 256) as u8);
            self.dict.vals_data.set(base + 9, (nr / 256) as u8);
            proof {
                assert forall|i: int| 0 <= i < 10 * (k + 1) implies #[trigger] self.dict.vals_data@[i]
                    == remapped_byte(orig, *map, i) by {
                    if i >= 10 * k {
                        assert(i - i % 10 == 10 * k) by (nonlinear_arith)
                            requires
                                10 * k <= i < 10 * k + 10,
                        ;
                        assert(i % 10 == i - 10 * k) by (nonlinear_arith)
                            requires
                                10 * k <= i < 10 * k + 10,
                        ;
                    }
                }
            }
            k += 1;
        }
        proof {
            assert forall|i: int| 0 <= i < orig.len() implies #[trigger] self.dict.vals_data@[i] == remapped_byte(
                orig,
                *map,
                i,
            ) by {
                if i >= 10 * n {
                    assert(i - i % 10 + 10 > orig.len()) by (nonlinear_arith)
                        requires
                            10 * n <= i < orig.len(),
                            n == orig.len() / 10,
                    ;
                }
            }
            assert(self.dict.vals_data@ =~= remapped_vals(orig, *map));
        }
    }

    /// The detail fields of entry `word_id`, one at a time: the sentinel
    /// `"UNK"` when the id is out of range or the record is malformed.
    pub fn word_details_iter(&self, word_id: usize) -> (r: DetailFields)
        ensures
            r.remaining() == packed_details_spec(
                self.dict.words_idx_data@,
                self.dict.words_data@,
                word_id as int,
                seq!["UNK"@],
            ),
            r.pos <= r.fields@.len(),
    {
        let r = packed_details_iter(
            self.dict.words_idx_data.as_slice(),
            self.dict.words_data.as_slice(),
            word_id,
            DetailFields::unk(),
        );
        r
    }

    /// The detail fields of entry `word_id`: the sentinel `"UNK"` when the id
    /// is out of range or the record is malformed.
    pub fn word_details(&self, word_id: usize) -> (r: Vec<String>)
        ensures
            crate::util::field_views(r@) == packed_details_spec(
                self.dict.words_idx_data@,
                self.dict.words_data@,
                word_id as int,
                seq!["UNK"@],
            ),
    {
        self.word_details_iter(word_id).collect_vec()
    }
}

} // verus!
