//! Word identities and lexicon entries as the lattice sees them.
use vstd::prelude::*;

verus! {

/// Which lexicon a word comes from.
#[derive(Debug, Clone, Copy, PartialEq, Eq, Structural)]
pub enum LexType {
    /// The system dictionary.
    System,
    /// A user dictionary.
    User,
    /// Generated for an unknown word.
    Unknown,
}

/// The identity of a word: its lexicon and its id there.
#[derive(Debug, Clone, Copy, PartialEq, Eq, Structural)]
pub struct WordId {
    /// The id within the lexicon.
    pub id: u32,
    /// The lexicon.
    pub lex_type: LexType,
}

impl WordId {
    /// The word `id` of lexicon `lex_type`.
    pub fn new(lex_type: LexType, id: u32) -> (r: Self)
        ensures
            r.id == id,
            r.lex_type == lex_type,
    {
        WordId { id, lex_type }
    }

    /// The id within the lexicon.
    pub fn id(&self) -> (r: u32)
        ensures
            r == self.id,
    {
        self.id
    }

    /// The lexicon.
    pub fn lex_type(&self) -> (r: LexType)
        ensures
            r == self.lex_type,
    {
        self.lex_type
    }

    /// Whether the word comes from the system dictionary.
    pub fn is_system(&self) -> (r: bool)
        ensures
            r == (self.lex_type == LexType::System),
    {
        match self.lex_type {
            LexType::System => true,
            _ => false,
        }
    }
}

/// A lexicon entry: the word, its cost and its context ids.
#[derive(Debug, Clone, Copy, PartialEq, Eq, Structural)]
pub struct WordEntry {
    /// The word.
    pub word_id: WordId,
    /// The cost of the word itself.
    pub word_cost: i16,
    /// The left context id.
    pub left_id: u16,
    /// The right context id.
    pub right_id: u16,
}

impl WordEntry {
    /// An entry from its parts.
    pub fn new(word_id: WordId, word_cost: i16, left_id: u16, right_id: u16) -> (r: Self)
        ensures
            r == (WordEntry { word_id, word_cost, left_id, right_id }),
    {
        WordEntry { word_id, word_cost, left_id, right_id }
    }

    /// The word.
    pub fn word_id(&self) -> (r: WordId)
        ensures
            r == self.word_id,
    {
        self.word_id
    }

    /// The cost of the word itself.
    pub fn word_cost(&self) -> (r: i16)
        ensures
            r == self.word_cost,
    {
        self.word_cost
    }

    /// The left context id.
    pub fn left_id(&self) -> (r: u16)
        ensures
            r == self.left_id,
    {
        self.left_id
    }

    /// The right context id.
    pub fn right_id(&self) -> (r: u16)
        ensures
            r == self.right_id,
    {
        self.right_id
    }

    /// Appends the entry's record to `out`: word id (`u32`), cost (`i16`),
    /// left id and right id (`u16` each), all little-endian.
    pub fn serialize(&self, out: &mut Vec<u8>)
        ensures
            final(out)@ == old(out)@ + entry_record(*self),
    {
        crate::byte_order::push_u32_le(out, self.word_id.id);
        crate::byte_order::push_i16_le(out, self.word_cost);
        crate::byte_order::push_u16_le(out, self.left_id);
        crate::byte_order::push_u16_le(out, self.right_id);
        assert(out@ =~= old(out)@ + entry_record(*self));
    }

    /// Reads an entry from the first record of `data`; `is_system` chooses
    /// between the system and the user lexicon for its word id.
    pub fn deserialize(data: &[u8], is_system: bool) -> (r: WordEntry)
        requires
            data@.len() >= SERIALIZED_LEN,
        ensures
            r == entry_of_record(data@, is_system),
    {
        let id = crate::byte_order::read_u32_le(data, 0);
        let cost = crate::byte_order::read_i16_le(data, 4);
        let left: u16 = (data[6] as u16) + (data[7] as u16) * 256;
        let right: u16 = (data[8] as u16) + (data[9] as u16) * 256;
        let lex_type = if is_system { LexType::System } else { LexType::User };
        WordEntry { word_id: WordId { id, lex_type }, word_cost: cost, left_id: left, right_id: right }
    }
}

/// The length in bytes of an entry's record.
pub const SERIALIZED_LEN: usize = 10;

/// The record of an entry: word id, cost, left id and right id,
/// little-endian.
pub open spec fn entry_record(e: WordEntry) -> Seq<u8> {
    crate::byte_order::u32_le_bytes(e.word_id.id) + seq![
        crate::byte_order::i16_lo(e.word_cost),
        crate::byte_order::i16_hi(e.word_cost),
        (e.left_id % 256) as u8,
        (e.left_id / 256) as u8,
        (e.right_id % 256) as u8,
        (e.right_id / 256) as u8,
    ]
}

/// The entry stored in the first record of `b`.
pub open spec fn entry_of_record(b: Seq<u8>, is_system: bool) -> WordEntry {
    WordEntry {
        word_id: WordId {
            id: crate::byte_order::u32_at(b, 0),
            lex_type: if is_system { LexType::System } else { LexType::User },
        },
        word_cost: crate::byte_order::i16_at(b, 4),
        left_id: crate::byte_order::u16_from_le(b[6], b[7]),
        right_id: crate::byte_order::u16_from_le(b[8], b[9]),
    }
}

/// Reading back the record of an entry gives the entry, its lexicon set
/// by `is_system`.
pub proof fn lemma_entry_record_roundtrip(e: WordEntry, is_system: bool)
    requires
        e.word_id.lex_type == (if is_system { LexType::System } else { LexType::User }),
    ensures
        entry_record(e).len() == SERIALIZED_LEN,
        entry_of_record(entry_record(e), is_system) == e,
{
    let b = entry_record(e);
    let v = e.word_id.id;
    crate::byte_order::lemma_u32_le_roundtrip(v);
    assert(b.subrange(0, 4) =~= crate::byte_order::u32_le_bytes(v));
    assert(crate::byte_order::u32_at(b, 0) == crate::byte_order::u32_at(crate::byte_order::u32_le_bytes(v), 0));
    crate::byte_order::lemma_i16_le_roundtrip(e.word_cost);
    let l = e.left_id;
    let r = e.right_id;
    assert(crate::byte_order::u16_from_le((l % 256) as u8, (l / 256) as u8) == l) by (bit_vector);
    assert(crate::byte_order::u16_from_le((r % 256) as u8, (r / 256) as u8) == r) by (bit_vector);
}

/// An edge of the lattice, as far as the segmentation penalties look at it.
#[derive(Debug, Clone, Copy, PartialEq, Eq, Structural)]
pub struct Edge {
    /// The number of characters the edge spans.
    pub char_count: usize,
    /// Whether every character of the edge is a kanji.
    pub kanji_only: bool,
}

impl Edge {
    /// The number of characters the edge spans.
    pub fn num_chars(&self) -> (r: usize)
        ensures
            r == self.char_count,
    {
        self.char_count
    }
}

} // verus!
