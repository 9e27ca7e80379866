//! Reading the packed word-detail records of a dictionary.
use vstd::prelude::*;

use crate::byte_order::{read_u32_le, u32_at};
use crate::text::{lemma_split_seq_nonempty, split_on, split_seq, views_of};

verus! {

/// The number of zero bytes in `s`.
pub open spec fn count_zero_bytes(s: Seq<u8>) -> int
    decreases s.len(),
{
    if s.len() == 0 {
        0
    } else {
        count_zero_bytes(s.drop_last()) + if s.last() == 0 {
            1int
        } else {
            0int
        }
    }
}

/// The number of fields a NUL-joined detail blob holds: one more than its
/// NUL bytes.
pub fn detail_field_count(joined_details: &[u8]) -> (r: usize)
    requires
        joined_details@.len() < usize::MAX,
    ensures
        r == count_zero_bytes(joined_details@) + 1,
{
    let mut count: usize = 0;
    let mut i: usize = 0;
    while i < joined_details.len()
        invariant
            i <= joined_details@.len(),
            joined_details@.len() < usize::MAX,
            count == count_zero_bytes(joined_details@.take(i as int)),
            count <= i,
        decreases joined_details@.len() - i,
    {
        if joined_details[i] == 0 {
            count += 1;
        }
        i += 1;
        assert(joined_details@.take(i as int).drop_last() =~= joined_details@.take(i - 1));
    }
    assert(joined_details@.take(joined_details@.len() as int) =~= joined_details@);
    count + 1
}

/// The `words_data` offset that `word_id` maps to: the little-endian `u32`
/// in slot `word_id` of the index, or `None` when the index has no such
/// slot.
pub open spec fn words_idx_offset_spec(words_idx_data: Seq<u8>, word_id: int) -> Option<usize> {
    if 4 * word_id + 4 <= words_idx_data.len() {
        Some(u32_at(words_idx_data, 4 * word_id) as usize)
    } else {
        None
    }
}

/// Reads the `words_data` offset of a word id, bounds-checked.
pub fn words_idx_offset(words_idx_data: &[u8], word_id: usize) -> (r: Option<usize>)
    ensures
        r == words_idx_offset_spec(words_idx_data@, word_id as int),
{
    let n = words_idx_data.len();
    let start = match word_id.checked_mul(4) {
        Some(v) => v,
        None => {
            return None;
        },
    };
    let end = match start.checked_add(4) {
        Some(v) => v,
        None => {
            return None;
        },
    };
    if end > n {
        return None;
    }
    Some(read_u32_le(words_idx_data, start) as usize)
}

/// Converts bytes to text when they are valid UTF-8.
///
/// Calls `core::str::from_utf8`; the contract claims that it succeeds
/// exactly on valid UTF-8 and then holds the same bytes.
#[verifier::external_body]
fn str_from_utf8(bytes: &[u8]) -> (r: Option<&str>)
    ensures
        match r {
            Some(s) => vstd::utf8::valid_utf8(bytes@) && vstd::utf8::encode_utf8(s@) == bytes@,
            None => !vstd::utf8::valid_utf8(bytes@),
        },
{
    core::str::from_utf8(bytes).ok()
}

/// The payload of the record at `offset` of `words_data`: a little-endian
/// `u32` length, then that many bytes; `None` when the header or the payload
/// runs past the end.
pub open spec fn record_at(words_data: Seq<u8>, offset: int) -> Option<Seq<u8>> {
    if offset + 4 > words_data.len() {
        None
    } else {
        let len = u32_at(words_data, offset) as int;
        if offset + 4 + len > words_data.len() {
            None
        } else {
            Some(words_data.subrange(offset + 4, offset + 4 + len))
        }
    }
}

/// The joined detail text of the record at `offset`, when the record is in
/// range and its payload is valid UTF-8.
pub fn joined_details_at(words_data: &[u8], offset: usize) -> (r: Option<&str>)
    ensures
        match r {
            Some(s) => record_at(words_data@, offset as int) matches Some(b) && vstd::utf8::valid_utf8(
                b,
            ) && vstd::utf8::encode_utf8(s@) == b,
            None => record_at(words_data@, offset as int) matches Some(b) ==> !vstd::utf8::valid_utf8(
                b,
            ),
        },
{
    let n = words_data.len();
    let header_end = match offset.checked_add(4) {
        Some(v) => v,
        None => {
            return None;
        },
    };
    if header_end > n {
        return None;
    }
    let len = read_u32_le(words_data, offset) as usize;
    let end = match header_end.checked_add(len) {
        Some(v) => v,
        None => {
            return None;
        },
    };
    if end > n {
        return None;
    }
    let bytes = &words_data[header_end..end];
    assert(bytes@ == words_data@.subrange(offset + 4, offset + 4 + len));
    str_from_utf8(bytes)
}

/// The fields of a NUL-joined text: the pieces between the NUL characters,
/// so an empty text is one empty field.
pub open spec fn split_nul(s: Seq<char>) -> Seq<Seq<char>> {
    split_seq(s, '\0')
}

/// The detail fields of one dictionary entry, handed out one at a time.
pub struct DetailFields {
    /// All fields, in schema order.
    pub fields: Vec<String>,
    /// How many fields have been handed out.
    pub pos: usize,
}

/// The text view of each field.
pub open spec fn field_views(fields: Seq<String>) -> Seq<Seq<char>> {
    views_of(fields)
}

impl DetailFields {
    /// The fields that remain to be handed out.
    pub open spec fn remaining(&self) -> Seq<Seq<char>> {
        field_views(self.fields@).skip(self.pos as int)
    }

    /// The fields of a NUL-joined detail text.
    pub fn from_joined(joined: &str) -> (r: Self)
        ensures
            r.remaining() == split_nul(joined@),
            r.remaining().len() >= 1,
            r.pos == 0,
    {
        let fields = split_on(joined, '\0');
        proof {
            lemma_split_seq_nonempty(joined@, '\0');
        }
        let r = DetailFields { fields, pos: 0 };
        assert(r.remaining() =~= split_nul(joined@));
        r
    }

    /// The unknown-word sentinel: the single field `"UNK"`.
    pub fn unk() -> (r: Self)
        ensures
            r.remaining() == seq!["UNK"@],
            r.pos == 0,
    {
        let mut fields: Vec<String> = Vec::new();
        fields.push("UNK".to_owned());
        let r = DetailFields { fields, pos: 0 };
        assert(r.remaining() =~= seq!["UNK"@]);
        r
    }

    /// An entry with no fields at all.
    pub fn empty() -> (r: Self)
        ensures
            r.remaining() == Seq::<Seq<char>>::empty(),
            r.pos == 0,
    {
        let r = DetailFields { fields: Vec::new(), pos: 0 };
        assert(r.remaining() =~= Seq::<Seq<char>>::empty());
        r
    }

    /// The number of fields left.
    pub fn len(&self) -> (r: usize)
        requires
            self.pos <= self.fields@.len(),
        ensures
            r == self.remaining().len(),
    {
        self.fields.len() - self.pos
    }

    /// Hands out the next field, or `None` once all are handed out.
    pub fn next(&mut self) -> (r: Option<String>)
        requires
            old(self).pos <= old(self).fields@.len(),
        ensures
            final(self).pos <= final(self).fields@.len(),
            match r {
                Some(f) => old(self).remaining().len() > 0 && f@ == old(self).remaining()[0]
                    && final(self).remaining() == old(self).remaining().drop_first(),
                None => old(self).remaining().len() == 0 && final(self).remaining() == old(
                    self,
                ).remaining(),
            },
    {
        if self.pos < self.fields.len() {
            let f = self.fields[self.pos].clone();
            self.pos += 1;
            assert(self.remaining() =~= old(self).remaining().drop_first());
            Some(f)
        } else {
            None
        }
    }

    /// All remaining fields, in order.
    pub fn collect_vec(&self) -> (r: Vec<String>)
        requires
            self.pos <= self.fields@.len(),
        ensures
            field_views(r@) == self.remaining(),
    {
        let mut out: Vec<String> = Vec::new();
        let mut i: usize = self.pos;
        while i < self.fields.len()
            invariant
                self.pos <= i <= self.fields@.len(),
                field_views(out@) == field_views(self.fields@).subrange(self.pos as int, i as int),
            decreases self.fields@.len() - i,
        {
            let f = self.fields[i].clone();
            let ghost before = out@;
            out.push(f);
            assert(field_views(out@) =~= field_views(before).push(self.fields@[i as int]@));
            i += 1;
            assert(field_views(out@) =~= field_views(self.fields@).subrange(self.pos as int, i as int));
        }
        assert(field_views(self.fields@).subrange(self.pos as int, self.fields@.len() as int)
            =~= self.remaining());
        out
    }
}

/// The fields of entry `word_id` of a packed dictionary: `missing` when the
/// index has no slot for it, the sentinel `"UNK"` when its record is out of
/// range or not UTF-8, and its NUL-separated fields otherwise.
pub open spec fn packed_details_spec(
    words_idx_data: Seq<u8>,
    words_data: Seq<u8>,
    word_id: int,
    missing: Seq<Seq<char>>,
) -> Seq<Seq<char>> {
    match words_idx_offset_spec(words_idx_data, word_id) {
        None => missing,
        Some(offset) => match record_at(words_data, offset as int) {
            Some(b) => if vstd::utf8::valid_utf8(b) {
                split_nul(vstd::utf8::decode_utf8(b))
            } else {
                seq!["UNK"@]
            },
            None => seq!["UNK"@],
        },
    }
}

/// Looks up the detail fields of one entry of a packed dictionary; `missing`
/// is what a word id with no slot in the index yields.
pub fn packed_details_iter(
    words_idx_data: &[u8],
    words_data: &[u8],
    word_id: usize,
    missing: DetailFields,
) -> (r: DetailFields)
    requires
        missing.pos <= missing.fields@.len(),
    ensures
        r.pos <= r.fields@.len(),
        r.remaining() == packed_details_spec(
            words_idx_data@,
            words_data@,
            word_id as int,
            missing.remaining(),
        ),
{
    let offset = match words_idx_offset(words_idx_data, word_id) {
        Some(offset) => offset,
        None => {
            return missing;
        },
    };
    match joined_details_at(words_data, offset) {
        Some(joined) => {
            proof {
                vstd::utf8::encode_utf8_decode_utf8(joined@);
            }
            DetailFields::from_joined(joined)
        },
        None => DetailFields::unk(),
    }
}

} // verus!
