//! Building user dictionaries from their CSV rows.
use vstd::prelude::*;
use crate::LinderaResult;
use crate::byte_order::u32_at;
use crate::dictionary::UserDictionary;
use crate::dictionary::metadata::Metadata;
use crate::dictionary::prefix_dictionary::{
    UserPrefixDictionary,
    build_automaton_bytes,
    daachorse_automaton_of,
    entry_records,
    packed_value,
};
use crate::dictionary::schema::{Schema, last_index_of};
use crate::error::{LinderaErrorKind, error_of};
use crate::text::{views_of, parse_int_spec, parse_decimal, chars_of, join_spec, join_with, str_eq};
use crate::viterbi::{WordEntry, WordId, LexType};

verus! {

/// The names of the custom fields of a schema: its columns from the fifth on.
pub open spec fn custom_field_names(fields: Seq<String>) -> Seq<Seq<char>> {
    if fields.len() > 4 {
        views_of(fields.skip(4))
    } else {
        Seq::empty()
    }
}

/// How the details of a simple user dictionary row are laid out in the
/// system dictionary's schema: for each custom field of `dict_schema`, the
/// row's column of the same name in `user_schema`, or `default_field_value`
/// when the user schema has no such field or the row no such column.
pub struct UserDetailMapping {
    /// The schema of the user dictionary's rows.
    pub user_schema: Schema,
    /// The schema of the system dictionary.
    pub dict_schema: Schema,
    /// The value of a field the row does not give.
    pub default_field_value: String,
}

impl UserDetailMapping {
    /// The value of the field called `name` for `row`.
    pub open spec fn field_for(self, row: Seq<String>, name: Seq<char>) -> Seq<char> {
        match last_index_of(self.user_schema.fields@, name, self.user_schema.fields@.len() as int) {
            Some(idx) => if idx < row.len() {
                row[idx]@
            } else {
                self.default_field_value@
            },
            None => self.default_field_value@,
        }
    }

    /// The detail fields of a simple row.
    pub open spec fn details_spec(self, row: Seq<String>) -> Seq<Seq<char>> {
        custom_field_names(self.dict_schema.fields@).map_values(|n: Seq<char>| self.field_for(row, n))
    }

    /// A mapping between the two schemas.
    pub fn new(user_schema: Schema, dict_schema: Schema, default_field_value: String) -> (r: Self)
        ensures
            r.user_schema == user_schema,
            r.dict_schema == dict_schema,
            r.default_field_value == default_field_value,
    {
        UserDetailMapping { user_schema, dict_schema, default_field_value }
    }

    /// The detail fields of a simple row, in the system dictionary's schema.
    pub fn map_details(&self, row: &[String]) -> (r: Vec<String>)
        ensures
            views_of(r@) == self.details_spec(row@),
    {
        let custom = self.dict_schema.get_custom_fields();
        let ghost names = custom_field_names(self.dict_schema.fields@);
        assert(views_of(custom@) =~= names);
        let mut out: Vec<String> = Vec::new();
        let mut i: usize = 0;
        while i < custom.len()
            invariant
                i <= custom@.len(),
                views_of(custom@) == names,
                names == custom_field_names(self.dict_schema.fields@),
                views_of(out@) == self.details_spec(row@).take(i as int),
            decreases custom@.len() - i,
        {
            let value = match self.user_schema.get_field_index(custom[i].as_str()) {
                Some(idx) => if idx < row.len() {
                    row[idx].clone()
                } else {
                    self.default_field_value.clone()
                },
                None => self.default_field_value.clone(),
            };
            let ghost before = out@;
            out.push(value);
            assert(views_of(out@) =~= views_of(before).push(value@));
            assert(views_of(custom@).len() == custom@.len());
            assert(names.len() == custom@.len());
            assert(names[i as int] == custom@[i as int]@);
            assert(self.details_spec(row@)[i as int] == self.field_for(row@, custom@[i as int]@));
            assert(value@ == self.field_for(row@, custom@[i as int]@));
            assert(views_of(out@) =~= self.details_spec(row@).take(i + 1));
            i += 1;
        }
        assert(self.details_spec(row@).take(custom@.len() as int) =~= self.details_spec(row@));
        out
    }
}

/// Builds user dictionaries from CSV rows. A row holds either exactly
/// `user_dictionary_fields_num` columns (a simple row: surface and details,
/// with the default cost and context ids), or at least
/// `dictionary_fields_num` columns (a detailed row: surface, left id, right
/// id, cost and details).
pub struct UserDictionaryBuilder {
    /// The number of columns of a simple row.
    pub user_dictionary_fields_num: usize,
    /// The least number of columns of a detailed row.
    pub dictionary_fields_num: usize,
    /// The cost of the word of a simple row.
    pub default_word_cost: i16,
    /// The left context id of a simple row.
    pub default_left_context_id: u16,
    /// The right context id of a simple row.
    pub default_right_context_id: u16,
    /// Whether CSV records may differ in their number of fields.
    pub flexible_csv: bool,
    /// How the details of a simple row are laid out; without it, its columns
    /// after the surface.
    pub user_dictionary_handler: Option<UserDetailMapping>,
}

/// Options for a [`UserDictionaryBuilder`]; every one has a default.
pub struct UserDictionaryBuilderOptions {
    pub user_dictionary_fields_num: Option<usize>,
    pub dictionary_fields_num: Option<usize>,
    pub default_word_cost: Option<i16>,
    pub default_left_context_id: Option<u16>,
    pub default_right_context_id: Option<u16>,
    pub flexible_csv: Option<bool>,
    pub user_dictionary_handler: Option<UserDetailMapping>,
}

impl Default for UserDictionaryBuilderOptions {
    fn default() -> (r: Self)
        ensures
            r.user_dictionary_fields_num is None,
            r.dictionary_fields_num is None,
            r.default_word_cost is None,
            r.default_left_context_id is None,
            r.default_right_context_id is None,
            r.flexible_csv is None,
            r.user_dictionary_handler is None,
    {
        UserDictionaryBuilderOptions {
            user_dictionary_fields_num: None,
            dictionary_fields_num: None,
            default_word_cost: None,
            default_left_context_id: None,
            default_right_context_id: None,
            flexible_csv: None,
            user_dictionary_handler: None,
        }
    }
}

impl UserDictionaryBuilderOptions {
    /// Sets the number of columns of a simple row.
    pub fn user_dictionary_fields_num(self, value: usize) -> (r: Self)
        ensures
            r == (UserDictionaryBuilderOptions { user_dictionary_fields_num: Some(value), ..self }),
    {
        UserDictionaryBuilderOptions { user_dictionary_fields_num: Some(value), ..self }
    }

    /// Sets the least number of columns of a detailed row.
    pub fn dictionary_fields_num(self, value: usize) -> (r: Self)
        ensures
            r == (UserDictionaryBuilderOptions { dictionary_fields_num: Some(value), ..self }),
    {
        UserDictionaryBuilderOptions { dictionary_fields_num: Some(value), ..self }
    }

    /// Sets the cost of the word of a simple row.
    pub fn default_word_cost(self, value: i16) -> (r: Self)
        ensures
            r == (UserDictionaryBuilderOptions { default_word_cost: Some(value), ..self }),
    {
        UserDictionaryBuilderOptions { default_word_cost: Some(value), ..self }
    }

    /// Sets the left context id of a simple row.
    pub fn default_left_context_id(self, value: u16) -> (r: Self)
        ensures
            r == (UserDictionaryBuilderOptions { default_left_context_id: Some(value), ..self }),
    {
        UserDictionaryBuilderOptions { default_left_context_id: Some(value), ..self }
    }

    /// Sets the right context id of a simple row.
    pub fn default_right_context_id(self, value: u16) -> (r: Self)
        ensures
            r == (UserDictionaryBuilderOptions { default_right_context_id: Some(value), ..self }),
    {
        UserDictionaryBuilderOptions { default_right_context_id: Some(value), ..self }
    }

    /// Sets whether CSV records may differ in their number of fields.
    pub fn flexible_csv(self, value: bool) -> (r: Self)
        ensures
            r == (UserDictionaryBuilderOptions { flexible_csv: Some(value), ..self }),
    {
        UserDictionaryBuilderOptions { flexible_csv: Some(value), ..self }
    }

    /// Sets how the details of a simple row are laid out.
    pub fn user_dictionary_handler(self, value: Option<UserDetailMapping>) -> (r: Self)
        ensures
            r == (UserDictionaryBuilderOptions { user_dictionary_handler: value, ..self }),
    {
        UserDictionaryBuilderOptions { user_dictionary_handler: value, ..self }
    }

    /// The builder: 3 columns for a simple row, at least 12 for a detailed
    /// one, cost -10000 and context ids 0 for simple rows, flexible CSV and
    /// no detail mapping, where not set otherwise.
    pub fn builder(self) -> (r: UserDictionaryBuilder)
        ensures
            r.user_dictionary_fields_num == match self.user_dictionary_fields_num {
                Some(v) => v,
                None => 3usize,
            },
            r.dictionary_fields_num == match self.dictionary_fields_num {
                Some(v) => v,
                None => 12usize,
            },
            r.default_word_cost == match self.default_word_cost {
                Some(v) => v,
                None => -10000i16,
            },
            r.default_left_context_id == match self.default_left_context_id {
                Some(v) => v,
                None => 0u16,
            },
            r.default_right_context_id == match self.default_right_context_id {
                Some(v) => v,
                None => 0u16,
            },
            r.flexible_csv == match self.flexible_csv {
                Some(v) => v,
                None => true,
            },
            r.user_dictionary_handler == self.user_dictionary_handler,
    {
        UserDictionaryBuilder {
            user_dictionary_fields_num: match self.user_dictionary_fields_num {
                Some(v) => v,
                None => 3,
            },
            dictionary_fields_num: match self.dictionary_fields_num {
                Some(v) => v,
                None => 12,
            },
            default_word_cost: match self.default_word_cost {
                Some(v) => v,
                None => -10000,
            },
            default_left_context_id: match self.default_left_context_id {
                Some(v) => v,
                None => 0,
            },
            default_right_context_id: match self.default_right_context_id {
                Some(v) => v,
                None => 0,
            },
            flexible_csv: match self.flexible_csv {
                Some(v) => v,
                None => true,
            },
            user_dictionary_handler: self.user_dictionary_handler,
        }
    }
}

} // verus!

verus! {

/// Where record `i` starts when the payloads are written back to back, each
/// after its 4-byte length.
pub open spec fn record_start(payloads: Seq<Seq<u8>>, i: int) -> int
    decreases i,
{
    if i <= 0 {
        0
    } else {
        record_start(payloads, i - 1) + 4 + payloads[i - 1].len()
    }
}

/// Whether `data` and `idx` hold the first `n` payloads: `idx` one
/// little-endian `u32` offset per payload, `data` per payload its
/// little-endian `u32` length and its bytes, back to back.
pub open spec fn records_written(payloads: Seq<Seq<u8>>, n: int, data: Seq<u8>, idx: Seq<u8>) -> bool {
    &&& idx.len() == 4 * n
    &&& data.len() == record_start(payloads, n)
    &&& forall|i: int|
        0 <= i < n ==> {
            let off = record_start(payloads, i);
            &&& #[trigger] u32_at(idx, 4 * i) == off as u32
            &&& u32_at(data, off) == payloads[i].len()
            &&& data.subrange(off + 4, off + 4 + payloads[i].len()) == payloads[i]
        }
}

proof fn lemma_record_start_monotone(payloads: Seq<Seq<u8>>, i: int, j: int)
    requires
        0 <= i <= j,
    ensures
        0 <= record_start(payloads, i),
        record_start(payloads, i) + (if i < j {
            4 + payloads[i].len()
        } else {
            0
        }) <= record_start(payloads, j),
    decreases j,
{
    lemma_record_start_nonneg(payloads, i);
    if i < j {
        lemma_record_start_monotone(payloads, i, j - 1);
    }
}

proof fn lemma_record_start_nonneg(payloads: Seq<Seq<u8>>, i: int)
    ensures
        0 <= record_start(payloads, i),
    decreases i,
{
    if i > 0 {
        lemma_record_start_nonneg(payloads, i - 1);
    }
}

proof fn lemma_records_step(
    payloads: Seq<Seq<u8>>,
    i: int,
    d0: Seq<u8>,
    i0: Seq<u8>,
    d1: Seq<u8>,
    data: Seq<u8>,
    idx: Seq<u8>,
)
    requires
        0 <= i < payloads.len(),
        records_written(payloads, i, d0, i0),
        idx.len() == i0.len() + 4,
        idx.subrange(0, i0.len() as int) == i0,
        u32_at(idx, i0.len() as int) == d0.len() as u32,
        d1.len() == d0.len() + 4,
        d1.subrange(0, d0.len() as int) == d0,
        u32_at(d1, d0.len() as int) == payloads[i].len(),
        data == d1 + payloads[i],
    ensures
        records_written(payloads, i + 1, data, idx),
{
    let bytes = payloads[i];
    assert(record_start(payloads, i + 1) == d0.len() + 4 + bytes.len());
    assert(data.subrange(0, d1.len() as int) =~= d1);
    assert(data.subrange(0, d0.len() as int) =~= d0);
    assert forall|t: int| 0 <= t < i + 1 implies {
        let off = record_start(payloads, t);
        &&& #[trigger] u32_at(idx, 4 * t) == off as u32
        &&& u32_at(data, off) == payloads[t].len()
        &&& data.subrange(off + 4, off + 4 + payloads[t].len()) == payloads[t]
    } by {
        let off = record_start(payloads, t);
        let p = payloads[t];
        if t < i {
            lemma_record_start_monotone(payloads, t, i);
            assert(off + 4 + p.len() <= d0.len());
            assert(idx[4 * t] == i0[4 * t]);
            assert(idx[4 * t + 1] == i0[4 * t + 1]);
            assert(idx[4 * t + 2] == i0[4 * t + 2]);
            assert(idx[4 * t + 3] == i0[4 * t + 3]);
            assert(u32_at(i0, 4 * t) == off as u32);
            let pre = data.subrange(0, d0.len() as int);
            assert(pre[off] == data[off]);
            assert(pre[off + 1] == data[off + 1]);
            assert(pre[off + 2] == data[off + 2]);
            assert(pre[off + 3] == data[off + 3]);
            assert(u32_at(d0, off) == p.len());
            assert(data.subrange(off + 4, off + 4 + p.len()) =~= pre.subrange(off + 4, off + 4 + p.len()));
            assert(d0.subrange(off + 4, off + 4 + p.len()) == p);
        } else {
            lemma_record_start_nonneg(payloads, i);
            assert(t == i);
            assert(off == d0.len());
            assert(4 * t == i0.len());
            let pre = data.subrange(0, d1.len() as int);
            assert(pre[off] == data[off]);
            assert(pre[off + 1] == data[off + 1]);
            assert(pre[off + 2] == data[off + 2]);
            assert(pre[off + 3] == data[off + 3]);
            assert(data.subrange(off + 4, off + 4 + p.len()) =~= bytes);
        }
    }
}

/// Appends the bytes of `bytes` to `out`.
fn append_bytes(out: &mut Vec<u8>, bytes: &[u8])
    ensures
        final(out)@ == old(out)@ + bytes@,
{
    let mut i: usize = 0;
    while i < bytes.len()
        invariant
            i <= bytes@.len(),
            out@ == old(out)@ + bytes@.take(i as int),
        decreases bytes@.len() - i,
    {
        out.push(bytes[i]);
        i += 1;
        assert(out@ =~= old(out)@ + bytes@.take(i as int));
    }
    assert(bytes@.take(bytes@.len() as int) =~= bytes@);
}

/// Whether the rows come in ascending order of their surfaces.
pub open spec fn sorted_by_surface(rows: Seq<Vec<String>>) -> bool {
    forall|i: int, j: int|
        0 <= i < j < rows.len() ==> !crate::text::seq_lt(
            (#[trigger] rows[j])@[0]@,
            (#[trigger] rows[i])@[0]@,
        )
}

/// The runs of equal surfaces in the rows: per run its surface, the index
/// of its first row and its number of rows.
pub open spec fn surface_groups(rows: Seq<Vec<String>>) -> Seq<(Seq<char>, int, int)>
    decreases rows.len(),
{
    if rows.len() == 0 {
        Seq::empty()
    } else {
        let g = surface_groups(rows.drop_last());
        let s = rows.last()@[0]@;
        if g.len() > 0 && g.last().0 == s {
            g.update(g.len() - 1, (s, g.last().1, g.last().2 + 1))
        } else {
            g.push((s, rows.len() - 1, 1))
        }
    }
}

/// Whether every run's first index fits 24 bits and its length 8 bits.
pub open spec fn groups_packable(groups: Seq<(Seq<char>, int, int)>) -> bool {
    forall|k: int| 0 <= k < groups.len() ==> (#[trigger] groups[k]).1 < 0x100_0000 && groups[k].2 < 0x100
}

/// The keyset of the automaton: per run, the UTF-8 bytes of its surface and
/// the packed id of its first entry and its number of entries.
pub open spec fn user_keyset(rows: Seq<Vec<String>>) -> Seq<(Seq<u8>, u32)> {
    surface_groups(rows).map_values(
        |g: (Seq<char>, int, int)| (vstd::utf8::encode_utf8(g.0), packed_value(g.1 as u32, g.2 as u32)),
    )
}

impl UserDictionaryBuilder {
    /// Whether a row is simple: exactly `user_dictionary_fields_num` columns.
    pub open spec fn is_simple(self, row: Seq<String>) -> bool {
        row.len() == self.user_dictionary_fields_num
    }

    /// Whether a row has a number of columns the builder accepts.
    pub open spec fn arity_ok(self, row: Seq<String>) -> bool {
        self.is_simple(row) || row.len() >= self.dictionary_fields_num
    }

    /// Whether a row can be read without indexing past its columns.
    pub open spec fn row_readable(self, row: Seq<String>) -> bool {
        row.len() >= 1 && (self.arity_ok(row) && !self.is_simple(row) ==> row.len() >= 4)
    }

    /// The cost and context ids of a row: the defaults for a simple row,
    /// columns 3, 1 and 2 parsed as `i16`, `u16` and `u16` for a detailed
    /// one, `None` when one of them does not parse.
    pub open spec fn row_values(self, row: Seq<String>) -> Option<(i16, u16, u16)> {
        if self.is_simple(row) {
            Some((self.default_word_cost, self.default_left_context_id, self.default_right_context_id))
        } else {
            match (
                parse_int_spec(row[3]@, true, i16::MIN as int, i16::MAX as int),
                parse_int_spec(row[1]@, false, 0, u16::MAX as int),
                parse_int_spec(row[2]@, false, 0, u16::MAX as int),
            ) {
                (Some(c), Some(l), Some(r)) => Some((c as i16, l as u16, r as u16)),
                _ => None,
            }
        }
    }

    /// The detail fields a row stores: for a simple row, the mapped fields
    /// or, without a mapping, its columns after the surface; for a detailed
    /// row, its columns from the fifth on.
    pub open spec fn row_details(self, row: Seq<String>) -> Seq<Seq<char>> {
        if self.is_simple(row) {
            match self.user_dictionary_handler {
                Some(h) => h.details_spec(row),
                None => views_of(row.skip(1)),
            }
        } else {
            views_of(row.skip(4))
        }
    }

    /// The UTF-8 bytes of a row's details joined with NUL.
    pub open spec fn payload(self, row: Seq<String>) -> Seq<u8> {
        vstd::utf8::encode_utf8(join_spec(self.row_details(row), '\0'))
    }

    /// The payloads of the rows.
    pub open spec fn payloads(self, rows: Seq<Vec<String>>) -> Seq<Seq<u8>> {
        rows.map_values(|row: Vec<String>| self.payload(row@))
    }

    /// The entry of row `i`: a user word with id `i`, the row's cost and
    /// context ids.
    pub open spec fn entry_at(self, rows: Seq<Vec<String>>, i: int) -> WordEntry {
        let v = self.row_values(rows[i]@)->0;
        WordEntry {
            word_id: WordId { id: i as u32, lex_type: LexType::User },
            word_cost: v.0,
            left_id: v.1,
            right_id: v.2,
        }
    }

    /// The entries of the rows, in order.
    pub open spec fn entries(self, rows: Seq<Vec<String>>) -> Seq<WordEntry> {
        Seq::new(rows.len(), |i: int| self.entry_at(rows, i))
    }

    /// What building from the (sorted) rows gives: the entries' records, the
    /// detail records and an automaton over the surfaces, or an error of the
    /// kind of its cause.
    pub open spec fn built_from_sorted(self, rows: Seq<Vec<String>>, r: LinderaResult<UserDictionary>) -> bool {
        match r {
            Ok(d) => {
                &&& d.dict.vals_data@ == entry_records(self.entries(rows))
                &&& daachorse_automaton_of(user_keyset(rows)) == Some(d.dict.da_bytes@)
                &&& records_written(self.payloads(rows), rows.len() as int, d.dict.words_data@, d.dict.words_idx_data@)
                &&& groups_packable(surface_groups(rows))
                &&& daachorse_automaton_of(user_keyset(rows)) is Some
                &&& !d.dict.is_system
                &&& forall|i: int| 0 <= i < rows.len() ==> #[trigger] self.row_values(rows[i]@) is Some
                &&& forall|i: int| 0 <= i < rows.len() ==> #[trigger] self.payload(rows[i]@).len() <= u32::MAX
            },
            Err(e) => {
                ||| e.kind == LinderaErrorKind::Parse && exists|i: int|
                    0 <= i < rows.len() && #[trigger] self.row_values(rows[i]@) is None
                ||| e.kind == LinderaErrorKind::Serialize && exists|i: int|
                    0 <= i < rows.len() && #[trigger] self.payload(rows[i]@).len() > u32::MAX
                ||| e.kind == LinderaErrorKind::Build && (!groups_packable(surface_groups(rows))
                    || daachorse_automaton_of(user_keyset(rows)) is None)
            },
        }
    }
}

} // verus!

verus! {

impl UserDictionaryBuilder {
    /// The cost and context ids of a row; a detailed row whose cost or ids
    /// do not parse is a parse error.
    fn parse_row_values(&self, row: &[String]) -> (r: LinderaResult<(i16, u16, u16)>)
        requires
            self.row_readable(row@),
            self.arity_ok(row@),
        ensures
            match r {
                Ok(v) => self.row_values(row@) == Some(v),
                Err(e) => self.row_values(row@) is None && e.kind == LinderaErrorKind::Parse,
            },
    {
        if row.len() == self.user_dictionary_fields_num {
            return Ok((self.default_word_cost, self.default_left_context_id, self.default_right_context_id));
        }
        let cost = parse_decimal(chars_of(row[3].as_str()).as_slice(), true, -32768, 32767);
        let left = parse_decimal(chars_of(row[1].as_str()).as_slice(), false, 0, 65535);
        let right = parse_decimal(chars_of(row[2].as_str()).as_slice(), false, 0, 65535);
        match cost {
            None => Err(error_of(LinderaErrorKind::Parse, "failed to parse word cost")),
            Some(c) => match left {
                None => Err(error_of(LinderaErrorKind::Parse, "failed to parse left context id")),
                Some(l) => match right {
                    None => Err(error_of(LinderaErrorKind::Parse, "failed to parse right context id")),
                    Some(rr) => Ok((c as i16, l as u16, rr as u16)),
                },
            },
        }
    }

    /// The detail fields of a row.
    fn detail_strings(&self, row: &[String]) -> (r: Vec<String>)
        requires
            self.row_readable(row@),
            self.arity_ok(row@),
        ensures
            views_of(r@) == self.row_details(row@),
    {
        if row.len() == self.user_dictionary_fields_num {
            match &self.user_dictionary_handler {
                Some(h) => {
                    return h.map_details(row);
                },
                None => {},
            }
        }
        let start: usize = if row.len() == self.user_dictionary_fields_num {
            1
        } else {
            4
        };
        let mut out: Vec<String> = Vec::new();
        let mut j: usize = start;
        while j < row.len()
            invariant
                start <= j <= row@.len(),
                views_of(out@) == views_of(row@.skip(start as int)).take(j - start),
            decreases row@.len() - j,
        {
            let ghost before = out@;
            let f = row[j].clone();
            out.push(f);
            assert(views_of(out@) =~= views_of(before).push(row@[j as int]@));
            assert(views_of(row@.skip(start as int))[j - start] == row@[j as int]@);
            assert(views_of(row@.skip(start as int)).take(j + 1 - start) =~= views_of(row@.skip(start as int)).take(
                j - start,
            ).push(row@[j as int]@));
            assert(views_of(out@) =~= views_of(row@.skip(start as int)).take(j + 1 - start));
            j += 1;
        }
        assert(views_of(row@.skip(start as int)).take(row@.len() - start) =~= views_of(row@.skip(start as int)));
        out
    }

    /// Builds the user dictionary from its rows, taken in the given order (the
    /// order of their surfaces): row `i` becomes the user word `i`, its cost
    /// and context ids in the values data and its details in the word data;
    /// each run of rows with one surface becomes a key of the automaton,
    /// whose value packs the run's first word id and its length.
    pub fn build_sorted(&self, rows: &[Vec<String>]) -> (r: LinderaResult<UserDictionary>)
        requires
            rows@.len() <= u32::MAX,
            forall|i: int| 0 <= i < rows@.len() ==> #[trigger] self.row_readable(rows@[i]@),
            forall|i: int| 0 <= i < rows@.len() ==> #[trigger] self.arity_ok(rows@[i]@),
        ensures
            self.built_from_sorted(rows@, r),
            ((forall|i: int| 0 <= i < rows@.len() ==> #[trigger] self.row_values(rows@[i]@) is Some) && (forall|
                i: int,
            |
                0 <= i < rows@.len() ==> #[trigger] self.payload(rows@[i]@).len() <= u32::MAX) && groups_packable(
                surface_groups(rows@),
            ) && daachorse_automaton_of(user_keyset(rows@)) is Some) ==> r is Ok,
    {
        let n = rows.len();
        // The entries: cost and context ids of every row.
        let mut vals: Vec<u8> = Vec::new();
        let mut i: usize = 0;
        while i < n
            invariant
                n == rows@.len(),
                n <= u32::MAX,
                i <= n,
                forall|k: int| 0 <= k < rows@.len() ==> #[trigger] self.row_readable(rows@[k]@),
                forall|k: int| 0 <= k < rows@.len() ==> #[trigger] self.arity_ok(rows@[k]@),
                forall|k: int| 0 <= k < i ==> #[trigger] self.row_values(rows@[k]@) is Some,
                vals@ == entry_records(self.entries(rows@).take(i as int)),
            decreases n - i,
        {
            let v = match self.parse_row_values(rows[i].as_slice()) {
                Ok(v) => v,
                Err(e) => {
                    assert(self.row_values(rows@[i as int]@) is None);
                    return Err(e);
                },
            };
            let entry = WordEntry::new(WordId::new(LexType::User, i as u32), v.0, v.1, v.2);
            entry.serialize(&mut vals);
            proof {
                assert(entry == self.entry_at(rows@, i as int));
                let es = self.entries(rows@);
                assert(es.take(i + 1).drop_last() =~= es.take(i as int));
            }
            i += 1;
        }
        assert(self.entries(rows@).take(n as int) =~= self.entries(rows@));
        // The word details, one record per row.
        let mut data: Vec<u8> = Vec::new();
        let mut idx: Vec<u8> = Vec::new();
        let ghost payloads = self.payloads(rows@);
        let mut i: usize = 0;
        while i < n
            invariant
                n == rows@.len(),
                i <= n,
                payloads == self.payloads(rows@),
                forall|k: int| 0 <= k < rows@.len() ==> #[trigger] self.row_readable(rows@[k]@),
                forall|k: int| 0 <= k < rows@.len() ==> #[trigger] self.arity_ok(rows@[k]@),
                forall|k: int| 0 <= k < i ==> #[trigger] self.payload(rows@[k]@).len() <= u32::MAX,
                records_written(payloads, i as int, data@, idx@),
            decreases n - i,
        {
            let offset = data.len();
            let details = self.detail_strings(rows[i].as_slice());
            let joined = join_with(details.as_slice(), '\0');
            let bytes = joined.as_str().as_bytes();
            let len = bytes.len();
            if len > 0xFFFF_FFFF {
                assert(self.payload(rows@[i as int]@).len() > u32::MAX);
                return Err(error_of(LinderaErrorKind::Serialize, "Word details length too large"));
            }
            let ghost d0 = data@;
            let ghost i0 = idx@;
            crate::byte_order::push_u32_le(&mut idx, offset as u32);
            crate::byte_order::push_u32_le(&mut data, len as u32);
            let ghost d1 = data@;
            append_bytes(&mut data, bytes);
            proof {
                assert(bytes@ == payloads[i as int]);
                lemma_records_step(payloads, i as int, d0, i0, d1, data@, idx@);
            }
            i += 1;
        }
        // The runs of equal surfaces.
        let mut groups: Vec<(usize, usize)> = Vec::new();
        let mut i: usize = 0;
        assert(rows@.take(0) =~= Seq::<Vec<String>>::empty());
        while i < n
            invariant
                n == rows@.len(),
                i <= n,
                forall|k: int| 0 <= k < rows@.len() ==> #[trigger] self.row_readable(rows@[k]@),
                groups@.len() == surface_groups(rows@.take(i as int)).len(),
                forall|k: int|
                    0 <= k < groups@.len() ==> {
                        &&& (#[trigger] groups@[k]).0 < i
                        &&& groups@[k].0 + groups@[k].1 <= i
                        &&& surface_groups(rows@.take(i as int))[k] == (
                            rows@[groups@[k].0 as int]@[0]@,
                            groups@[k].0 as int,
                            groups@[k].1 as int,
                        )
                    },
            decreases n - i,
        {
            let ghost t = rows@.take(i + 1);
            assert(t.drop_last() =~= rows@.take(i as int));
            assert(t.last() == rows@[i as int]);
            assert(self.row_readable(rows@[i as int]@));
            let glen = groups.len();
            let same = if glen > 0 {
                let last = groups[glen - 1];
                assert(self.row_readable(rows@[last.0 as int]@));
                str_eq(rows[i][0].as_str(), rows[last.0][0].as_str())
            } else {
                false
            };
            if same {
                let last = groups[glen - 1];
                groups.set(glen - 1, (last.0, last.1 + 1));
            } else {
                groups.push((i, 1));
            }
            i += 1;
        }
        assert(rows@.take(n as int) =~= rows@);
        // The keyset of the automaton.
        let mut keyset: Vec<(Vec<u8>, u32)> = Vec::new();
        let ghost sg = surface_groups(rows@);
        let mut k: usize = 0;
        while k < groups.len()
            invariant
                n == rows@.len(),
                n <= u32::MAX,
                sg == surface_groups(rows@),
                groups@.len() == sg.len(),
                forall|q: int|
                    0 <= q < groups@.len() ==> {
                        &&& (#[trigger] groups@[q]).0 < n
                        &&& groups@[q].0 + groups@[q].1 <= n
                        &&& sg[q] == (rows@[groups@[q].0 as int]@[0]@, groups@[q].0 as int, groups@[q].1 as int)
                    },
                forall|k: int| 0 <= k < rows@.len() ==> #[trigger] self.row_readable(rows@[k]@),
                k <= groups@.len(),
                forall|q: int| 0 <= q < k ==> (#[trigger] sg[q]).1 < 0x100_0000 && sg[q].2 < 0x100,
                crate::builder::prefix_dictionary::keyset_view(keyset@) == user_keyset(rows@).take(k as int),
            decreases groups@.len() - k,
        {
            let g = groups[k];
            assert(self.row_readable(rows@[g.0 as int]@));
            let surface = rows[g.0][0].as_str();
            let val = match crate::builder::prefix_dictionary::pack_entry_value(surface, g.0 as u32, g.1 as u32) {
                Ok(v) => v,
                Err(e) => {
                    assert(!groups_packable(sg)) by {
                        assert(!(sg[k as int].1 < 0x100_0000 && sg[k as int].2 < 0x100));
                    }
                    return Err(e);
                },
            };
            let mut bytes: Vec<u8> = Vec::new();
            append_bytes(&mut bytes, surface.as_bytes());
            let ghost before = keyset@;
            keyset.push((bytes, val));
            proof {
                assert(crate::builder::prefix_dictionary::keyset_view(keyset@) =~= crate::builder::prefix_dictionary::keyset_view(
                    before,
                ).push((bytes@, val)));
                assert(crate::builder::prefix_dictionary::keyset_view(keyset@) =~= user_keyset(rows@).take(
                    k + 1,
                ));
            }
            k += 1;
        }
        assert(user_keyset(rows@).take(groups@.len() as int) =~= user_keyset(rows@));
        let da_bytes = match build_automaton_bytes(&keyset) {
            Some(b) => b,
            None => {
                return Err(
                    error_of(LinderaErrorKind::Build, "Failed to build DoubleArray for user dictionary"),
                );
            },
        };
        let dict = match UserPrefixDictionary::load(da_bytes, vals, idx, data) {
            Ok(d) => d,
            Err(e) => {
                return Err(e);
            },
        };
        Ok(UserDictionary { dict })
    }
}

} // verus!

verus! {

/// The surfaces of the rows.
pub open spec fn surfaces_of(rows: Seq<Vec<String>>) -> Seq<Seq<char>> {
    rows.map_values(|row: Vec<String>| row@[0]@)
}

/// Rows sorted stably by their surfaces are in ascending order of them, and
/// each of them is a row of the input.
pub proof fn lemma_stable_sort_sorted(b: UserDictionaryBuilder, s: Seq<Vec<String>>, rows: Seq<Vec<String>>)
    requires
        forall|i: int| 0 <= i < rows.len() ==> #[trigger] b.row_readable(rows[i]@),
        crate::sorting::stable_sort_of(s, rows, surfaces_of(rows)),
    ensures
        sorted_by_surface(s),
        s.len() == rows.len(),
        forall|i: int| 0 <= i < s.len() ==> #[trigger] b.row_readable(s[i]@),
        (forall|i: int| 0 <= i < rows.len() ==> #[trigger] b.arity_ok(rows[i]@)) ==> (forall|i: int|
            0 <= i < s.len() ==> #[trigger] b.arity_ok(s[i]@)),
{
    let perm = choose|perm: Seq<usize>|
        crate::sorting::is_index_perm(perm, rows.len() as int) && crate::sorting::stably_sorted_by(
            surfaces_of(rows),
            perm,
        ) && s == crate::sorting::permuted(rows, perm);
    let keys = surfaces_of(rows);
    assert forall|i: int| 0 <= i < s.len() implies #[trigger] b.row_readable(s[i]@) by {
        assert(s[i] == rows[perm[i] as int]);
        assert(b.row_readable(rows[perm[i] as int]@));
    }
    if forall|i: int| 0 <= i < rows.len() ==> #[trigger] b.arity_ok(rows[i]@) {
        assert forall|i: int| 0 <= i < s.len() implies #[trigger] b.arity_ok(s[i]@) by {
            assert(s[i] == rows[perm[i] as int]);
            assert(b.arity_ok(rows[perm[i] as int]@));
        }
    }
    assert forall|i: int, j: int| 0 <= i < j < s.len() implies !crate::text::seq_lt(
        (#[trigger] s[j])@[0]@,
        (#[trigger] s[i])@[0]@,
    ) by {
        assert(s[i] == rows[perm[i] as int]);
        assert(s[j] == rows[perm[j] as int]);
        assert(keys[perm[i] as int] == s[i]@[0]@);
        assert(keys[perm[j] as int] == s[j]@[0]@);
        if crate::text::seq_lt(keys[perm[i] as int], keys[perm[j] as int]) {
            crate::text::lemma_seq_lt_asymmetric(keys[perm[i] as int], keys[perm[j] as int]);
        } else {
            crate::text::lemma_seq_lt_irreflexive(keys[perm[i] as int]);
        }
    }
}

/// What a builder gives for rows of acceptable arity: the rows sorted stably
/// by surface, built in that order.
pub open spec fn built_from_rows(b: UserDictionaryBuilder, rows: Seq<Vec<String>>, r: LinderaResult<UserDictionary>) -> bool {
    exists|s: Seq<Vec<String>>|
        crate::sorting::stable_sort_of(s, rows, surfaces_of(rows)) && sorted_by_surface(s) && b.built_from_sorted(s, r)
            && (((forall|i: int| 0 <= i < s.len() ==> #[trigger] b.row_values(s[i]@) is Some) && (forall|i: int|
            0 <= i < s.len() ==> #[trigger] b.payload(s[i]@).len() <= u32::MAX) && groups_packable(surface_groups(s))
            && daachorse_automaton_of(user_keyset(s)) is Some) ==> r is Ok)
}

impl UserDictionaryBuilder {
    /// The message for a row of unacceptable arity.
    pub open spec fn arity_message(self) -> Seq<char> {
        "user dictionary should be a CSV with "@ + crate::text::decimal_spec(self.user_dictionary_fields_num as nat)
            + " or "@ + crate::text::decimal_spec(self.dictionary_fields_num as nat) + "+ fields"@
    }

    /// Whether some row has no field, a number of fields the builder does
    /// not accept, or too few fields to hold a cost and context ids.
    pub open spec fn has_bad_row(self, rows: Seq<Vec<String>>) -> bool {
        exists|i: int| 0 <= i < rows.len() && !(#[trigger] self.row_readable(rows[i]@) && self.arity_ok(rows[i]@))
    }

    /// The error for a row of unacceptable arity.
    fn arity_error(&self) -> (r: crate::error::LinderaError)
        ensures
            r.kind == LinderaErrorKind::Content,
            r.source@ == self.arity_message(),
    {
        let a = crate::text::concat_str(
            "user dictionary should be a CSV with ",
            crate::text::decimal_text(self.user_dictionary_fields_num).as_str(),
        );
        let b = crate::text::concat_str(a.as_str(), " or ");
        let c = crate::text::concat_str(b.as_str(), crate::text::decimal_text(self.dictionary_fields_num).as_str());
        let d = crate::text::concat_str(c.as_str(), "+ fields");
        crate::error::LinderaErrorKind::Content.with_error(d)
    }

    /// Builds the user dictionary from its rows: a row of a number of
    /// columns the builder does not accept is a content error; otherwise the
    /// rows are sorted stably by surface and built in that order.
    pub fn build_from_rows(&self, rows: Vec<Vec<String>>) -> (r: LinderaResult<UserDictionary>)
        requires
            rows@.len() <= u32::MAX,
            forall|i: int| 0 <= i < rows@.len() ==> #[trigger] self.row_readable(rows@[i]@),
        ensures
            (exists|i: int| 0 <= i < rows@.len() && !#[trigger] self.arity_ok(rows@[i]@)) <==> (r matches Err(e)
                && e.kind == LinderaErrorKind::Content),
            (exists|i: int| 0 <= i < rows@.len() && !#[trigger] self.arity_ok(rows@[i]@)) ==> (r matches Err(e)
                && e.source@ == self.arity_message()),
            (forall|i: int| 0 <= i < rows@.len() ==> #[trigger] self.arity_ok(rows@[i]@)) ==> built_from_rows(
                *self,
                rows@,
                r,
            ),
    {
        let ghost orig = rows@;
        let mut i: usize = 0;
        while i < rows.len()
            invariant
                i <= rows@.len(),
                forall|k: int| 0 <= k < i ==> #[trigger] self.arity_ok(rows@[k]@),
            decreases rows@.len() - i,
        {
            let len = rows[i].len();
            if len != self.user_dictionary_fields_num && len < self.dictionary_fields_num {
                assert(!self.arity_ok(rows@[i as int]@));
                return Err(self.arity_error());
            }
            i += 1;
        }
        let mut keys: Vec<String> = Vec::new();
        let mut i: usize = 0;
        while i < rows.len()
            invariant
                i <= rows@.len(),
                rows@ == orig,
                forall|k: int| 0 <= k < rows@.len() ==> #[trigger] self.row_readable(rows@[k]@),
                views_of(keys@) == surfaces_of(orig).take(i as int),
            decreases rows@.len() - i,
        {
            assert(self.row_readable(rows@[i as int]@));
            let k = rows[i][0].clone();
            let ghost before = keys@;
            keys.push(k);
            assert(views_of(keys@) =~= views_of(before).push(k@));
            assert(views_of(keys@) =~= surfaces_of(orig).take(i + 1));
            i += 1;
        }
        assert(views_of(keys@) =~= surfaces_of(orig));
        let mut rows = rows;
        crate::sorting::sort_rows_by_keys(&mut rows, &keys);
        proof {
            lemma_stable_sort_sorted(*self, rows@, orig);
        }
        self.build_sorted(rows.as_slice())
    }
}

/// What the CSV reader yields for `bytes`: the fields of each record, or
/// `None` when a record does not parse.
pub uninterp spec fn csv_records_of(bytes: Seq<u8>, flexible: bool) -> Option<Seq<Seq<Seq<char>>>>;

/// The text views of rows.
pub open spec fn rows_view(rows: Seq<Vec<String>>) -> Seq<Seq<Seq<char>>> {
    rows.map_values(|row: Vec<String>| views_of(row@))
}

/// Reads the records of CSV text without a header row.
///
/// Calls `csv::ReaderBuilder` (no headers, `flexible` as given) and
/// `StringRecordsIter::next` on the records; the contract claims that the
/// outcome depends on the bytes and the flag alone.
#[verifier::external_body]
pub(crate) fn parse_csv_records(bytes: &[u8], flexible: bool) -> (r: Option<Vec<Vec<String>>>)
    ensures
        match r {
            Some(v) => csv_records_of(bytes@, flexible) == Some(rows_view(v@)),
            None => csv_records_of(bytes@, flexible) is None,
        },
{
    let mut rdr = csv::ReaderBuilder::new().has_headers(false).flexible(flexible).from_reader(bytes);
    let mut rows: Vec<Vec<String>> = Vec::new();
    for result in rdr.records() {
        match result {
            Ok(record) => rows.push(record.iter().map(|f| f.to_string()).collect()),
            Err(_) => return None,
        }
    }
    Some(rows)
}

impl UserDictionaryBuilder {
    /// What building from CSV text gives: a content error when the text
    /// does not parse; otherwise, for its records, a content error exactly
    /// when there are more than `u32` ids reach or a bad row (with the
    /// arity message for a bad row), and else the rows built as
    /// `build_from_rows` builds them.
    pub open spec fn reader_outcome(self, content: Seq<u8>, r: LinderaResult<UserDictionary>) -> bool {
        match csv_records_of(content, self.flexible_csv) {
            None => r matches Err(e) && e.kind == LinderaErrorKind::Content,
            Some(_) => exists|rows: Seq<Vec<String>>|
                #[trigger] rows_view(rows) == csv_records_of(content, self.flexible_csv)->0 && ((r matches Err(e)
                    && e.kind == LinderaErrorKind::Content) <==> (rows.len() > u32::MAX || self.has_bad_row(rows)))
                    && (rows.len() <= u32::MAX && self.has_bad_row(rows) ==> (r matches Err(e) && e.source@
                    == self.arity_message())) && (rows.len() <= u32::MAX && !self.has_bad_row(rows)
                    ==> built_from_rows(self, rows, r)),
        }
    }

    /// Builds the user dictionary from CSV text: a record that does not
    /// parse is a content error, and so are more records than `u32` ids
    /// reach and a record with no field, with a number of fields the builder
    /// does not accept or, detailed, with fewer than four fields (the last
    /// three with the message that names the accepted numbers); otherwise
    /// the rows are built as `build_from_rows` does.
    pub fn build_from_reader(&self, content: &[u8]) -> (r: LinderaResult<UserDictionary>)
        ensures
            self.reader_outcome(content@, r),
    {
        let rows = match parse_csv_records(content, self.flexible_csv) {
            Some(rows) => rows,
            None => {
                return Err(error_of(LinderaErrorKind::Content, "Failed to parse CSV record"));
            },
        };
        if rows.len() > 0xFFFF_FFFF {
            return Err(error_of(LinderaErrorKind::Content, "too many user dictionary rows"));
        }
        let mut i: usize = 0;
        while i < rows.len()
            invariant
                i <= rows@.len(),
                rows@.len() <= u32::MAX,
                csv_records_of(content@, self.flexible_csv) == Some(rows_view(rows@)),
                forall|k: int| 0 <= k < i ==> #[trigger] self.row_readable(rows@[k]@),
            decreases rows@.len() - i,
        {
            let len = rows[i].len();
            if len == 0 || (len != self.user_dictionary_fields_num && len >= self.dictionary_fields_num && len < 4) {
                assert(!self.row_readable(rows@[i as int]@));
                assert(self.has_bad_row(rows@));
                return Err(self.arity_error());
            }
            i += 1;
        }
        let ghost v = rows@;
        let r = self.build_from_rows(rows);
        proof {
            if self.has_bad_row(v) {
                let i = choose|i: int| 0 <= i < v.len() && !(#[trigger] self.row_readable(v[i]@) && self.arity_ok(v[i]@));
                assert(self.row_readable(v[i]@));
                assert(!self.arity_ok(v[i]@));
            } else {
                assert forall|i: int| 0 <= i < v.len() implies #[trigger] self.arity_ok(v[i]@) by {
                    assert(self.row_readable(v[i]@));
                    assert(!(!(self.row_readable(v[i]@) && self.arity_ok(v[i]@))));
                }
            }
        }
        r
    }
}

} // verus!

verus! {

/// A built user dictionary gives back each row's details: the detail record
/// of word `i` holds the details of row `i` (of the rows in the order they
/// were built), provided the row has at least one detail field, none of its
/// fields contains NUL, and the records fit the `u32` offsets.
pub proof fn lemma_user_details_read_back(b: UserDictionaryBuilder, rows: Seq<Vec<String>>, d: UserDictionary, i: int)
    requires
        b.built_from_sorted(rows, Ok(d)),
        d.dict.words_data@.len() <= u32::MAX,
        0 <= i < rows.len(),
        b.row_details(rows[i]@).len() >= 1,
        forall|j: int|
            0 <= j < b.row_details(rows[i]@).len() ==> !(#[trigger] b.row_details(rows[i]@)[j]).contains('\0'),
    ensures
        crate::util::packed_details_spec(d.dict.words_idx_data@, d.dict.words_data@, i, seq!["UNK"@])
            == b.row_details(rows[i]@),
{
    let payloads = b.payloads(rows);
    let idx = d.dict.words_idx_data@;
    let data = d.dict.words_data@;
    let off = record_start(payloads, i);
    let details = b.row_details(rows[i]@);
    let joined = join_spec(details, '\0');
    let p = payloads[i];
    assert(p == b.payload(rows[i]@));
    lemma_record_start_monotone(payloads, i, rows.len() as int);
    assert(u32_at(idx, 4 * i) == off as u32);
    assert(off as u32 == off);
    assert(crate::util::words_idx_offset_spec(idx, i) == Some(off as usize));
    assert(crate::util::record_at(data, off) == Some(p));
    vstd::utf8::encode_utf8_valid_utf8(joined);
    vstd::utf8::encode_utf8_decode_utf8(joined);
    crate::text::lemma_split_join(details, '\0');
}

} // verus!
