//! Building the prefix dictionary: word entries by surface, their detail
//! records, and the double-array trie over the surfaces.
use vstd::prelude::*;

use crate::decompress::Algorithm;
use crate::dictionary::schema::{last_index_of, Schema};
use crate::error::{error_of, LinderaErrorKind};
use crate::text::{chars_of, parse_decimal, parse_int_spec, string_from_chars, trim, trim_spec};
use crate::viterbi::{LexType, WordEntry, WordId};
use crate::LinderaResult;
use crate::builder::connection_cost_matrix::{decode_for_label, decoded_text_of, encoding_for_label, encoding_name_of};
use crate::builder::user_dictionary::{csv_records_of, parse_csv_records, rows_view};
use encoding_rs::Encoding;

verus! {

/// Builds the prefix dictionary files from lexicon rows.
#[derive(Debug, Clone)]
pub struct PrefixDictionaryBuilder {
    /// Whether CSV rows may have varying numbers of columns.
    pub flexible_csv: bool,
    /// Character encoding of the lexicon files.
    pub encoding: String,
    /// Compression of the written files.
    pub compress_algorithm: Algorithm,
    /// Whether surfaces and details are normalized (`―` to `—`, `～` to `〜`).
    pub normalize_details: bool,
    /// Whether rows with an invalid cost or id are skipped instead of failing.
    pub skip_invalid_cost_or_id: bool,
    /// The lexicon's schema.
    pub schema: Schema,
}

/// A character with `―` (U+2015) turned into `—` (U+2014) and `～` (U+FF5E)
/// into `〜` (U+301C).
pub open spec fn normalize_char(c: char) -> char {
    if c == '\u{2015}' {
        '\u{2014}'
    } else if c == '\u{FF5E}' {
        '\u{301C}'
    } else {
        c
    }
}

/// A text with every character normalized.
pub open spec fn normalize_spec(s: Seq<char>) -> Seq<char> {
    s.map_values(|c: char| normalize_char(c))
}

/// Normalizes a text: `―` becomes `—` and `～` becomes `〜`.
pub fn normalize(text: &str) -> (r: String)
    ensures
        r@ == normalize_spec(text@),
{
    let cs = chars_of(text);
    let mut out: Vec<char> = Vec::new();
    let mut i: usize = 0;
    while i < cs.len()
        invariant
            cs@ == text@,
            i <= cs@.len(),
            out@ == normalize_spec(cs@.take(i as int)),
        decreases cs@.len() - i,
    {
        let c = cs[i];
        let d = if c == '\u{2015}' {
            '\u{2014}'
        } else if c == '\u{FF5E}' {
            '\u{301C}'
        } else {
            c
        };
        out.push(d);
        i += 1;
        assert(out@ =~= normalize_spec(cs@.take(i as int)));
    }
    assert(cs@.take(cs@.len() as int) =~= cs@);
    string_from_chars(out.as_slice())
}

/// The trimmed value of the field called `name` in `row`: `None` when the
/// schema has no such field, the row is too short, or the value is blank.
pub open spec fn field_value_spec(fields: Seq<String>, row: Seq<String>, name: Seq<char>) -> Option<
    Seq<char>,
> {
    match last_index_of(fields, name, fields.len() as int) {
        None => None,
        Some(i) => if i >= row.len() {
            None
        } else {
            let t = trim_spec(row[i]@);
            if t.len() == 0 {
                None
            } else {
                Some(t)
            }
        },
    }
}

/// How a numeric field turns out: no value gives `Ok(None)`; a value that
/// parses gives it; one that does not is skipped (`Ok(None)`) or an error.
pub open spec fn number_outcome(value: Option<Seq<char>>, signed: bool, lo: int, hi: int, skip: bool) -> Result<
    Option<int>,
    (),
> {
    match value {
        None => Ok(None),
        Some(s) => match parse_int_spec(s, signed, lo, hi) {
            Some(v) => Ok(Some(v)),
            None => if skip {
                Ok(None)
            } else {
                Err(())
            },
        },
    }
}

impl PrefixDictionaryBuilder {
    /// A builder for lexicons in `schema`, with flexible CSV, UTF-8, deflate
    /// compression, no normalization and no skipping.
    pub fn new(schema: Schema) -> (r: Self)
        ensures
            r.flexible_csv,
            r.encoding@ == "UTF-8"@,
            r.compress_algorithm == Algorithm::Deflate,
            !r.normalize_details,
            !r.skip_invalid_cost_or_id,
            r.schema == schema,
    {
        PrefixDictionaryBuilder {
            flexible_csv: true,
            encoding: "UTF-8".to_owned(),
            compress_algorithm: Algorithm::Deflate,
            normalize_details: false,
            skip_invalid_cost_or_id: false,
            schema,
        }
    }

    /// The encoding of the lexicon files, by its WHATWG label; an unknown
    /// label, or one that selects the replacement encoding, is a decode
    /// error.
    pub fn get_encoding(&self) -> (r: LinderaResult<&'static Encoding>)
        ensures
            r is Ok <==> encoding_name_of(self.encoding@) is Some,
            r matches Err(e) ==> e.kind == LinderaErrorKind::Decode,
    {
        match encoding_for_label(self.encoding.as_str()) {
            Some((encoding, _)) => Ok(encoding),
            None => Err(error_of(LinderaErrorKind::Decode, "Invalid encoding")),
        }
    }

    /// The trimmed value of the field called `field_name`, if present and
    /// not blank.
    pub fn get_field_value(&self, row: &[String], field_name: &str) -> (r: LinderaResult<Option<String>>)
        ensures
            r matches Ok(v) && match v {
                Some(s) => field_value_spec(self.schema.fields@, row@, field_name@) == Some(s@),
                None => field_value_spec(self.schema.fields@, row@, field_name@) is None,
            },
    {
        match self.schema.get_field_index(field_name) {
            Some(index) => {
                if index >= row.len() {
                    return Ok(None);
                }
                let value = trim(row[index].as_str());
                if chars_of(value.as_str()).len() == 0 {
                    Ok(None)
                } else {
                    Ok(Some(value))
                }
            },
            None => Ok(None),
        }
    }

    /// The word cost of a row (an `i16`).
    pub fn parse_word_cost(&self, row: &[String]) -> (r: LinderaResult<Option<i16>>)
        ensures
            match number_outcome(
                field_value_spec(self.schema.fields@, row@, "cost"@),
                true,
                i16::MIN as int,
                i16::MAX as int,
                self.skip_invalid_cost_or_id,
            ) {
                Ok(Some(v)) => r == Ok::<Option<i16>, crate::error::LinderaError>(Some(v as i16)),
                Ok(None) => r == Ok::<Option<i16>, crate::error::LinderaError>(None),
                Err(_) => r matches Err(e) && e.kind == LinderaErrorKind::Content,
            },
    {
        let value = self.get_field_value(row, "cost")?;
        match value {
            Some(s) => {
                let cs = chars_of(s.as_str());
                match parse_decimal(cs.as_slice(), true, -32768, 32767) {
                    Some(v) => Ok(Some(v as i16)),
                    None => {
                        if self.skip_invalid_cost_or_id {
                            Ok(None)
                        } else {
                            Err(error_of(LinderaErrorKind::Content, "Invalid cost value"))
                        }
                    },
                }
            },
            None => Ok(None),
        }
    }

    /// A context id field of a row (a `u16`).
    fn parse_id(&self, row: &[String], name: &str) -> (r: LinderaResult<Option<u16>>)
        ensures
            match number_outcome(
                field_value_spec(self.schema.fields@, row@, name@),
                false,
                0,
                u16::MAX as int,
                self.skip_invalid_cost_or_id,
            ) {
                Ok(Some(v)) => r == Ok::<Option<u16>, crate::error::LinderaError>(Some(v as u16)),
                Ok(None) => r == Ok::<Option<u16>, crate::error::LinderaError>(None),
                Err(_) => r matches Err(e) && e.kind == LinderaErrorKind::Content,
            },
    {
        let value = self.get_field_value(row, name)?;
        match value {
            Some(s) => {
                let cs = chars_of(s.as_str());
                match parse_decimal(cs.as_slice(), false, 0, 65535) {
                    Some(v) => Ok(Some(v as u16)),
                    None => {
                        if self.skip_invalid_cost_or_id {
                            Ok(None)
                        } else {
                            Err(error_of(LinderaErrorKind::Content, "Invalid context ID"))
                        }
                    },
                }
            },
            None => Ok(None),
        }
    }

    /// The left context id of a row.
    pub fn parse_left_id(&self, row: &[String]) -> (r: LinderaResult<Option<u16>>)
        ensures
            match number_outcome(
                field_value_spec(self.schema.fields@, row@, "left_context_id"@),
                false,
                0,
                u16::MAX as int,
                self.skip_invalid_cost_or_id,
            ) {
                Ok(Some(v)) => r == Ok::<Option<u16>, crate::error::LinderaError>(Some(v as u16)),
                Ok(None) => r == Ok::<Option<u16>, crate::error::LinderaError>(None),
                Err(_) => r matches Err(e) && e.kind == LinderaErrorKind::Content,
            },
    {
        self.parse_id(row, "left_context_id")
    }

    /// The right context id of a row.
    pub fn parse_right_id(&self, row: &[String]) -> (r: LinderaResult<Option<u16>>)
        ensures
            match number_outcome(
                field_value_spec(self.schema.fields@, row@, "right_context_id"@),
                false,
                0,
                u16::MAX as int,
                self.skip_invalid_cost_or_id,
            ) {
                Ok(Some(v)) => r == Ok::<Option<u16>, crate::error::LinderaError>(Some(v as u16)),
                Ok(None) => r == Ok::<Option<u16>, crate::error::LinderaError>(None),
                Err(_) => r matches Err(e) && e.kind == LinderaErrorKind::Content,
            },
    {
        self.parse_id(row, "right_context_id")
    }
}

} // verus!

verus! {

/// Word entries grouped by surface, with the surfaces in ascending
/// lexicographic order.
#[derive(Debug, Clone)]
pub struct WordEntryMap {
    /// The surfaces, ascending and distinct.
    pub keys: Vec<String>,
    /// The entries of each surface, in insertion order.
    pub values: Vec<Vec<WordEntry>>,
}

impl WordEntryMap {
    /// Whether the map is well formed: one entry list per surface, surfaces
    /// strictly ascending, no entry list empty.
    pub open spec fn wf(&self) -> bool {
        &&& self.keys@.len() == self.values@.len()
        &&& forall|i: int, j: int|
            0 <= i < j < self.keys@.len() ==> crate::text::seq_lt(
                #[trigger] self.keys@[i]@,
                #[trigger] self.keys@[j]@,
            )
        &&& forall|i: int| 0 <= i < self.values@.len() ==> (#[trigger] self.values@[i])@.len() > 0
    }

    /// Whether `k` is a surface of the map.
    pub open spec fn has_key(&self, k: Seq<char>) -> bool {
        exists|i: int| 0 <= i < self.keys@.len() && (#[trigger] self.keys@[i])@ == k
    }

    /// The entries of surface `k` (none when it is not in the map).
    pub open spec fn lookup(&self, k: Seq<char>) -> Seq<WordEntry> {
        lookup_in(self.keys@, self.values@, k, self.keys@.len() as int)
    }

    /// An empty map.
    pub fn new() -> (r: Self)
        ensures
            r.wf(),
            r.keys@.len() == 0,
            forall|k: Seq<char>| !r.has_key(k),
    {
        WordEntryMap { keys: Vec::new(), values: Vec::new() }
    }

    /// The position where `key` belongs: after every smaller surface.
    fn position(&self, key: &[char]) -> (p: usize)
        requires
            self.wf(),
        ensures
            p <= self.keys@.len(),
            forall|i: int| 0 <= i < p ==> crate::text::seq_lt(#[trigger] self.keys@[i]@, key@),
            forall|i: int| p <= i < self.keys@.len() ==> !crate::text::seq_lt(#[trigger] self.keys@[i]@, key@),
    {
        let mut lo: usize = 0;
        let mut hi: usize = self.keys.len();
        while lo < hi
            invariant
                self.wf(),
                lo <= hi <= self.keys@.len(),
                forall|i: int| 0 <= i < lo ==> crate::text::seq_lt(#[trigger] self.keys@[i]@, key@),
                forall|i: int| hi <= i < self.keys@.len() ==> !crate::text::seq_lt(#[trigger] self.keys@[i]@, key@),
            decreases hi - lo,
        {
            let mid = lo + (hi - lo) / 2;
            let kc = chars_of(self.keys[mid].as_str());
            let c = crate::text::compare_chars(kc.as_slice(), key);
            if c == -1 {
                proof {
                    assert forall|i: int| 0 <= i < mid + 1 implies crate::text::seq_lt(
                        #[trigger] self.keys@[i]@,
                        key@,
                    ) by {
                        if i < mid {
                            assert(crate::text::seq_lt(self.keys@[i]@, self.keys@[mid as int]@));
                            crate::text::lemma_seq_lt_transitive(self.keys@[i]@, self.keys@[mid as int]@, key@);
                        }
                    }
                }
                lo = mid + 1;
            } else {
                proof {
                    assert forall|i: int| mid <= i < self.keys@.len() implies !crate::text::seq_lt(
                        #[trigger] self.keys@[i]@,
                        key@,
                    ) by {
                        if i > mid && crate::text::seq_lt(self.keys@[i]@, key@) {
                            assert(crate::text::seq_lt(self.keys@[mid as int]@, self.keys@[i]@));
                            crate::text::lemma_seq_lt_transitive(self.keys@[mid as int]@, self.keys@[i]@, key@);
                        }
                    }
                }
                hi = mid;
            }
        }
        lo
    }
}

/// The entries of the last of the first `n` surfaces equal to `k`.
pub open spec fn lookup_in(keys: Seq<String>, values: Seq<Vec<WordEntry>>, k: Seq<char>, n: int) -> Seq<
    WordEntry,
>
    decreases n,
{
    if n <= 0 {
        Seq::empty()
    } else if keys[n - 1]@ == k {
        values[n - 1]@
    } else {
        lookup_in(keys, values, k, n - 1)
    }
}

proof fn lemma_lookup_in_at(keys: Seq<String>, values: Seq<Vec<WordEntry>>, i: int, n: int)
    requires
        0 <= i < n <= keys.len(),
        forall|a: int, b: int| 0 <= a < b < keys.len() ==> crate::text::seq_lt(#[trigger] keys[a]@, #[trigger] keys[b]@),
    ensures
        lookup_in(keys, values, keys[i]@, n) == values[i]@,
    decreases n,
{
    if n - 1 != i {
        assert(crate::text::seq_lt(keys[i]@, keys[n - 1]@));
        crate::text::lemma_seq_lt_irreflexive(keys[i]@);
        lemma_lookup_in_at(keys, values, i, n - 1);
    }
}

proof fn lemma_lookup_in_absent(keys: Seq<String>, values: Seq<Vec<WordEntry>>, k: Seq<char>, n: int)
    requires
        0 <= n <= keys.len(),
        forall|i: int| 0 <= i < n ==> (#[trigger] keys[i])@ != k,
    ensures
        lookup_in(keys, values, k, n) == Seq::<WordEntry>::empty(),
    decreases n,
{
    if n > 0 {
        lemma_lookup_in_absent(keys, values, k, n - 1);
    }
}

/// In a well-formed map, surface `i`'s entries are what `lookup` gives.
proof fn lemma_lookup_at(m: &WordEntryMap, i: int)
    requires
        m.wf(),
        0 <= i < m.keys@.len(),
    ensures
        m.has_key(m.keys@[i]@),
        m.lookup(m.keys@[i]@) == m.values@[i]@,
{
    assert(m.has_key(m.keys@[i]@));
    lemma_lookup_in_at(m.keys@, m.values@, i, m.keys@.len() as int);
}

/// A surface that is not in the map has no entries.
proof fn lemma_lookup_absent(m: &WordEntryMap, k: Seq<char>)
    requires
        !m.has_key(k),
    ensures
        m.lookup(k) == Seq::<WordEntry>::empty(),
{
    lemma_lookup_in_absent(m.keys@, m.values@, k, m.keys@.len() as int);
}

} // verus!

verus! {

/// The total number of entries.
pub open spec fn entry_count(values: Seq<Vec<WordEntry>>) -> int
    decreases values.len(),
{
    if values.len() == 0 {
        0
    } else {
        entry_count(values.drop_last()) + values.last()@.len()
    }
}

proof fn lemma_entry_count_flat(values: Seq<Vec<WordEntry>>)
    ensures
        flat_entries(values).len() == entry_count(values),
    decreases values.len(),
{
    if values.len() > 0 {
        lemma_entry_count_flat(values.drop_last());
    }
}

proof fn lemma_entry_count_update(values: Seq<Vec<WordEntry>>, p: int, v: Vec<WordEntry>)
    requires
        0 <= p < values.len(),
    ensures
        entry_count(values.update(p, v)) == entry_count(values) - values[p]@.len() + v@.len(),
    decreases values.len(),
{
    let u = values.update(p, v);
    if p == values.len() - 1 {
        assert(u.drop_last() =~= values.drop_last());
    } else {
        assert(u.drop_last() =~= values.drop_last().update(p, v));
        lemma_entry_count_update(values.drop_last(), p, v);
    }
}

proof fn lemma_entry_count_insert(values: Seq<Vec<WordEntry>>, p: int, v: Vec<WordEntry>)
    requires
        0 <= p <= values.len(),
    ensures
        entry_count(values.insert(p, v)) == entry_count(values) + v@.len(),
    decreases values.len(),
{
    let u = values.insert(p, v);
    if p == values.len() {
        assert(u.drop_last() =~= values);
    } else {
        assert(u.drop_last() =~= values.drop_last().insert(p, v));
        lemma_entry_count_insert(values.drop_last(), p, v);
    }
}

impl WordEntryMap {
    /// Appends `entry` to the entries of surface `key`, adding the surface in
    /// its place when it is new.
    pub fn insert(&mut self, key: String, entry: WordEntry)
        requires
            old(self).wf(),
        ensures
            final(self).wf(),
            forall|k: Seq<char>| final(self).has_key(k) <==> (old(self).has_key(k) || k == key@),
            forall|k: Seq<char>|
                #[trigger] final(self).lookup(k) == if k == key@ {
                    old(self).lookup(k).push(entry)
                } else {
                    old(self).lookup(k)
                },
            entry_count(final(self).values@) == entry_count(old(self).values@) + 1,
    {
        let kc = chars_of(key.as_str());
        let p = self.position(kc.as_slice());
        let n = self.keys.len();
        let found = if p < n {
            let pc = chars_of(self.keys[p].as_str());
            crate::text::compare_chars(pc.as_slice(), kc.as_slice()) == 0
        } else {
            false
        };
        let ghost ok = self.keys@;
        let ghost ov = self.values@;
        let ghost om = *self;
        if found {
            let mut v = self.values.remove(p);
            v.push(entry);
            self.values.insert(p, v);
            proof {
                assert(self.values@ =~= ov.update(p as int, v));
                lemma_entry_count_update(ov, p as int, v);
                assert(self.keys@ == ok);
                assert(self.values@[p as int]@ == ov[p as int]@.push(entry));
                assert forall|i: int| 0 <= i < self.values@.len() implies (#[trigger] self.values@[i])@.len() > 0 by {
                    if i != p {
                        assert(self.values@[i] == ov[i]);
                    }
                }
                assert forall|k: Seq<char>| #[trigger] self.lookup(k) == if k == key@ {
                    om.lookup(k).push(entry)
                } else {
                    om.lookup(k)
                } by {
                    if om.has_key(k) {
                        let i = choose|i: int| 0 <= i < ok.len() && (#[trigger] ok[i])@ == k;
                        lemma_lookup_at(&om, i);
                        lemma_lookup_at(self, i);
                        if i != p {
                            assert(self.values@[i] == ov[i]);
                        }
                    } else {
                        lemma_lookup_absent(&om, k);
                        lemma_lookup_absent(self, k);
                    }
                }
            }
        } else {
            self.keys.insert(p, key);
            let mut v: Vec<WordEntry> = Vec::new();
            v.push(entry);
            self.values.insert(p, v);
            proof {
                lemma_entry_count_insert(ov, p as int, v);
                assert forall|i: int| p < i < ok.len() implies crate::text::seq_lt(kc@, #[trigger] ok[i]@) by {
                    assert(!crate::text::seq_lt(ok[i]@, kc@));
                    crate::text::lemma_seq_lt_total(ok[i]@, kc@);
                    if ok[i]@ == kc@ {
                        assert(crate::text::seq_lt(ok[p as int]@, ok[i]@));
                    }
                }
                if p < n {
                    assert(!crate::text::seq_lt(ok[p as int]@, kc@));
                    crate::text::lemma_seq_lt_total(ok[p as int]@, kc@);
                }
                assert forall|i: int, j: int| 0 <= i < j < self.keys@.len() implies crate::text::seq_lt(
                    #[trigger] self.keys@[i]@,
                    #[trigger] self.keys@[j]@,
                ) by {
                    if j < p {
                    } else if j == p {
                    } else if i < p {
                        assert(self.keys@[j] == ok[j - 1]);
                        assert(crate::text::seq_lt(ok[i]@, kc@));
                        if j - 1 > p {
                            crate::text::lemma_seq_lt_transitive(ok[i]@, kc@, ok[j - 1]@);
                        } else {
                            crate::text::lemma_seq_lt_transitive(ok[i]@, kc@, ok[j - 1]@);
                        }
                    } else if i == p {
                        assert(self.keys@[j] == ok[j - 1]);
                    } else {
                        assert(self.keys@[i] == ok[i - 1]);
                        assert(self.keys@[j] == ok[j - 1]);
                    }
                }
                assert forall|i: int| 0 <= i < self.values@.len() implies (#[trigger] self.values@[i])@.len() > 0 by {
                    if i < p {
                        assert(self.values@[i] == ov[i]);
                    } else if i > p {
                        assert(self.values@[i] == ov[i - 1]);
                    }
                }
                assert(self.keys@[p as int]@ == key@);
                assert forall|k: Seq<char>| self.has_key(k) <==> (om.has_key(k) || k == key@) by {
                    if om.has_key(k) {
                        let i = choose|i: int| 0 <= i < ok.len() && (#[trigger] ok[i])@ == k;
                        if i < p {
                            assert(self.keys@[i] == ok[i]);
                        } else {
                            assert(self.keys@[i + 1] == ok[i]);
                        }
                    }
                    if self.has_key(k) {
                        let i = choose|i: int| 0 <= i < self.keys@.len() && (#[trigger] self.keys@[i])@ == k;
                        if i < p {
                            assert(ok[i] == self.keys@[i]);
                        } else if i > p {
                            assert(ok[i - 1] == self.keys@[i]);
                        }
                    }
                }
                assert forall|k: Seq<char>| #[trigger] self.lookup(k) == if k == key@ {
                    om.lookup(k).push(entry)
                } else {
                    om.lookup(k)
                } by {
                    if k == key@ {
                        lemma_lookup_at(self, p as int);
                        assert(!om.has_key(k)) by {
                            if om.has_key(k) {
                                let i = choose|i: int| 0 <= i < ok.len() && (#[trigger] ok[i])@ == k;
                                if i < p {
                                    assert(crate::text::seq_lt(ok[i]@, kc@));
                                    crate::text::lemma_seq_lt_irreflexive(kc@);
                                } else if i == p {
                                } else {
                                    assert(crate::text::seq_lt(kc@, ok[i]@));
                                    crate::text::lemma_seq_lt_irreflexive(kc@);
                                }
                            }
                        }
                        lemma_lookup_absent(&om, k);
                        assert(self.values@[p as int]@ =~= Seq::<WordEntry>::empty().push(entry));
                    } else if om.has_key(k) {
                        let i = choose|i: int| 0 <= i < ok.len() && (#[trigger] ok[i])@ == k;
                        lemma_lookup_at(&om, i);
                        if i < p {
                            lemma_lookup_at(self, i);
                            assert(self.values@[i] == ov[i]);
                        } else {
                            lemma_lookup_at(self, i + 1);
                            assert(self.values@[i + 1] == ov[i]);
                        }
                    } else {
                        lemma_lookup_absent(&om, k);
                        lemma_lookup_absent(self, k);
                    }
                }
            }
        }
    }
}

} // verus!

verus! {

/// What row `row_id` contributes: an error when its cost or an id does not
/// parse (and invalid values are not skipped); nothing when a value is
/// missing or skipped, or the surface is blank; otherwise its surface
/// (normalized when asked to) with a system entry for the row.
pub open spec fn row_outcome(b: PrefixDictionaryBuilder, row: Seq<String>, row_id: int) -> Result<
    Option<(Seq<char>, WordEntry)>,
    (),
> {
    let fields = b.schema.fields@;
    let skip = b.skip_invalid_cost_or_id;
    let c = number_outcome(field_value_spec(fields, row, "cost"@), true, i16::MIN as int, i16::MAX as int, skip);
    let l = number_outcome(field_value_spec(fields, row, "left_context_id"@), false, 0, u16::MAX as int, skip);
    let r = number_outcome(field_value_spec(fields, row, "right_context_id"@), false, 0, u16::MAX as int, skip);
    if c is Err || l is Err || r is Err {
        Err(())
    } else if c->Ok_0 is None || l->Ok_0 is None || r->Ok_0 is None {
        Ok(None)
    } else {
        match field_value_spec(fields, row, "surface"@) {
            None => Ok(None),
            Some(s) => Ok(
                Some(
                    (
                        if b.normalize_details {
                            normalize_spec(s)
                        } else {
                            s
                        },
                        WordEntry {
                            word_id: WordId { id: row_id as u32, lex_type: LexType::System },
                            word_cost: (c->Ok_0)->0 as i16,
                            left_id: (l->Ok_0)->0 as u16,
                            right_id: (r->Ok_0)->0 as u16,
                        },
                    ),
                ),
            ),
        }
    }
}

/// The entries that the first `n` rows give surface `k`, in row order.
pub open spec fn entries_of_key(b: PrefixDictionaryBuilder, rows: Seq<Vec<String>>, n: int, k: Seq<char>) -> Seq<WordEntry>
    decreases n,
{
    if n <= 0 {
        Seq::empty()
    } else {
        let before = entries_of_key(b, rows, n - 1, k);
        match row_outcome(b, rows[n - 1]@, n - 1) {
            Ok(Some((key, e))) => if key == k {
                before.push(e)
            } else {
                before
            },
            _ => before,
        }
    }
}

impl PrefixDictionaryBuilder {
    /// Groups the rows' entries by surface; a cost or id that does not parse
    /// is a content error unless invalid values are skipped.
    pub fn build_word_entry_map(&self, rows: &[Vec<String>]) -> (r: LinderaResult<WordEntryMap>)
        ensures
            match r {
                Ok(m) => m.wf() && entry_count(m.values@) <= rows@.len() && (forall|i: int| 0 <= i < rows@.len() ==> #[trigger] row_outcome(*self, rows@[i]@, i) is Ok)
                    && (forall|k: Seq<char>|
                    #[trigger] m.lookup(k) == entries_of_key(*self, rows@, rows@.len() as int, k))
                    && (forall|k: Seq<char>|
                    #[trigger] m.has_key(k) <==> entries_of_key(*self, rows@, rows@.len() as int, k).len() > 0),
                Err(e) => e.kind == LinderaErrorKind::Content && exists|i: int|
                    0 <= i < rows@.len() && #[trigger] row_outcome(*self, rows@[i]@, i) is Err,
            },
    {
        let mut map = WordEntryMap::new();
        let mut row_id: usize = 0;
        while row_id < rows.len()
            invariant
                row_id <= rows@.len(),
                map.wf(),
                entry_count(map.values@) <= row_id,
                forall|i: int| 0 <= i < row_id ==> #[trigger] row_outcome(*self, rows@[i]@, i) is Ok,
                forall|k: Seq<char>|
                    #[trigger] map.lookup(k) == entries_of_key(*self, rows@, row_id as int, k),
                forall|k: Seq<char>|
                    #[trigger] map.has_key(k) <==> entries_of_key(*self, rows@, row_id as int, k).len() > 0,
            decreases rows@.len() - row_id,
        {
            let row = rows[row_id].as_slice();
            let word_cost = match self.parse_word_cost(row) {
                Ok(v) => v,
                Err(e) => {
                    return Err(e);
                },
            };
            let left_id = match self.parse_left_id(row) {
                Ok(v) => v,
                Err(e) => {
                    return Err(e);
                },
            };
            let right_id = match self.parse_right_id(row) {
                Ok(v) => v,
                Err(e) => {
                    return Err(e);
                },
            };
            let ghost before = map;
            let ghost out = row_outcome(*self, rows@[row_id as int]@, row_id as int);
            match (word_cost, left_id, right_id) {
                (Some(word_cost), Some(left_id), Some(right_id)) => {
                    let surface = match self.get_field_value(row, "surface") {
                        Ok(v) => v,
                        Err(e) => {
                            return Err(e);
                        },
                    };
                    match surface {
                        Some(surface) => {
                            let key = if self.normalize_details {
                                normalize(surface.as_str())
                            } else {
                                surface
                            };
                            let entry = WordEntry {
                                word_id: WordId::new(LexType::System, row_id as u32),
                                word_cost,
                                left_id,
                                right_id,
                            };
                            map.insert(key, entry);
                            proof {
                                assert(out == Ok::<Option<(Seq<char>, WordEntry)>, ()>(Some((key@, entry))));
                                assert forall|k: Seq<char>| #[trigger] map.lookup(k) == entries_of_key(*self, rows@, row_id + 1, k) by {
                                    assert(before.lookup(k) == entries_of_key(*self, rows@, row_id as int, k));
                                }
                                assert forall|k: Seq<char>| #[trigger] map.has_key(k) <==> entries_of_key(*self, rows@, row_id + 1, k).len() > 0 by {
                                    assert(before.has_key(k) <==> entries_of_key(*self, rows@, row_id as int, k).len() > 0);
                                }
                            }
                        },
                        None => {
                            proof {
                                assert(out matches Ok(None));
                                assert forall|k: Seq<char>| #[trigger] map.lookup(k) == entries_of_key(*self, rows@, row_id + 1, k) by {
                                    assert(before.lookup(k) == entries_of_key(*self, rows@, row_id as int, k));
                                }
                                assert forall|k: Seq<char>| #[trigger] map.has_key(k) <==> entries_of_key(*self, rows@, row_id + 1, k).len() > 0 by {
                                    assert(before.has_key(k) <==> entries_of_key(*self, rows@, row_id as int, k).len() > 0);
                                }
                            }
                        },
                    }
                },
                _ => {
                    proof {
                        assert(out matches Ok(None));
                        assert forall|k: Seq<char>| #[trigger] map.lookup(k) == entries_of_key(*self, rows@, row_id + 1, k) by {
                            assert(before.lookup(k) == entries_of_key(*self, rows@, row_id as int, k));
                        }
                        assert forall|k: Seq<char>| #[trigger] map.has_key(k) <==> entries_of_key(*self, rows@, row_id + 1, k).len() > 0 by {
                            assert(before.has_key(k) <==> entries_of_key(*self, rows@, row_id as int, k).len() > 0);
                        }
                    }
                },
            }
            row_id += 1;
        }
        Ok(map)
    }
}

} // verus!

verus! {

/// The detail fields a row stores in `dict.words`: its columns from the
/// fifth on, normalized when asked to.
pub open spec fn row_details(normalize_details: bool, row: Seq<String>) -> Seq<Seq<char>> {
    Seq::new(
        (if row.len() > 4 { row.len() - 4 } else { 0 }) as nat,
        |j: int|
            if normalize_details {
                normalize_spec(row[4 + j]@)
            } else {
                row[4 + j]@
            },
    )
}

/// The UTF-8 bytes of a row's details joined with NUL.
pub open spec fn joined_details_bytes(normalize_details: bool, row: Seq<String>) -> Seq<u8> {
    vstd::utf8::encode_utf8(crate::text::join_spec(row_details(normalize_details, row), '\0'))
}

/// Where the record of row `i` starts in `dict.words`: after the 4-byte
/// length and the payload of every earlier row.
pub open spec fn record_offset(normalize_details: bool, rows: Seq<Vec<String>>, i: int) -> int
    decreases i,
{
    if i <= 0 {
        0
    } else {
        record_offset(normalize_details, rows, i - 1) + 4 + joined_details_bytes(
            normalize_details,
            rows[i - 1]@,
        ).len()
    }
}

/// Whether `data` and `idx` hold the records of the first `n` rows: `idx`
/// one little-endian `u32` offset per row, `data` per row a little-endian
/// `u32` length and the joined details, back to back.
pub open spec fn words_written(
    normalize_details: bool,
    rows: Seq<Vec<String>>,
    n: int,
    data: Seq<u8>,
    idx: Seq<u8>,
) -> bool {
    &&& idx.len() == 4 * n
    &&& data.len() == record_offset(normalize_details, rows, n)
    &&& forall|i: int|
        0 <= i < n ==> {
            let off = record_offset(normalize_details, rows, i);
            let payload = joined_details_bytes(normalize_details, rows[i]@);
            &&& #[trigger] crate::byte_order::u32_at(idx, 4 * i) == off as u32
            &&& crate::byte_order::u32_at(data, off) == payload.len()
            &&& data.subrange(off + 4, off + 4 + payload.len()) == payload
        }
}

proof fn lemma_record_offset_monotone(normalize_details: bool, rows: Seq<Vec<String>>, i: int, j: int)
    requires
        0 <= i <= j,
    ensures
        0 <= record_offset(normalize_details, rows, i),
        record_offset(normalize_details, rows, i) + (if i < j {
            4 + joined_details_bytes(normalize_details, rows[i]@).len()
        } else {
            0
        }) <= record_offset(normalize_details, rows, j),
    decreases j,
{
    lemma_record_offset_nonneg(normalize_details, rows, i);
    if i < j {
        lemma_record_offset_monotone(normalize_details, rows, i, j - 1);
    }
}

proof fn lemma_record_offset_nonneg(normalize_details: bool, rows: Seq<Vec<String>>, i: int)
    ensures
        0 <= record_offset(normalize_details, rows, i),
    decreases i,
{
    if i > 0 {
        lemma_record_offset_nonneg(normalize_details, rows, i - 1);
    }
}

/// Appends the bytes of `bytes` to `out`.
fn append_bytes(out: &mut Vec<u8>, bytes: &[u8])
    ensures
        final(out)@ == old(out)@ + bytes@,
{
    let mut i: usize = 0;
    while i < bytes.len()
        invariant
            i <= bytes@.len(),
            out@ == old(out)@ + bytes@.take(i as int),
        decreases bytes@.len() - i,
    {
        out.push(bytes[i]);
        i += 1;
        assert(out@ =~= old(out)@ + bytes@.take(i as int));
    }
    assert(bytes@.take(bytes@.len() as int) =~= bytes@);
}

proof fn lemma_words_step(
    n: bool,
    rows: Seq<Vec<String>>,
    i: int,
    d0: Seq<u8>,
    i0: Seq<u8>,
    d1: Seq<u8>,
    data: Seq<u8>,
    idx: Seq<u8>,
    bytes: Seq<u8>,
)
    requires
        0 <= i < rows.len(),
        words_written(n, rows, i, d0, i0),
        bytes == joined_details_bytes(n, rows[i]@),
        idx.len() == i0.len() + 4,
        idx.subrange(0, i0.len() as int) == i0,
        crate::byte_order::u32_at(idx, i0.len() as int) == d0.len() as u32,
        d1.len() == d0.len() + 4,
        d1.subrange(0, d0.len() as int) == d0,
        crate::byte_order::u32_at(d1, d0.len() as int) == bytes.len(),
        data == d1 + bytes,
    ensures
        words_written(n, rows, i + 1, data, idx),
{
    assert(record_offset(n, rows, i + 1) == d0.len() + 4 + bytes.len());
    assert(data.subrange(0, d1.len() as int) =~= d1);
    assert(data.subrange(0, d0.len() as int) =~= d0);
    assert forall|t: int| 0 <= t < i + 1 implies {
        let off = record_offset(n, rows, t);
        let p = joined_details_bytes(n, rows[t]@);
        &&& #[trigger] crate::byte_order::u32_at(idx, 4 * t) == off as u32
        &&& crate::byte_order::u32_at(data, off) == p.len()
        &&& data.subrange(off + 4, off + 4 + p.len()) == p
    } by {
        let off = record_offset(n, rows, t);
        let p = joined_details_bytes(n, rows[t]@);
        if t < i {
            lemma_record_offset_monotone(n, rows, t, i);
            assert(off + 4 + p.len() <= d0.len());
            assert(idx[4 * t] == i0[4 * t]);
            assert(idx[4 * t + 1] == i0[4 * t + 1]);
            assert(idx[4 * t + 2] == i0[4 * t + 2]);
            assert(idx[4 * t + 3] == i0[4 * t + 3]);
            assert(crate::byte_order::u32_at(i0, 4 * t) == off as u32);
            let pre = data.subrange(0, d0.len() as int);
            assert(pre[off] == data[off]);
            assert(pre[off + 1] == data[off + 1]);
            assert(pre[off + 2] == data[off + 2]);
            assert(pre[off + 3] == data[off + 3]);
            assert(crate::byte_order::u32_at(d0, off) == p.len());
            assert(data.subrange(off + 4, off + 4 + p.len()) =~= pre.subrange(off + 4, off + 4 + p.len()));
            assert(d0.subrange(off + 4, off + 4 + p.len()) == p);
        } else {
            lemma_record_offset_nonneg(n, rows, i);
            assert(t == i);
            assert(off == d0.len());
            assert(4 * t == i0.len());
            let pre = data.subrange(0, d1.len() as int);
            assert(pre[off] == data[off]);
            assert(pre[off + 1] == data[off + 1]);
            assert(pre[off + 2] == data[off + 2]);
            assert(pre[off + 3] == data[off + 3]);
            assert(data.subrange(off + 4, off + 4 + p.len()) =~= bytes);
        }
    }
    assert(idx.len() == 4 * (i + 1));
    assert(data.len() == record_offset(n, rows, i + 1));
}

impl PrefixDictionaryBuilder {
    /// The detail fields of a row, normalized when asked to.
    fn row_detail_strings(&self, row: &[String]) -> (r: Vec<String>)
        ensures
            crate::text::views_of(r@) == row_details(self.normalize_details, row@),
    {
        let mut out: Vec<String> = Vec::new();
        let mut j: usize = 4;
        while j < row.len()
            invariant
                4 <= j,
                j <= row@.len() || j == 4,
                out@.len() == j - 4,
                forall|t: int|
                    0 <= t < out@.len() ==> #[trigger] out@[t]@ == if self.normalize_details {
                        normalize_spec(row@[4 + t]@)
                    } else {
                        row@[4 + t]@
                    },
            decreases row@.len() - j,
        {
            let field = if self.normalize_details {
                normalize(row[j].as_str())
            } else {
                row[j].clone()
            };
            out.push(field);
            j += 1;
        }
        let ghost rd = row_details(self.normalize_details, row@);
        assert(out@.len() == rd.len());
        assert forall|t: int| 0 <= t < out@.len() implies #[trigger] crate::text::views_of(out@)[t] == rd[t] by {
            assert(crate::text::views_of(out@)[t] == out@[t]@);
        }
        assert(crate::text::views_of(out@) =~= rd);
        out
    }

    /// The contents of `dict.words` and `dict.wordsidx`: per row, its offset
    /// in the index and its NUL-joined details, prefixed by their length, in
    /// the data; a row whose details exceed 4 GiB is a serialize error.
    pub fn words_files(&self, rows: &[Vec<String>]) -> (r: LinderaResult<(Vec<u8>, Vec<u8>)>)
        ensures
            match r {
                Ok((data, idx)) => words_written(self.normalize_details, rows@, rows@.len() as int, data@, idx@),
                Err(e) => e.kind == LinderaErrorKind::Serialize && exists|i: int|
                    0 <= i < rows@.len() && joined_details_bytes(self.normalize_details, #[trigger] rows@[i]@).len() > u32::MAX,
            },
    {
        let mut data: Vec<u8> = Vec::new();
        let mut idx: Vec<u8> = Vec::new();
        let mut i: usize = 0;
        while i < rows.len()
            invariant
                i <= rows@.len(),
                words_written(self.normalize_details, rows@, i as int, data@, idx@),
            decreases rows@.len() - i,
        {
            let offset = data.len();
            let details = self.row_detail_strings(rows[i].as_slice());
            let joined = crate::text::join_with(details.as_slice(), '\0');
            let bytes = joined.as_str().as_bytes();
            let len = bytes.len();
            if len > 0xFFFF_FFFF {
                return Err(error_of(LinderaErrorKind::Serialize, "Word details length too large"));
            }
            let ghost d0 = data@;
            let ghost i0 = idx@;
            crate::byte_order::push_u32_le(&mut idx, offset as u32);
            crate::byte_order::push_u32_le(&mut data, len as u32);
            let ghost d1 = data@;
            append_bytes(&mut data, bytes);
            proof {
                lemma_words_step(self.normalize_details, rows@, i as int, d0, i0, d1, data@, idx@, bytes@);
            }
            i += 1;
        }
        Ok((data, idx))
    }
}

} // verus!

verus! {

/// Reading back what was written, record by record: the index gives each
/// row an offset at which the data holds that row's NUL-joined details, as
/// valid UTF-8 that only that text encodes, and gives no offset past the
/// last row.
pub proof fn lemma_words_records(
    normalize_details: bool,
    rows: Seq<Vec<String>>,
    data: Seq<u8>,
    idx: Seq<u8>,
    i: int,
)
    requires
        words_written(normalize_details, rows, rows.len() as int, data, idx),
        data.len() <= u32::MAX,
        0 <= i < rows.len(),
    ensures
        crate::util::words_idx_offset_spec(idx, i) matches Some(off) && crate::util::record_at(data, off as int)
            == Some(joined_details_bytes(normalize_details, rows[i]@)),
        vstd::utf8::valid_utf8(joined_details_bytes(normalize_details, rows[i]@)),
        forall|s: Seq<char>|
            vstd::utf8::encode_utf8(s) == #[trigger] joined_details_bytes(normalize_details, rows[i]@) ==> s
                == crate::text::join_spec(row_details(normalize_details, rows[i]@), '\0'),
        crate::util::words_idx_offset_spec(idx, rows.len() as int) is None,
{
    let n = normalize_details;
    let off = record_offset(n, rows, i);
    let joined = crate::text::join_spec(row_details(n, rows[i]@), '\0');
    lemma_record_offset_monotone(n, rows, i, rows.len() as int);
    assert(crate::byte_order::u32_at(idx, 4 * i) == off as u32);
    assert(off as u32 == off);
    assert(crate::util::words_idx_offset_spec(idx, i) == Some(off as usize));
    assert(crate::util::record_at(data, off) == Some(joined_details_bytes(n, rows[i]@)));
    vstd::utf8::encode_utf8_valid_utf8(joined);
    vstd::utf8::encode_utf8_decode_utf8(joined);
    assert forall|s: Seq<char>|
        vstd::utf8::encode_utf8(s) == #[trigger] joined_details_bytes(n, rows[i]@) implies s == joined by {
        vstd::utf8::encode_utf8_decode_utf8(s);
    }
}

/// Reading back what was written: the detail record that `dict.words` and
/// `dict.wordsidx` give for row `i` holds that row's detail fields, provided
/// the row has at least one detail field, none of its fields contains NUL,
/// and the records fit the `u32` offsets.
pub proof fn lemma_words_read_back(
    normalize_details: bool,
    rows: Seq<Vec<String>>,
    data: Seq<u8>,
    idx: Seq<u8>,
    i: int,
    missing: Seq<Seq<char>>,
)
    requires
        words_written(normalize_details, rows, rows.len() as int, data, idx),
        data.len() <= u32::MAX,
        0 <= i < rows.len(),
        rows[i]@.len() >= 5,
        forall|j: int|
            0 <= j < rows[i]@.len() - 4 ==> !(#[trigger] row_details(normalize_details, rows[i]@)[j]).contains('\0'),
    ensures
        crate::util::packed_details_spec(idx, data, i, missing) == row_details(normalize_details, rows[i]@),
{
    let n = normalize_details;
    let off = record_offset(n, rows, i);
    let details = row_details(n, rows[i]@);
    let joined = crate::text::join_spec(details, '\0');
    let p = joined_details_bytes(n, rows[i]@);
    lemma_record_offset_monotone(n, rows, i, rows.len() as int);
    assert(crate::byte_order::u32_at(idx, 4 * i) == off as u32);
    assert(off as u32 == off);
    assert(crate::util::words_idx_offset_spec(idx, i) == Some(off as usize));
    assert(crate::util::record_at(data, off) == Some(p));
    vstd::utf8::encode_utf8_valid_utf8(joined);
    vstd::utf8::encode_utf8_decode_utf8(joined);
    crate::text::lemma_split_join(details, '\0');
}

} // verus!

verus! {

/// All entries of the map, surface by surface in key order.
pub open spec fn flat_entries(values: Seq<Vec<WordEntry>>) -> Seq<WordEntry>
    decreases values.len(),
{
    if values.len() == 0 {
        Seq::empty()
    } else {
        flat_entries(values.drop_last()) + values.last()@
    }
}

/// The contents of the four `dict.vals.*` files.
pub struct ValuesFiles {
    /// Word costs, little-endian `i16`.
    pub costs: Vec<u8>,
    /// Left context ids, little-endian `u16`.
    pub left_ids: Vec<u8>,
    /// Right context ids, little-endian `u16`.
    pub right_ids: Vec<u8>,
    /// Word ids, little-endian `u32`.
    pub word_ids: Vec<u8>,
}

/// Whether `f` holds the given entries' costs, context ids and word ids.
pub open spec fn values_written(f: ValuesFiles, es: Seq<WordEntry>) -> bool {
    &&& f.costs@ == crate::byte_order::i16s_le(es.map_values(|e: WordEntry| e.word_cost))
    &&& f.left_ids@ == crate::byte_order::u16s_le(es.map_values(|e: WordEntry| e.left_id))
    &&& f.right_ids@ == crate::byte_order::u16s_le(es.map_values(|e: WordEntry| e.right_id))
    &&& f.word_ids@ == crate::byte_order::u32s_le(es.map_values(|e: WordEntry| e.word_id.id))
}

proof fn lemma_values_push(f0: ValuesFiles, f1: ValuesFiles, es: Seq<WordEntry>, e: WordEntry)
    requires
        values_written(f0, es),
        f1.costs@ == f0.costs@.push(crate::byte_order::i16_lo(e.word_cost)).push(crate::byte_order::i16_hi(e.word_cost)),
        f1.left_ids@ == f0.left_ids@.push((e.left_id % 256) as u8).push((e.left_id / 256) as u8),
        f1.right_ids@ == f0.right_ids@.push((e.right_id % 256) as u8).push((e.right_id / 256) as u8),
        f1.word_ids@ == f0.word_ids@ + crate::byte_order::u32_le_bytes(e.word_id.id),
    ensures
        values_written(f1, es.push(e)),
{
    let es2 = es.push(e);
    assert(es2.map_values(|x: WordEntry| x.word_cost) =~= es.map_values(|x: WordEntry| x.word_cost).push(e.word_cost));
    assert(es2.map_values(|x: WordEntry| x.left_id) =~= es.map_values(|x: WordEntry| x.left_id).push(e.left_id));
    assert(es2.map_values(|x: WordEntry| x.right_id) =~= es.map_values(|x: WordEntry| x.right_id).push(e.right_id));
    let ids2 = es2.map_values(|x: WordEntry| x.word_id.id);
    assert(ids2.drop_last() =~= es.map_values(|x: WordEntry| x.word_id.id));
    assert(f1.costs@ =~= crate::byte_order::i16s_le(es2.map_values(|x: WordEntry| x.word_cost)));
    assert(f1.left_ids@ =~= crate::byte_order::u16s_le(es2.map_values(|x: WordEntry| x.left_id)));
    assert(f1.right_ids@ =~= crate::byte_order::u16s_le(es2.map_values(|x: WordEntry| x.right_id)));
}

/// The contents of the four `dict.vals.*` files: for every entry of every
/// surface, in key order, its cost, left id, right id and word id.
pub fn values_files(map: &WordEntryMap) -> (r: ValuesFiles)
    requires
        map.wf(),
    ensures
        values_written(r, flat_entries(map.values@)),
{
    let mut f = ValuesFiles { costs: Vec::new(), left_ids: Vec::new(), right_ids: Vec::new(), word_ids: Vec::new() };
    proof {
        assert(f.costs@ =~= crate::byte_order::i16s_le(Seq::<WordEntry>::empty().map_values(|e: WordEntry| e.word_cost)));
        assert(f.left_ids@ =~= crate::byte_order::u16s_le(Seq::<WordEntry>::empty().map_values(|e: WordEntry| e.left_id)));
        assert(f.right_ids@ =~= crate::byte_order::u16s_le(Seq::<WordEntry>::empty().map_values(|e: WordEntry| e.right_id)));
        assert(Seq::<WordEntry>::empty().map_values(|e: WordEntry| e.word_id.id) =~= Seq::<u32>::empty());
        assert(map.values@.take(0) =~= Seq::<Vec<WordEntry>>::empty());
    }
    let mut k: usize = 0;
    while k < map.values.len()
        invariant
            k <= map.values@.len(),
            values_written(f, flat_entries(map.values@.take(k as int))),
        decreases map.values@.len() - k,
    {
        let entries = &map.values[k];
        let ghost base = flat_entries(map.values@.take(k as int));
        let mut j: usize = 0;
        assert(base + entries@.take(0) =~= base);
        while j < entries.len()
            invariant
                j <= entries@.len(),
                values_written(f, base + entries@.take(j as int)),
            decreases entries@.len() - j,
        {
            let e = entries[j];
            let ghost f0 = f;
            crate::byte_order::push_i16_le(&mut f.costs, e.word_cost);
            crate::byte_order::push_u16_le(&mut f.left_ids, e.left_id);
            crate::byte_order::push_u16_le(&mut f.right_ids, e.right_id);
            crate::byte_order::push_u32_le(&mut f.word_ids, e.word_id.id);
            proof {
                lemma_values_push(f0, f, base + entries@.take(j as int), e);
                assert((base + entries@.take(j as int)).push(e) =~= base + entries@.take(j + 1));
            }
            j += 1;
        }
        proof {
            assert(entries@.take(entries@.len() as int) =~= entries@);
            let t = map.values@.take(k + 1);
            assert(t.drop_last() =~= map.values@.take(k as int));
            assert(t.last() == map.values@[k as int]);
        }
        k += 1;
    }
    assert(map.values@.take(map.values@.len() as int) =~= map.values@);
    f
}

} // verus!

verus! {

/// What `yada` builds for a keyset of `(key bytes, value)` pairs: the bytes
/// of the double-array trie, or `None` when it refuses the keyset.
pub uninterp spec fn double_array_of(keyset: Seq<(Seq<u8>, u32)>) -> Option<Seq<u8>>;

/// A keyset with its keys as byte sequences.
pub open spec fn keyset_view(keyset: Seq<(Vec<u8>, u32)>) -> Seq<(Seq<u8>, u32)> {
    keyset.map_values(|p: (Vec<u8>, u32)| (p.0@, p.1))
}

/// Builds a double-array trie.
///
/// Calls `yada::builder::DoubleArrayBuilder::build`; the contract claims
/// that the outcome depends on the keyset alone and that an empty keyset is
/// refused.
#[verifier::external_body]
fn build_double_array(keyset: &Vec<(Vec<u8>, u32)>) -> (r: Option<Vec<u8>>)
    ensures
        match r {
            Some(v) => double_array_of(keyset_view(keyset@)) == Some(v@),
            None => double_array_of(keyset_view(keyset@)) is None,
        },
        keyset@.len() == 0 ==> r is None,
{
    yada::builder::DoubleArrayBuilder::build(keyset.as_slice()).ok()
}

/// The keyset of the trie: per surface, in key order, its UTF-8 bytes and
/// `first_id << 5 | count`, where `first_id` counts the entries of the
/// surfaces before it and `count` is its number of entries.
pub open spec fn keyset_spec(keys: Seq<String>, values: Seq<Vec<WordEntry>>) -> Seq<(Seq<u8>, u32)> {
    Seq::new(
        keys.len(),
        |k: int|
            (
                vstd::utf8::encode_utf8(keys[k]@),
                ((flat_entries(values.take(k)).len() as u32) << 5u32) | (values[k]@.len() as u32),
            ),
    )
}

pub proof fn lemma_flat_entries_take(values: Seq<Vec<WordEntry>>, k: int)
    requires
        0 <= k < values.len(),
    ensures
        flat_entries(values.take(k + 1)).len() == flat_entries(values.take(k)).len() + values[k]@.len(),
        flat_entries(values.take(k)).len() <= flat_entries(values).len(),
        flat_entries(values.take(k + 1)).len() <= flat_entries(values).len(),
    decreases values.len() - k,
{
    let t = values.take(k + 1);
    assert(t.drop_last() =~= values.take(k));
    if k + 1 < values.len() {
        lemma_flat_entries_take(values, k + 1);
    } else {
        assert(values.take(k + 1) =~= values);
    }
}

/// The keyset of the trie over the map's surfaces.
pub fn keyset_of(map: &WordEntryMap) -> (r: Vec<(Vec<u8>, u32)>)
    requires
        map.wf(),
        flat_entries(map.values@).len() <= u32::MAX,
    ensures
        keyset_view(r@) == keyset_spec(map.keys@, map.values@),
{
    let mut out: Vec<(Vec<u8>, u32)> = Vec::new();
    let mut id: u32 = 0;
    let mut k: usize = 0;
    assert(map.values@.take(0) =~= Seq::<Vec<WordEntry>>::empty());
    while k < map.keys.len()
        invariant
            map.wf(),
            flat_entries(map.values@).len() <= u32::MAX,
            k <= map.keys@.len(),
            id == flat_entries(map.values@.take(k as int)).len(),
            keyset_view(out@) == keyset_spec(map.keys@, map.values@).take(k as int),
        decreases map.keys@.len() - k,
    {
        proof {
            lemma_flat_entries_take(map.values@, k as int);
        }
        assert(map.values@[k as int]@.len() <= u32::MAX);
        let len = map.values[k].len() as u32;
        let mut bytes: Vec<u8> = Vec::new();
        append_bytes(&mut bytes, map.keys[k].as_str().as_bytes());
        let val = (id << 5u32) | len;
        let ghost before = out@;
        out.push((bytes, val));
        proof {
            assert(keyset_view(out@) =~= keyset_view(before).push((bytes@, val)));
            assert(keyset_view(out@) =~= keyset_spec(map.keys@, map.values@).take(k + 1));
        }
        id = id + len;
        k += 1;
    }
    assert(keyset_spec(map.keys@, map.values@).take(map.keys@.len() as int) =~= keyset_spec(
        map.keys@,
        map.values@,
    ));
    out
}

/// The contents of `dict.da`: the double-array trie over the surfaces; a
/// keyset that `yada` refuses is a build error.
pub fn double_array_file(map: &WordEntryMap) -> (r: LinderaResult<Vec<u8>>)
    requires
        map.wf(),
        flat_entries(map.values@).len() <= u32::MAX,
    ensures
        match r {
            Ok(v) => double_array_of(keyset_spec(map.keys@, map.values@)) == Some(v@),
            Err(e) => double_array_of(keyset_spec(map.keys@, map.values@)) is None && e.kind
                == LinderaErrorKind::Build,
        },
{
    let keyset = keyset_of(map);
    match build_double_array(&keyset) {
        Some(v) => Ok(v),
        None => Err(error_of(LinderaErrorKind::Build, "DoubleArray build error.")),
    }
}

} // verus!

verus! {

/// Whether `ks` lists, strictly ascending, exactly the surfaces that the
/// rows give entries.
pub open spec fn is_surface_list(b: PrefixDictionaryBuilder, rows: Seq<Vec<String>>, ks: Seq<Seq<char>>) -> bool {
    &&& forall|i: int, j: int| 0 <= i < j < ks.len() ==> crate::text::seq_lt(#[trigger] ks[i], #[trigger] ks[j])
    &&& forall|k: Seq<char>|
        #[trigger] ks.contains(k) <==> entries_of_key(b, rows, rows.len() as int, k).len() > 0
}

/// The surfaces that the rows give entries, ascending.
pub open spec fn surface_list(b: PrefixDictionaryBuilder, rows: Seq<Vec<String>>) -> Seq<Seq<char>> {
    choose|ks: Seq<Seq<char>>| is_surface_list(b, rows, ks)
}

/// How many entries the first `k` surfaces of `ks` have.
pub open spec fn entries_before(b: PrefixDictionaryBuilder, rows: Seq<Vec<String>>, ks: Seq<Seq<char>>, k: int) -> nat
    decreases k,
{
    if k <= 0 {
        0
    } else {
        entries_before(b, rows, ks, k - 1) + entries_of_key(b, rows, rows.len() as int, ks[k - 1]).len()
    }
}

/// The keyset of the trie that the rows give: per surface with entries, in
/// ascending order, its UTF-8 bytes and `first_id << 5 | count`, where
/// `first_id` counts the entries of the surfaces before it and `count` is
/// its number of entries.
pub open spec fn keyset_of_rows(b: PrefixDictionaryBuilder, rows: Seq<Vec<String>>) -> Seq<(Seq<u8>, u32)> {
    let ks = surface_list(b, rows);
    Seq::new(
        ks.len(),
        |k: int|
            (
                vstd::utf8::encode_utf8(ks[k]),
                ((entries_before(b, rows, ks, k) as u32) << 5u32) | (entries_of_key(
                    b,
                    rows,
                    rows.len() as int,
                    ks[k],
                ).len() as u32),
            ),
    )
}

/// Two strictly ascending lists of the same surfaces are equal.
proof fn lemma_sorted_unique(a: Seq<Seq<char>>, b: Seq<Seq<char>>)
    requires
        forall|i: int, j: int| 0 <= i < j < a.len() ==> crate::text::seq_lt(#[trigger] a[i], #[trigger] a[j]),
        forall|i: int, j: int| 0 <= i < j < b.len() ==> crate::text::seq_lt(#[trigger] b[i], #[trigger] b[j]),
        forall|k: Seq<char>| #[trigger] a.contains(k) <==> b.contains(k),
    ensures
        a == b,
    decreases a.len(),
{
    if a.len() == 0 {
        if b.len() > 0 {
            assert(b.contains(b[0]));
            assert(a.contains(b[0]));
            assert(false);
        }
        assert(b =~= a);
    } else {
        assert(a.contains(a[0]));
        assert(b.contains(a[0]));
        if b.len() == 0 {
            assert(false);
        }
        assert(b.contains(b[0]));
        assert(a.contains(b[0]));
        let j = choose|j: int| 0 <= j < b.len() && b[j] == a[0];
        let i = choose|i: int| 0 <= i < a.len() && a[i] == b[0];
        if a[0] != b[0] {
            assert(j > 0 && i > 0);
            assert(crate::text::seq_lt(b[0], b[j]));
            assert(crate::text::seq_lt(a[0], a[i]));
            crate::text::lemma_seq_lt_asymmetric(a[0], b[0]);
        }
        assert(a[0] == b[0]);
        let ta = a.drop_first();
        let tb = b.drop_first();
        assert forall|k: Seq<char>| #[trigger] ta.contains(k) <==> tb.contains(k) by {
            if ta.contains(k) {
                let p = choose|p: int| 0 <= p < ta.len() && ta[p] == k;
                assert(a[p + 1] == k);
                assert(crate::text::seq_lt(a[0], a[p + 1]));
                crate::text::lemma_seq_lt_irreflexive(a[0]);
                assert(a.contains(k));
                assert(b.contains(k));
                let q = choose|q: int| 0 <= q < b.len() && b[q] == k;
                if q == 0 {
                    assert(a[0] == k);
                    assert(false);
                }
                assert(tb[q - 1] == k);
            }
            if tb.contains(k) {
                let p = choose|p: int| 0 <= p < tb.len() && tb[p] == k;
                assert(b[p + 1] == k);
                assert(crate::text::seq_lt(b[0], b[p + 1]));
                crate::text::lemma_seq_lt_irreflexive(b[0]);
                assert(b.contains(k));
                assert(a.contains(k));
                let q = choose|q: int| 0 <= q < a.len() && a[q] == k;
                if q == 0 {
                    assert(b[0] == k);
                    assert(false);
                }
                assert(ta[q - 1] == k);
            }
        }
        assert forall|i: int, j: int| 0 <= i < j < ta.len() implies crate::text::seq_lt(#[trigger] ta[i], #[trigger] ta[j]) by {
            assert(ta[i] == a[i + 1] && ta[j] == a[j + 1]);
        }
        assert forall|i: int, j: int| 0 <= i < j < tb.len() implies crate::text::seq_lt(#[trigger] tb[i], #[trigger] tb[j]) by {
            assert(tb[i] == b[i + 1] && tb[j] == b[j + 1]);
        }
        lemma_sorted_unique(ta, tb);
        assert(a =~= seq![a[0]] + ta);
        assert(b =~= seq![b[0]] + tb);
    }
}

/// The keyset of a map that holds the rows' entries is the rows' keyset.
pub proof fn lemma_map_keyset(b: PrefixDictionaryBuilder, rows: Seq<Vec<String>>, m: WordEntryMap)
    requires
        m.wf(),
        forall|k: Seq<char>| #[trigger] m.lookup(k) == entries_of_key(b, rows, rows.len() as int, k),
        forall|k: Seq<char>| #[trigger] m.has_key(k) <==> entries_of_key(b, rows, rows.len() as int, k).len() > 0,
    ensures
        keyset_spec(m.keys@, m.values@) == keyset_of_rows(b, rows),
{
    let mk = m.keys@.map_values(|s: String| s@);
    assert forall|i: int, j: int| 0 <= i < j < mk.len() implies crate::text::seq_lt(#[trigger] mk[i], #[trigger] mk[j]) by {
        assert(mk[i] == m.keys@[i]@ && mk[j] == m.keys@[j]@);
    }
    assert forall|k: Seq<char>| #[trigger] mk.contains(k) <==> entries_of_key(b, rows, rows.len() as int, k).len() > 0 by {
        if mk.contains(k) {
            let p = choose|p: int| 0 <= p < mk.len() && mk[p] == k;
            assert(m.keys@[p]@ == k);
            assert(m.has_key(k));
        }
        if entries_of_key(b, rows, rows.len() as int, k).len() > 0 {
            assert(m.has_key(k));
            let p = choose|p: int| 0 <= p < m.keys@.len() && (#[trigger] m.keys@[p])@ == k;
            assert(mk[p] == k);
        }
    }
    assert(is_surface_list(b, rows, mk));
    let ks = surface_list(b, rows);
    assert(is_surface_list(b, rows, ks));
    lemma_sorted_unique(ks, mk);
    let n = rows.len() as int;
    assert forall|k: int| 0 <= k < mk.len() implies #[trigger] m.values@[k]@ == entries_of_key(b, rows, n, mk[k]) by {
        lemma_lookup_at(&m, k);
    }
    assert forall|k: int| 0 <= k <= mk.len() implies #[trigger] flat_entries(m.values@.take(k)).len() == entries_before(
        b,
        rows,
        ks,
        k,
    ) by {
        lemma_flat_before(b, rows, m, ks, k);
    }
    let lhs = keyset_spec(m.keys@, m.values@);
    let rhs = keyset_of_rows(b, rows);
    assert forall|k: int| 0 <= k < lhs.len() implies lhs[k] == rhs[k] by {
        assert(flat_entries(m.values@.take(k)).len() == entries_before(b, rows, ks, k));
        assert(m.values@[k]@ == entries_of_key(b, rows, n, mk[k]));
    }
    assert(lhs =~= rhs);
}

proof fn lemma_flat_before(b: PrefixDictionaryBuilder, rows: Seq<Vec<String>>, m: WordEntryMap, ks: Seq<Seq<char>>, k: int)
    requires
        m.wf(),
        0 <= k <= m.keys@.len(),
        ks == m.keys@.map_values(|s: String| s@),
        forall|j: int| 0 <= j < ks.len() ==> #[trigger] m.values@[j]@ == entries_of_key(b, rows, rows.len() as int, ks[j]),
    ensures
        flat_entries(m.values@.take(k)).len() == entries_before(b, rows, ks, k),
    decreases k,
{
    if k == 0 {
        assert(m.values@.take(0) =~= Seq::<Vec<WordEntry>>::empty());
    } else {
        lemma_flat_before(b, rows, m, ks, k - 1);
        lemma_flat_entries_take(m.values@, k - 1);
        assert(m.values@[k - 1]@ == entries_of_key(b, rows, rows.len() as int, ks[k - 1]));
    }
}

/// The contents of the prefix dictionary's files, uncompressed.
pub struct PrefixDictionaryFiles {
    /// The word entries by surface.
    pub entries: WordEntryMap,
    /// `dict.da`: the double-array trie over the surfaces.
    pub da: Vec<u8>,
    /// `dict.words`: the detail records.
    pub words: Vec<u8>,
    /// `dict.wordsidx`: the offsets of the detail records.
    pub words_idx: Vec<u8>,
    /// `dict.vals.*`: costs, context ids and word ids of the entries.
    pub values: ValuesFiles,
}

/// The sort key of a row: its first column, normalized when asked to.
pub open spec fn row_key(normalize_details: bool, row: Seq<String>) -> Seq<char> {
    if normalize_details {
        normalize_spec(row[0]@)
    } else {
        row[0]@
    }
}

impl PrefixDictionaryBuilder {
    /// The sort key of a row.
    pub fn row_sort_key(&self, row: &Vec<String>) -> (r: String)
        requires
            row@.len() >= 1,
        ensures
            r@ == row_key(self.normalize_details, row@),
    {
        if self.normalize_details {
            normalize(row[0].as_str())
        } else {
            row[0].clone()
        }
    }
}

impl PrefixDictionaryBuilder {
    /// Sorts lexicon rows stably by their first column (normalized when
    /// asked to), the order the dictionary is built in.
    pub fn sort_rows(&self, rows: &mut Vec<Vec<String>>)
        requires
            forall|i: int| 0 <= i < old(rows)@.len() ==> (#[trigger] old(rows)@[i])@.len() >= 1,
        ensures
            crate::sorting::stable_sort_of(
                final(rows)@,
                old(rows)@,
                old(rows)@.map_values(|row: Vec<String>| row_key(self.normalize_details, row@)),
            ),
    {
        let mut keys: Vec<String> = Vec::new();
        let mut i: usize = 0;
        while i < rows.len()
            invariant
                i <= rows@.len(),
                rows@ == old(rows)@,
                forall|k: int| 0 <= k < rows@.len() ==> (#[trigger] rows@[k])@.len() >= 1,
                crate::text::views_of(keys@) == old(rows)@.map_values(
                    |row: Vec<String>| row_key(self.normalize_details, row@),
                ).take(i as int),
            decreases rows@.len() - i,
        {
            let k = self.row_sort_key(&rows[i]);
            let ghost before = keys@;
            keys.push(k);
            assert(k@ == row_key(self.normalize_details, old(rows)@[i as int]@));
            assert(crate::text::views_of(keys@) =~= crate::text::views_of(before).push(k@));
            assert(crate::text::views_of(keys@) =~= old(rows)@.map_values(
                |row: Vec<String>| row_key(self.normalize_details, row@),
            ).take(i + 1));
            i += 1;
        }
        assert(crate::text::views_of(keys@) =~= old(rows)@.map_values(
            |row: Vec<String>| row_key(self.normalize_details, row@),
        ));
        crate::sorting::sort_rows_by_keys(rows, &keys);
    }

    /// Builds the contents of the prefix dictionary's files from the lexicon
    /// rows (in the order the dictionary is built in): the entries by
    /// surface, the trie, the detail records and the entry values.
    pub fn build(&self, rows: &[Vec<String>]) -> (r: LinderaResult<PrefixDictionaryFiles>)
        requires
            rows@.len() <= u32::MAX,
        ensures
            match r {
                Ok(f) => {
                    &&& f.entries.wf()
                    &&& forall|k: Seq<char>|
                        #[trigger] f.entries.lookup(k) == entries_of_key(*self, rows@, rows@.len() as int, k)
                    &&& forall|k: Seq<char>|
                        #[trigger] f.entries.has_key(k) <==> entries_of_key(*self, rows@, rows@.len() as int, k).len() > 0
                    &&& words_written(self.normalize_details, rows@, rows@.len() as int, f.words@, f.words_idx@)
                    &&& double_array_of(keyset_spec(f.entries.keys@, f.entries.values@)) == Some(f.da@)
                    &&& values_written(f.values, flat_entries(f.entries.values@))
                },
                Err(e) => (e.kind == LinderaErrorKind::Content && exists|i: int|
                    0 <= i < rows@.len() && #[trigger] row_outcome(*self, rows@[i]@, i) is Err) || (e.kind
                    == LinderaErrorKind::Serialize && exists|i: int|
                    0 <= i < rows@.len() && joined_details_bytes(self.normalize_details, #[trigger] rows@[i]@).len()
                        > u32::MAX) || (e.kind == LinderaErrorKind::Build && double_array_of(
                    keyset_of_rows(*self, rows@),
                ) is None),
            },
            (forall|i: int| 0 <= i < rows@.len() ==> #[trigger] row_outcome(*self, rows@[i]@, i) is Ok)
                && (forall|i: int|
                0 <= i < rows@.len() ==> joined_details_bytes(self.normalize_details, #[trigger] rows@[i]@).len()
                    <= u32::MAX) ==> (r is Ok <==> double_array_of(keyset_of_rows(*self, rows@)) is Some),
            r matches Ok(f) ==> double_array_of(keyset_of_rows(*self, rows@)) == Some(f.da@),
    {
        let entries = self.build_word_entry_map(rows)?;
        let (words, words_idx) = self.words_files(rows)?;
        proof {
            lemma_entry_count_flat(entries.values@);
            lemma_map_keyset(*self, rows@, entries);
        }
        let da = double_array_file(&entries)?;
        let values = values_files(&entries);
        Ok(PrefixDictionaryFiles { entries, da, words, words_idx, values })
    }
}

} // verus!

verus! {

/// Packs the id of a surface's first entry (24 bits) and its number of
/// entries (8 bits, up to 255) into one trie value; an id or a count that
/// does not fit is a build error.
pub fn pack_entry_value(key: &str, id: u32, len: u32) -> (r: LinderaResult<u32>)
    ensures
        match r {
            Ok(v) => id < 0x100_0000 && len < 0x100 && v == crate::dictionary::prefix_dictionary::packed_value(
                id,
                len,
            ),
            Err(e) => !(id < 0x100_0000 && len < 0x100) && e.kind == LinderaErrorKind::Build,
        },
{
    if len >= 0x100 {
        return Err(error_of(LinderaErrorKind::Build, "too many entries for one surface (at most 255)"));
    }
    if id >= 0x100_0000 {
        return Err(error_of(LinderaErrorKind::Build, "word id does not fit in 24 bits"));
    }
    Ok((id << 8u32) | len)
}

} // verus!

verus! {

/// The text of a source file in the encoding of the WHATWG label `label`;
/// an unknown label, or one that selects the replacement encoding, is a
/// decode error.
pub fn decode_text(bytes: &[u8], label: &str) -> (r: LinderaResult<String>)
    ensures
        r is Ok <==> encoding_name_of(label@) is Some,
        r matches Ok(t) ==> t@ == decoded_text_of(label@, bytes@),
        r matches Err(e) ==> e.kind == LinderaErrorKind::Decode,
{
    match decode_for_label(label, bytes) {
        Some(t) => Ok(t),
        None => Err(error_of(LinderaErrorKind::Decode, "Invalid encoding")),
    }
}

/// The records of a lexicon CSV file: its bytes decoded in the encoding of
/// `encoding`, then read as CSV without a header row (records of varying
/// length allowed when `flexible`). An unknown encoding is a decode error,
/// a record that does not parse a content error.
pub fn parse_lexicon(bytes: &[u8], encoding: &str, flexible: bool) -> (r: LinderaResult<Vec<Vec<String>>>)
    ensures
        encoding_name_of(encoding@) is None ==> (r matches Err(e) && e.kind == LinderaErrorKind::Decode),
        encoding_name_of(encoding@) is Some ==> match r {
            Ok(v) => csv_records_of(vstd::utf8::encode_utf8(decoded_text_of(encoding@, bytes@)), flexible) == Some(
                rows_view(v@),
            ),
            Err(e) => csv_records_of(vstd::utf8::encode_utf8(decoded_text_of(encoding@, bytes@)), flexible) is None
                && e.kind == LinderaErrorKind::Content,
        },
{
    let text = decode_text(bytes, encoding)?;
    match parse_csv_records(text.as_str().as_bytes(), flexible) {
        Some(rows) => Ok(rows),
        None => Err(error_of(LinderaErrorKind::Content, "Failed to parse CSV record")),
    }
}

} // verus!
