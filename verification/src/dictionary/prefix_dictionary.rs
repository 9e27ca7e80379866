//! Matches of the prefix dictionary.
use vstd::prelude::*;
use crate::byte_order::u32_at;
use crate::error::{LinderaErrorKind, error_of};
use crate::LinderaResult;
use crate::builder::prefix_dictionary::{WordEntryMap, flat_entries};
use crate::viterbi::{WordEntry, SERIALIZED_LEN, entry_record, entry_of_record};

verus! {

/// Identifies a word by its id within the dictionary it came from.
#[derive(Debug, Clone, Copy, PartialEq, Eq, Structural)]
pub struct WordIdx {
    /// The word id.
    pub word_id: u32,
}

impl WordIdx {
    /// Wraps a raw word id.
    pub fn new(word_id: u32) -> (r: Self)
        ensures
            r.word_id == word_id,
    {
        WordIdx { word_id }
    }
}

/// A dictionary word matching a prefix of the input.
#[derive(Debug, Clone, Copy, PartialEq, Eq, Structural)]
pub struct Match {
    /// Which word matched.
    pub word_idx: WordIdx,
    /// Match length in characters.
    pub end_char: usize,
}

} // verus!

verus! {

/// The mask of the index or value bits of a trie node's `base` and `check`.
pub const OFFSET_MASK: u32 = 0x7fff_ffff;

/// The flag bit of a node's `base` (a leaf) and `check` (has a leaf child).
pub const LEAF_FLAG: u32 = 0x8000_0000;

/// The code-table value of a character that occurs in no key.
pub const INVALID_CODE: u32 = 0xffff_ffff;

/// Whether `t` holds a well-framed serialized trie:
/// `[table_len: u32][table: 4 * table_len][alphabet_size: u32][node_len: u32][nodes: 8 * node_len]`.
pub open spec fn trie_layout_ok(t: Seq<u8>) -> bool {
    &&& t.len() >= 4
    &&& 4 * (u32_at(t, 0) as int) + 12 <= t.len()
    &&& 4 * (u32_at(t, 0) as int) + 12 + 8 * (u32_at(t, 4 * (u32_at(t, 0) as int) + 8) as int) == t.len()
}

/// The entries stored back to back in `b`, as many whole records as it
/// holds; `is_system` chooses their lexicon.
pub open spec fn entries_of_bytes(b: Seq<u8>, is_system: bool) -> Seq<WordEntry> {
    Seq::new(
        b.len() / 10,
        |i: int| entry_of_record(b.subrange(10 * i, 10 * i + 10), is_system),
    )
}

/// The records of the entries, back to back.
pub open spec fn entry_records(es: Seq<WordEntry>) -> Seq<u8>
    decreases es.len(),
{
    if es.len() == 0 {
        Seq::empty()
    } else {
        entry_records(es.drop_last()) + entry_record(es.last())
    }
}

/// What one step of a trie walk finds at the node just entered.
pub enum TrieStep {
    /// No key ends here: the walk goes on.
    Continue,
    /// The bytes are malformed: the search ends.
    Stop,
    /// A key ends here, with these entry records.
    Yield(Seq<u8>),
}

/// The system prefix dictionary: a serialized double-array trie, walked in
/// place, over the surfaces of the lexicon. The trie maps a surface to its
/// ordinal among the keys; `vals_idx` (a `u32` prefix sum) turns the ordinal
/// into a run of entry records inside `vals_data`.
pub struct PrefixDictionary {
    trie_data: Vec<u8>,
    table_len: usize,
    nodes_start: usize,
    vals_idx: Vec<u8>,
    /// The entry records, back to back.
    pub vals_data: Vec<u8>,
    /// Byte offsets into `words_data`, one `u32` per word id.
    pub words_idx_data: Vec<u8>,
    /// The word detail records.
    pub words_data: Vec<u8>,
    root_base: u32,
}

impl PrefixDictionary {
    /// The serialized trie.
    pub closed spec fn trie(&self) -> Seq<u8> {
        self.trie_data@
    }

    /// The number of entries of the code table.
    pub closed spec fn table_len_spec(&self) -> int {
        self.table_len as int
    }

    /// Where the node array starts inside the trie.
    pub closed spec fn nodes_start_spec(&self) -> int {
        self.nodes_start as int
    }

    /// The prefix sum of the entry counts per key.
    pub closed spec fn vals_idx_spec(&self) -> Seq<u8> {
        self.vals_idx@
    }

    /// The entry records.
    pub closed spec fn vals(&self) -> Seq<u8> {
        self.vals_data@
    }

    /// The root node's raw `base`.
    pub closed spec fn root_base_spec(&self) -> u32 {
        self.root_base
    }

    /// Node `idx`'s raw `(base, check)`, or `None` outside the trie.
    pub open spec fn node_spec(&self, idx: u32) -> Option<(u32, u32)> {
        let off = self.nodes_start_spec() + 8 * (idx as int);
        if off + 8 <= self.trie().len() {
            Some((u32_at(self.trie(), off), u32_at(self.trie(), off + 4)))
        } else {
            None
        }
    }

    /// The trie code of `c`, or `None` when `c` occurs in no key.
    pub open spec fn code_spec(&self, c: char) -> Option<u32> {
        let ord = c as u32 as int;
        if ord >= self.table_len_spec() || 4 * ord + 8 > self.trie().len() {
            None
        } else if u32_at(self.trie(), 4 * ord + 4) == INVALID_CODE {
            None
        } else {
            Some(u32_at(self.trie(), 4 * ord + 4))
        }
    }

    /// The entry records of key `key_ord`, or `None` when the indexes are out
    /// of range.
    pub open spec fn entry_run(&self, key_ord: u32) -> Option<Seq<u8>> {
        let i = 4 * (key_ord as int);
        if i + 8 > self.vals_idx_spec().len() {
            None
        } else {
            let s = 10 * (u32_at(self.vals_idx_spec(), i) as int);
            let e = 10 * (u32_at(self.vals_idx_spec(), i + 4) as int);
            if s <= e && e <= self.vals().len() {
                Some(self.vals().subrange(s, e))
            } else {
                None
            }
        }
    }

    /// The transition labelled `mc` out of node `node_idx` (whose raw base
    /// is `node_base`): the child's index, base and check.
    pub open spec fn advance_spec(&self, node_idx: u32, node_base: u32, mc: u32) -> Option<(u32, u32, u32)> {
        if node_base & LEAF_FLAG != 0 {
            None
        } else {
            let child = (node_base & OFFSET_MASK) ^ mc;
            match self.node_spec(child) {
                None => None,
                Some((cb, cc)) => if cc & OFFSET_MASK != node_idx {
                    None
                } else {
                    Some((child, cb, cc))
                },
            }
        }
    }

    /// What the node with raw pair `(cb, cc)` yields.
    pub open spec fn step_spec(&self, cb: u32, cc: u32) -> TrieStep {
        if cb & LEAF_FLAG != 0 {
            match self.entry_run(cb & OFFSET_MASK) {
                Some(b) => TrieStep::Yield(b),
                None => TrieStep::Stop,
            }
        } else if cc & LEAF_FLAG != 0 {
            match self.node_spec(cb & OFFSET_MASK) {
                Some((lb, _)) => match self.entry_run(lb & OFFSET_MASK) {
                    Some(b) => TrieStep::Yield(b),
                    None => TrieStep::Stop,
                },
                None => TrieStep::Stop,
            }
        } else {
            TrieStep::Continue
        }
    }

    /// The matches of a walk over `codes` from position `pos` at node
    /// `node_idx`: for each key that ends on the way, its entry records and
    /// the number of codes consumed. A `None` code ends the walk.
    pub open spec fn walk(&self, codes: Seq<Option<u32>>, pos: int, node_idx: u32, node_base: u32) -> Seq<(Seq<u8>, int)>
        decreases codes.len() - pos,
    {
        if pos < 0 || pos >= codes.len() {
            Seq::empty()
        } else {
            match codes[pos] {
                None => Seq::empty(),
                Some(mc) => match self.advance_spec(node_idx, node_base, mc) {
                    None => Seq::empty(),
                    Some((ci, cb, cc)) => match self.step_spec(cb, cc) {
                        TrieStep::Continue => self.walk(codes, pos + 1, ci, cb),
                        TrieStep::Stop => Seq::empty(),
                        TrieStep::Yield(b) => seq![(b, pos + 1)] + self.walk(codes, pos + 1, ci, cb),
                    },
                },
            }
        }
    }

    /// The codes of `chars`.
    pub open spec fn codes_of(&self, chars: Seq<char>) -> Seq<Option<u32>> {
        chars.map_values(|c: char| self.code_spec(c))
    }

    /// The matches of the keys that are prefixes of `chars`, shortest first.
    pub open spec fn search_spec(&self, chars: Seq<char>) -> Seq<(Seq<u8>, int)> {
        self.walk(self.codes_of(chars), 0, 0, self.root_base_spec())
    }
}

/// The matches with their records as byte sequences.
pub open spec fn match_views(v: Seq<(Vec<u8>, usize)>) -> Seq<(Seq<u8>, int)> {
    v.map_values(|p: (Vec<u8>, usize)| (p.0@, p.1 as int))
}

} // verus!

verus! {

/// What one walk step found, with the entry records copied out.
enum StepOutput {
    Continue,
    Stop,
    Yield(Vec<u8>),
}

/// The optional codes of pre-mapped codes, `INVALID_CODE` marking a
/// character that occurs in no key.
pub open spec fn optional_codes(codes: Seq<u32>) -> Seq<Option<u32>> {
    codes.map_values(|c: u32| if c == INVALID_CODE { None } else { Some(c) })
}

impl PrefixDictionary {
    /// The word detail offsets.
    pub closed spec fn words_idx(&self) -> Seq<u8> {
        self.words_idx_data@
    }

    /// The word detail records.
    pub closed spec fn words(&self) -> Seq<u8> {
        self.words_data@
    }

    /// The word-id index, borrowed.
    pub fn words_idx_bytes(&self) -> (r: &[u8])
        ensures
            r@ == self.words_idx(),
    {
        self.words_idx_data.as_slice()
    }

    /// The word detail records, borrowed.
    pub fn words_bytes(&self) -> (r: &[u8])
        ensures
            r@ == self.words(),
    {
        self.words_data.as_slice()
    }

    /// Loads a dictionary from the contents of its trie, values index,
    /// values, word detail index and word detail files.
    ///
    /// The trie's headers must frame it exactly and the values index must
    /// hold whole `u32` records; otherwise this is a deserialize error. The
    /// nodes themselves are not scanned: every read during a search is
    /// bounds-checked, so malformed nodes only end a search early.
    pub fn load(
        trie_data: Vec<u8>,
        vals_idx: Vec<u8>,
        vals_data: Vec<u8>,
        words_idx_data: Vec<u8>,
        words_data: Vec<u8>,
    ) -> (r: LinderaResult<PrefixDictionary>)
        ensures
            match r {
                Ok(d) => {
                    &&& trie_layout_ok(trie_data@)
                    &&& vals_idx@.len() % 4 == 0
                    &&& d.trie() == trie_data@
                    &&& d.table_len_spec() == u32_at(trie_data@, 0) as int
                    &&& d.nodes_start_spec() == 4 * (u32_at(trie_data@, 0) as int) + 12
                    &&& d.vals_idx_spec() == vals_idx@
                    &&& d.vals() == vals_data@
                    &&& d.words_idx() == words_idx_data@
                    &&& d.words() == words_data@
                    &&& d.root_base_spec() == (if d.nodes_start_spec() < trie_data@.len() {
                        u32_at(trie_data@, d.nodes_start_spec())
                    } else {
                        LEAF_FLAG
                    })
                },
                Err(e) => e.kind == LinderaErrorKind::Deserialize && !(trie_layout_ok(trie_data@)
                    && vals_idx@.len() % 4 == 0),
            },
    {
        let n = trie_data.len();
        if n < 4 {
            return Err(error_of(LinderaErrorKind::Deserialize, "dict.trie is too short for a trie header"));
        }
        let table_len = crate::byte_order::read_u32_le(trie_data.as_slice(), 0);
        let ns64: u64 = (table_len as u64) * 4 + 12;
        if ns64 > n as u64 {
            return Err(
                error_of(
                    LinderaErrorKind::Deserialize,
                    "dict.trie declares a code table that exceeds the file",
                ),
            );
        }
        let nodes_start = ns64 as usize;
        let node_len = crate::byte_order::read_u32_le(trie_data.as_slice(), nodes_start - 4);
        let expected: u64 = (node_len as u64) * 8 + ns64;
        if expected != n as u64 {
            return Err(
                error_of(
                    LinderaErrorKind::Deserialize,
                    "dict.trie declares more or fewer nodes than the file holds",
                ),
            );
        }
        if vals_idx.len() % 4 != 0 {
            return Err(
                error_of(
                    LinderaErrorKind::Deserialize,
                    "dict.valsidx is not a whole number of u32 records",
                ),
            );
        }
        let root_base = if node_len > 0 {
            crate::byte_order::read_u32_le(trie_data.as_slice(), nodes_start)
        } else {
            LEAF_FLAG
        };
        Ok(
            PrefixDictionary {
                trie_data,
                table_len: table_len as usize,
                nodes_start,
                vals_idx,
                vals_data,
                words_idx_data,
                words_data,
                root_base,
            },
        )
    }

    /// Node `idx`'s raw `(base, check)`, or `None` outside the trie.
    fn node(&self, idx: u32) -> (r: Option<(u32, u32)>)
        ensures
            r == self.node_spec(idx),
    {
        let n = self.trie_data.len();
        if self.nodes_start > n {
            return None;
        }
        let avail = (n - self.nodes_start) as u64;
        let i = idx as u64;
        if i * 8 + 8 > avail {
            return None;
        }
        let off = self.nodes_start + (idx as usize) * 8;
        Some(
            (
                crate::byte_order::read_u32_le(self.trie_data.as_slice(), off),
                crate::byte_order::read_u32_le(self.trie_data.as_slice(), off + 4),
            ),
        )
    }

    /// The trie code of `c`, or `None` when `c` occurs in no key.
    fn map_code(&self, c: char) -> (r: Option<u32>)
        ensures
            r == self.code_spec(c),
    {
        proof {
            vstd::utf8::char_is_scalar(c);
        }
        let ord = c as u32 as usize;
        if ord >= self.table_len {
            return None;
        }
        let off = 4 * ord + 4;
        if off + 4 > self.trie_data.len() {
            return None;
        }
        let code = crate::byte_order::read_u32_le(self.trie_data.as_slice(), off);
        if code == INVALID_CODE {
            None
        } else {
            Some(code)
        }
    }

    /// The trie code of `c`, `INVALID_CODE` when `c` occurs in no key.
    pub fn map_code_or_invalid(&self, c: char) -> (r: u32)
        ensures
            r == match self.code_spec(c) {
                Some(x) => x,
                None => INVALID_CODE,
            },
    {
        match self.map_code(c) {
            Some(x) => x,
            None => INVALID_CODE,
        }
    }

    /// The entry records of key `key_ord`, or `None` when the indexes are
    /// out of range.
    fn entry_bytes(&self, key_ord: u32) -> (r: Option<Vec<u8>>)
        ensures
            match r {
                Some(v) => self.entry_run(key_ord) == Some(v@),
                None => self.entry_run(key_ord) is None,
            },
    {
        let i = key_ord as u64 * 4;
        if i + 8 > self.vals_idx.len() as u64 {
            return None;
        }
        let iu = i as usize;
        let start = crate::byte_order::read_u32_le(self.vals_idx.as_slice(), iu);
        let end = crate::byte_order::read_u32_le(self.vals_idx.as_slice(), iu + 4);
        let s = start as u64 * 10;
        let e = end as u64 * 10;
        if s <= e && e <= self.vals_data.len() as u64 {
            let run = vstd::slice::slice_subrange(self.vals_data.as_slice(), s as usize, e as usize);
            Some(vstd::slice::slice_to_vec(run))
        } else {
            None
        }
    }

    /// Follows the transition labelled `mc` out of node `node_idx`.
    fn advance(&self, node_idx: u32, node_base: u32, mc: u32) -> (r: Option<(u32, u32, u32)>)
        ensures
            r == self.advance_spec(node_idx, node_base, mc),
    {
        if node_base & LEAF_FLAG != 0 {
            return None;
        }
        let child = (node_base & OFFSET_MASK) ^ mc;
        match self.node(child) {
            None => None,
            Some((cb, cc)) => {
                if cc & OFFSET_MASK != node_idx {
                    None
                } else {
                    Some((child, cb, cc))
                }
            },
        }
    }

    /// What the node with raw pair `(cb, cc)` yields.
    fn step_output(&self, cb: u32, cc: u32) -> (r: StepOutput)
        ensures
            match r {
                StepOutput::Continue => self.step_spec(cb, cc) is Continue,
                StepOutput::Stop => self.step_spec(cb, cc) is Stop,
                StepOutput::Yield(v) => self.step_spec(cb, cc) == TrieStep::Yield(v@),
            },
    {
        if cb & LEAF_FLAG != 0 {
            return match self.entry_bytes(cb & OFFSET_MASK) {
                Some(v) => StepOutput::Yield(v),
                None => StepOutput::Stop,
            };
        }
        if cc & LEAF_FLAG != 0 {
            return match self.node(cb & OFFSET_MASK) {
                Some((lb, _)) => match self.entry_bytes(lb & OFFSET_MASK) {
                    Some(v) => StepOutput::Yield(v),
                    None => StepOutput::Stop,
                },
                None => StepOutput::Stop,
            };
        }
        StepOutput::Continue
    }

    /// The walk over `codes` from the root.
    fn search_codes(&self, codes: &[Option<u32>]) -> (r: Vec<(Vec<u8>, usize)>)
        ensures
            match_views(r@) == self.walk(codes@, 0, 0, self.root_base_spec()),
    {
        let mut out: Vec<(Vec<u8>, usize)> = Vec::new();
        let mut pos: usize = 0;
        let mut node_idx: u32 = 0;
        let mut node_base: u32 = self.root_base;
        assert(match_views(out@) =~= Seq::<(Seq<u8>, int)>::empty());
        assert(match_views(out@) + self.walk(codes@, 0, 0, self.root_base_spec()) =~= self.walk(
            codes@,
            0,
            0,
            self.root_base_spec(),
        ));
        while pos < codes.len()
            invariant
                pos <= codes@.len(),
                match_views(out@) + self.walk(codes@, pos as int, node_idx, node_base) == self.walk(
                    codes@,
                    0,
                    0,
                    self.root_base_spec(),
                ),
            decreases codes@.len() - pos,
        {
            let ghost p0 = pos as int;
            let ghost ni0 = node_idx;
            let ghost nb0 = node_base;
            let mc = match codes[pos] {
                Some(m) => m,
                None => {
                    assert(match_views(out@) + self.walk(codes@, p0, ni0, nb0) =~= match_views(out@));
                    return out;
                },
            };
            let (ci, cb, cc) = match self.advance(node_idx, node_base, mc) {
                Some(t) => t,
                None => {
                    assert(match_views(out@) + self.walk(codes@, p0, ni0, nb0) =~= match_views(out@));
                    return out;
                },
            };
            pos += 1;
            match self.step_output(cb, cc) {
                StepOutput::Continue => {},
                StepOutput::Stop => {
                    assert(match_views(out@) + self.walk(codes@, p0, ni0, nb0) =~= match_views(out@));
                    return out;
                },
                StepOutput::Yield(b) => {
                    let ghost before = out@;
                    out.push((b, pos));
                    proof {
                        assert(match_views(out@) =~= match_views(before).push((b@, pos as int)));
                        assert(match_views(out@) + self.walk(codes@, pos as int, ci, cb) =~= match_views(
                            before,
                        ) + (seq![(b@, pos as int)] + self.walk(codes@, pos as int, ci, cb)));
                    }
                },
            }
            node_idx = ci;
            node_base = cb;
        }
        assert(match_views(out@) + self.walk(codes@, pos as int, node_idx, node_base) =~= match_views(out@));
        out
    }

    /// For every key that is a prefix of `chars`, shortest first: its entry
    /// records and the number of characters it spans.
    pub fn common_prefix_search(&self, chars: &[char]) -> (r: Vec<(Vec<u8>, usize)>)
        ensures
            match_views(r@) == self.search_spec(chars@),
    {
        let mut codes: Vec<Option<u32>> = Vec::new();
        let mut i: usize = 0;
        while i < chars.len()
            invariant
                i <= chars@.len(),
                codes@ == self.codes_of(chars@).take(i as int),
            decreases chars@.len() - i,
        {
            codes.push(self.map_code(chars[i]));
            assert(codes@ =~= self.codes_of(chars@).take(i + 1));
            i += 1;
        }
        assert(codes@ =~= self.codes_of(chars@));
        self.search_codes(codes.as_slice())
    }

    /// The same search over pre-mapped codes (`map_code_or_invalid` of each
    /// character).
    pub fn common_prefix_search_codes(&self, codes: &[u32]) -> (r: Vec<(Vec<u8>, usize)>)
        ensures
            match_views(r@) == self.walk(optional_codes(codes@), 0, 0, self.root_base_spec()),
    {
        let mut opt: Vec<Option<u32>> = Vec::new();
        let mut i: usize = 0;
        while i < codes.len()
            invariant
                i <= codes@.len(),
                opt@ == optional_codes(codes@).take(i as int),
            decreases codes@.len() - i,
        {
            let c = codes[i];
            opt.push(if c == INVALID_CODE { None } else { Some(c) });
            assert(opt@ =~= optional_codes(codes@).take(i + 1));
            i += 1;
        }
        assert(opt@ =~= optional_codes(codes@));
        self.search_codes(opt.as_slice())
    }
}

/// Searching over the pre-mapped codes of a text finds what searching over
/// the text finds.
pub proof fn lemma_search_codes_matches_chars(d: &PrefixDictionary, chars: Seq<char>)
    ensures
        d.walk(
            optional_codes(
                chars.map_values(
                    |c: char|
                        match d.code_spec(c) {
                            Some(x) => x,
                            None => INVALID_CODE,
                        },
                ),
            ),
            0,
            0,
            d.root_base_spec(),
        ) == d.search_spec(chars),
{
    let mapped = chars.map_values(
        |c: char|
            match d.code_spec(c) {
                Some(x) => x,
                None => INVALID_CODE,
            },
    );
    assert(optional_codes(mapped) =~= d.codes_of(chars));
}

} // verus!

verus! {

/// What `crawdad` serializes for a trie over `keys`, or `None` when it
/// refuses them.
pub uninterp spec fn crawdad_trie_of(keys: Seq<Seq<char>>) -> Option<Seq<u8>>;

/// Builds a character-wise double-array trie over `keys` (sorted, distinct)
/// and serializes it.
///
/// Calls `crawdad::Trie::from_keys` and `Trie::serialize_to_vec`. The
/// contract claims that the outcome depends on the keys alone, that an empty
/// keyset is refused, and that the bytes are framed as `serialize_to_vec`
/// writes them: the code table with its length, the alphabet size, the node
/// count and eight bytes per node.
#[verifier::external_body]
fn crawdad_trie(keys: &Vec<String>) -> (r: Option<Vec<u8>>)
    ensures
        match r {
            Some(v) => crawdad_trie_of(crate::text::views_of(keys@)) == Some(v@) && trie_layout_ok(v@),
            None => crawdad_trie_of(crate::text::views_of(keys@)) is None,
        },
        keys@.len() == 0 ==> r is None,
{
    match crawdad::Trie::from_keys(keys.iter()) {
        Ok(trie) => Some(trie.serialize_to_vec()),
        Err(_) => None,
    }
}

/// Whether a surface can be stored in the trie: it is not empty and holds
/// no NUL.
pub open spec fn surface_storable(k: Seq<char>) -> bool {
    k.len() > 0 && !k.contains('\0')
}

/// The prefix sum of the entry counts: for each key, the number of entries
/// of the keys before it, and the total at the end.
pub open spec fn key_offsets(values: Seq<Vec<WordEntry>>) -> Seq<u32> {
    Seq::new(values.len() + 1, |k: int| flat_entries(values.take(k)).len() as u32)
}

/// The trie image of an empty map: an empty code table and no nodes.
pub open spec fn empty_trie_image() -> Seq<u8> {
    Seq::new(12, |i: int| 0u8)
}

/// Whether the map can be serialized: it is empty, or its surfaces are
/// storable, its entries fit `u32` offsets and `crawdad` builds a trie.
pub open spec fn serializable(m: WordEntryMap) -> bool {
    ||| m.keys@.len() == 0
    ||| {
        &&& forall|k: int| 0 <= k < m.keys@.len() ==> surface_storable(#[trigger] m.keys@[k]@)
        &&& flat_entries(m.values@).len() <= u32::MAX
        &&& crawdad_trie_of(crate::text::views_of(m.keys@)) is Some
    }
}

fn zeros(n: usize) -> (r: Vec<u8>)
    ensures
        r@ == Seq::new(n as nat, |i: int| 0u8),
{
    let mut v: Vec<u8> = Vec::new();
    let mut i: usize = 0;
    while i < n
        invariant
            i <= n,
            v@ == Seq::new(i as nat, |k: int| 0u8),
        decreases n - i,
    {
        v.push(0u8);
        assert(v@ =~= Seq::new((i + 1) as nat, |k: int| 0u8));
        i += 1;
    }
    v
}

fn holds_nul(s: &str) -> (r: bool)
    ensures
        r == s@.contains('\0'),
{
    let cs = crate::text::chars_of(s);
    let mut i: usize = 0;
    while i < cs.len()
        invariant
            i <= cs@.len(),
            cs@ == s@,
            forall|k: int| 0 <= k < i ==> cs@[k] != '\0',
        decreases cs@.len() - i,
    {
        if cs[i] == '\0' {
            assert(s@[i as int] == '\0');
            return true;
        }
        i += 1;
    }
    false
}

proof fn lemma_u32s_le_take(s: Seq<u32>, j: int)
    requires
        0 <= j < s.len(),
    ensures
        crate::byte_order::u32s_le(s.take(j + 1)) == crate::byte_order::u32s_le(s.take(j))
            + crate::byte_order::u32_le_bytes(s[j]),
{
    assert(s.take(j + 1).drop_last() =~= s.take(j));
}

proof fn lemma_u32s_le_len(s: Seq<u32>)
    ensures
        crate::byte_order::u32s_le(s).len() == 4 * s.len(),
    decreases s.len(),
{
    if s.len() > 0 {
        lemma_u32s_le_len(s.drop_last());
    }
}

impl PrefixDictionary {
    /// Serializes the map into the contents of its trie file and its values
    /// index: the trie over the surfaces (an image that matches nothing for
    /// an empty map), and for each surface the number of entries before it,
    /// with the total at the end, as little-endian `u32`s.
    ///
    /// A surface that is empty or holds NUL, more entries than `u32` offsets
    /// reach, or a keyset that `crawdad` refuses is a build error.
    pub fn serialize_trie(word_entry_map: &WordEntryMap) -> (r: LinderaResult<(Vec<u8>, Vec<u8>)>)
        requires
            word_entry_map.wf(),
        ensures
            match r {
                Ok((t, idx)) => if word_entry_map.keys@.len() == 0 {
                    t@ == empty_trie_image() && idx@ == Seq::new(4, |i: int| 0u8)
                } else {
                    &&& crawdad_trie_of(crate::text::views_of(word_entry_map.keys@)) == Some(t@)
                    &&& idx@ == crate::byte_order::u32s_le(key_offsets(word_entry_map.values@))
                },
                Err(e) => e.kind == LinderaErrorKind::Build,
            },
            r is Ok <==> serializable(*word_entry_map),
            r matches Ok((t, idx)) ==> trie_layout_ok(t@) && idx@.len() % 4 == 0,
    {
        let m = word_entry_map;
        let n = m.keys.len();
        if n == 0 {
            let t = zeros(12);
            let idx = zeros(4);
            proof {
                assert(t@ =~= empty_trie_image());
                assert(crate::byte_order::u32_at(t@, 0) == 0);
                assert(crate::byte_order::u32_at(t@, 8) == 0);
            }
            return Ok((t, idx));
        }
        let mut offsets: Vec<u32> = Vec::new();
        let mut acc: u32 = 0;
        let mut k: usize = 0;
        assert(m.values@.take(0) =~= Seq::<Vec<WordEntry>>::empty());
        while k < n
            invariant
                m == word_entry_map,
                m.wf(),
                n == m.keys@.len(),
                k <= n,
                acc == flat_entries(m.values@.take(k as int)).len(),
                offsets@ == key_offsets(m.values@).take(k as int),
                forall|i: int| 0 <= i < k ==> surface_storable(#[trigger] m.keys@[i]@),
            decreases n - k,
        {
            let surface = m.keys[k].as_str();
            if surface.is_empty() || holds_nul(surface) {
                assert(!surface_storable(m.keys@[k as int]@));
                return Err(
                    error_of(
                        LinderaErrorKind::Build,
                        "a surface cannot be stored in the trie (empty or contains NUL)",
                    ),
                );
            }
            proof {
                crate::builder::prefix_dictionary::lemma_flat_entries_take(m.values@, k as int);
            }
            offsets.push(acc);
            assert(offsets@ =~= key_offsets(m.values@).take(k + 1));
            let len = m.values[k].len();
            if len > (u32::MAX - acc) as usize {
                proof {
                    assert(flat_entries(m.values@.take(k + 1)).len() > u32::MAX);
                    assert(flat_entries(m.values@).len() > u32::MAX);
                }
                return Err(error_of(LinderaErrorKind::Build, "entry offset overflowed u32"));
            }
            acc = acc + len as u32;
            k += 1;
        }
        assert(m.values@.take(n as int) =~= m.values@);
        offsets.push(acc);
        assert(offsets@ =~= key_offsets(m.values@));
        let t = match crawdad_trie(&m.keys) {
            Some(t) => t,
            None => {
                return Err(error_of(LinderaErrorKind::Build, "crawdad trie build failed"));
            },
        };
        let mut idx: Vec<u8> = Vec::new();
        let mut j: usize = 0;
        assert(offsets@.take(0) =~= Seq::<u32>::empty());
        while j < offsets.len()
            invariant
                j <= offsets@.len(),
                idx@ == crate::byte_order::u32s_le(offsets@.take(j as int)),
            decreases offsets@.len() - j,
        {
            proof {
                lemma_u32s_le_take(offsets@, j as int);
            }
            crate::byte_order::push_u32_le(&mut idx, offsets[j]);
            j += 1;
        }
        assert(offsets@.take(offsets@.len() as int) =~= offsets@);
        proof {
            lemma_u32s_le_len(offsets@);
        }
        Ok((t, idx))
    }
}

} // verus!

verus! {

proof fn lemma_entry_records_push(es: Seq<WordEntry>, e: WordEntry)
    ensures
        entry_records(es.push(e)) == entry_records(es) + entry_record(e),
{
    assert(es.push(e).drop_last() =~= es);
}

/// The entries stored in `b`, record by record.
pub fn entries_in(b: &[u8], is_system: bool) -> (r: Vec<WordEntry>)
    ensures
        r@ == entries_of_bytes(b@, is_system),
{
    let blen = b.len();
    let n = blen / 10;
    let mut out: Vec<WordEntry> = Vec::new();
    let mut j: usize = 0;
    while j < n
        invariant
            blen == b@.len(),
            n == b@.len() / 10,
            j <= n,
            out@ == entries_of_bytes(b@, is_system).take(j as int),
        decreases n - j,
    {
        assert(10 * j + 10 <= b@.len()) by (nonlinear_arith)
            requires
                j < n,
                n == b@.len() / 10,
        ;
        let chunk = vstd::slice::slice_subrange(b, 10 * j, 10 * j + 10);
        out.push(WordEntry::deserialize(chunk, is_system));
        assert(out@ =~= entries_of_bytes(b@, is_system).take(j + 1));
        j += 1;
    }
    assert(entries_of_bytes(b@, is_system).take(n as int) =~= entries_of_bytes(b@, is_system));
    out
}

/// Reading back the records of entries of one lexicon gives the entries.
pub proof fn lemma_entry_records_read_back(es: Seq<WordEntry>, is_system: bool)
    requires
        forall|i: int|
            0 <= i < es.len() ==> (#[trigger] es[i]).word_id.lex_type == (if is_system {
                crate::viterbi::LexType::System
            } else {
                crate::viterbi::LexType::User
            }),
    ensures
        entry_records(es).len() == 10 * es.len(),
        entries_of_bytes(entry_records(es), is_system) == es,
    decreases es.len(),
{
    if es.len() > 0 {
        let init = es.drop_last();
        lemma_entry_records_read_back(init, is_system);
        crate::viterbi::lemma_entry_record_roundtrip(es.last(), is_system);
        let b = entry_records(es);
        let b0 = entry_records(init);
        assert(b == b0 + entry_record(es.last()));
        let got = entries_of_bytes(b, is_system);
        assert(got.len() == es.len());
        assert forall|i: int| 0 <= i < es.len() implies got[i] == es[i] by {
            if i < es.len() - 1 {
                assert(b.subrange(10 * i, 10 * i + 10) =~= b0.subrange(10 * i, 10 * i + 10));
                assert(entries_of_bytes(b0, is_system)[i] == init[i]);
            } else {
                assert(b.subrange(10 * i, 10 * i + 10) =~= entry_record(es.last()));
            }
        }
        assert(got =~= es);
    }
}

impl PrefixDictionary {
    /// A dictionary over the map, its values file written from the same map
    /// in key order, with no word details.
    pub fn from_word_entry_map(word_entry_map: &WordEntryMap) -> (r: LinderaResult<PrefixDictionary>)
        requires
            word_entry_map.wf(),
        ensures
            r is Ok <==> serializable(*word_entry_map),
            match r {
                Ok(d) => {
                    &&& d.vals() == entry_records(flat_entries(word_entry_map.values@))
                    &&& d.vals_idx_spec() == (if word_entry_map.keys@.len() == 0 {
                        Seq::new(4, |i: int| 0u8)
                    } else {
                        crate::byte_order::u32s_le(key_offsets(word_entry_map.values@))
                    })
                    &&& d.trie() == (if word_entry_map.keys@.len() == 0 {
                        empty_trie_image()
                    } else {
                        crawdad_trie_of(crate::text::views_of(word_entry_map.keys@))->0
                    })
                    &&& d.words_idx().len() == 0
                    &&& d.words().len() == 0
                },
                Err(e) => e.kind == LinderaErrorKind::Build,
            },
    {
        let (trie, idx) = Self::serialize_trie(word_entry_map)?;
        let m = word_entry_map;
        let mut vals: Vec<u8> = Vec::new();
        let mut k: usize = 0;
        assert(m.values@.take(0) =~= Seq::<Vec<WordEntry>>::empty());
        while k < m.values.len()
            invariant
                k <= m.values@.len(),
                vals@ == entry_records(flat_entries(m.values@.take(k as int))),
            decreases m.values@.len() - k,
        {
            let entries = &m.values[k];
            let ghost base = flat_entries(m.values@.take(k as int));
            let mut j: usize = 0;
            assert(base + entries@.take(0) =~= base);
            while j < entries.len()
                invariant
                    j <= entries@.len(),
                    vals@ == entry_records(base + entries@.take(j as int)),
                decreases entries@.len() - j,
            {
                let e = entries[j];
                e.serialize(&mut vals);
                proof {
                    lemma_entry_records_push(base + entries@.take(j as int), e);
                    assert((base + entries@.take(j as int)).push(e) =~= base + entries@.take(j + 1));
                }
                j += 1;
            }
            proof {
                assert(entries@.take(entries@.len() as int) =~= entries@);
                let t = m.values@.take(k + 1);
                assert(t.drop_last() =~= m.values@.take(k as int));
            }
            k += 1;
        }
        assert(m.values@.take(m.values@.len() as int) =~= m.values@);
        let r = Self::load(trie, idx, vals, Vec::new(), Vec::new());
        match r {
            Ok(d) => Ok(d),
            Err(e) => Err(e),
        }
    }
}

} // verus!

verus! {

/// Every match of a walk from `pos` ends after `pos` and within the codes,
/// and the matches come in strictly ascending order of their ends.
pub proof fn lemma_walk_ends(d: &PrefixDictionary, codes: Seq<Option<u32>>, pos: int, node_idx: u32, node_base: u32)
    requires
        0 <= pos,
    ensures
        forall|i: int|
            0 <= i < d.walk(codes, pos, node_idx, node_base).len() ==> pos < (#[trigger] d.walk(
                codes,
                pos,
                node_idx,
                node_base,
            )[i]).1 <= codes.len(),
        forall|i: int, j: int|
            0 <= i < j < d.walk(codes, pos, node_idx, node_base).len() ==> (#[trigger] d.walk(
                codes,
                pos,
                node_idx,
                node_base,
            )[i]).1 < (#[trigger] d.walk(codes, pos, node_idx, node_base)[j]).1,
    decreases codes.len() - pos,
{
    if pos < codes.len() {
        match codes[pos] {
            None => {},
            Some(mc) => match d.advance_spec(node_idx, node_base, mc) {
                None => {},
                Some((ci, cb, cc)) => {
                    lemma_walk_ends(d, codes, pos + 1, ci, cb);
                    let rest = d.walk(codes, pos + 1, ci, cb);
                    match d.step_spec(cb, cc) {
                        TrieStep::Yield(b) => {
                            let w = d.walk(codes, pos, node_idx, node_base);
                            assert(w == seq![(b, pos + 1)] + rest);
                            assert forall|i: int| 0 <= i < w.len() implies pos < (#[trigger] w[i]).1
                                <= codes.len() by {
                                if i > 0 {
                                    assert(w[i] == rest[i - 1]);
                                }
                            }
                            assert forall|i: int, j: int| 0 <= i < j < w.len() implies (#[trigger] w[i]).1
                                < (#[trigger] w[j]).1 by {
                                assert(w[j] == rest[j - 1]);
                                if i > 0 {
                                    assert(w[i] == rest[i - 1]);
                                }
                            }
                        },
                        _ => {},
                    }
                },
            },
        }
    }
}

/// The entries of the matches that span exactly `n` characters.
pub open spec fn entries_ending_at(res: Seq<(Seq<u8>, int)>, n: int) -> Seq<WordEntry>
    decreases res.len(),
{
    if res.len() == 0 {
        Seq::empty()
    } else {
        entries_ending_at(res.drop_last(), n) + if res.last().1 == n {
            entries_of_bytes(res.last().0, true)
        } else {
            Seq::empty()
        }
    }
}

/// For each entry of each match, in order: the word id and the number of
/// characters the match spans.
pub open spec fn matches_of(res: Seq<(Seq<u8>, int)>) -> Seq<Match>
    decreases res.len(),
{
    if res.len() == 0 {
        Seq::empty()
    } else {
        matches_of(res.drop_last()) + entries_of_bytes(res.last().0, true).map_values(
            |e: WordEntry| Match { word_idx: WordIdx { word_id: e.word_id.id }, end_char: res.last().1 as usize },
        )
    }
}

/// For each entry of each match, in order: the byte length of the text the
/// match spans, and the entry.
pub open spec fn prefix_entries(res: Seq<(Seq<u8>, int)>, chars: Seq<char>) -> Seq<(usize, WordEntry)>
    decreases res.len(),
{
    if res.len() == 0 {
        Seq::empty()
    } else {
        prefix_entries(res.drop_last(), chars) + entries_of_bytes(res.last().0, true).map_values(
            |e: WordEntry| (vstd::utf8::encode_utf8(chars.take(res.last().1)).len() as usize, e),
        )
    }
}

/// The UTF-8 length of `c`.
fn utf8_width(c: char) -> (r: usize)
    ensures
        r == vstd::utf8::encode_scalar(c as u32).len(),
{
    proof {
        vstd::utf8::char_is_scalar(c);
    }
    let u = c as u32;
    if u < 0x80 {
        1
    } else if u < 0x800 {
        2
    } else if u < 0x10000 {
        3
    } else {
        4
    }
}

/// Encoding one more character appends its encoding.
pub proof fn lemma_encode_utf8_push(a: Seq<char>, c: char)
    ensures
        vstd::utf8::encode_utf8(a.push(c)) == vstd::utf8::encode_utf8(a) + vstd::utf8::encode_scalar(c as u32),
    decreases a.len(),
{
    if a.len() == 0 {
        assert(a.push(c).drop_first() =~= Seq::<char>::empty());
        assert(a.push(c)[0] == c);
        assert(vstd::utf8::encode_utf8(Seq::<char>::empty()) =~= Seq::<u8>::empty());
        assert(vstd::utf8::encode_utf8(a) =~= Seq::<u8>::empty());
        assert(vstd::utf8::encode_utf8(a.push(c)) =~= vstd::utf8::encode_scalar(c as u32));
    } else {
        assert(a.push(c).drop_first() =~= a.drop_first().push(c));
        lemma_encode_utf8_push(a.drop_first(), c);
        assert(vstd::utf8::encode_utf8(a.push(c)) =~= vstd::utf8::encode_utf8(a) + vstd::utf8::encode_scalar(
            c as u32,
        ));
    }
}

proof fn lemma_encode_utf8_prefix_len(s: Seq<char>, k: int)
    requires
        0 <= k <= s.len(),
    ensures
        vstd::utf8::encode_utf8(s.take(k)).len() <= vstd::utf8::encode_utf8(s).len(),
    decreases s.len() - k,
{
    if k < s.len() {
        assert(s.take(k + 1) =~= s.take(k).push(s[k]));
        lemma_encode_utf8_push(s.take(k), s[k]);
        lemma_encode_utf8_prefix_len(s, k + 1);
    } else {
        assert(s.take(k) =~= s);
    }
}

impl PrefixDictionary {
    /// The entries whose surface is exactly `surface`.
    pub fn find_surface(&self, surface: &str) -> (r: Vec<WordEntry>)
        ensures
            r@ == entries_ending_at(self.search_spec(surface@), surface@.len() as int),
    {
        let chars = crate::text::chars_of(surface);
        let n = chars.len();
        let res = self.common_prefix_search(chars.as_slice());
        let mut out: Vec<WordEntry> = Vec::new();
        let mut k: usize = 0;
        assert(match_views(res@).take(0) =~= Seq::<(Seq<u8>, int)>::empty());
        while k < res.len()
            invariant
                k <= res@.len(),
                n == surface@.len(),
                match_views(res@) == self.search_spec(surface@),
                out@ == entries_ending_at(match_views(res@).take(k as int), n as int),
            decreases res@.len() - k,
        {
            let ghost t = match_views(res@).take(k + 1);
            assert(t.drop_last() =~= match_views(res@).take(k as int));
            if res[k].1 == n {
                let es = entries_in(res[k].0.as_slice(), true);
                let mut j: usize = 0;
                let ghost base = out@;
                assert(base + es@.take(0) =~= base);
                while j < es.len()
                    invariant
                        j <= es@.len(),
                        out@ == base + es@.take(j as int),
                    decreases es@.len() - j,
                {
                    out.push(es[j]);
                    assert(out@ =~= base + es@.take(j + 1));
                    j += 1;
                }
                assert(es@.take(es@.len() as int) =~= es@);
            } else {
                assert(out@ =~= out@ + Seq::<WordEntry>::empty());
            }
            k += 1;
        }
        assert(match_views(res@).take(res@.len() as int) =~= match_views(res@));
        out
    }

    /// For every entry of every key that is a prefix of `suffix`: the word
    /// and the number of characters the key spans.
    pub fn common_prefix_iterator(&self, suffix: &[char]) -> (r: Vec<Match>)
        ensures
            r@ == matches_of(self.search_spec(suffix@)),
    {
        let res = self.common_prefix_search(suffix);
        let mut out: Vec<Match> = Vec::new();
        let mut k: usize = 0;
        assert(match_views(res@).take(0) =~= Seq::<(Seq<u8>, int)>::empty());
        while k < res.len()
            invariant
                k <= res@.len(),
                match_views(res@) == self.search_spec(suffix@),
                out@ == matches_of(match_views(res@).take(k as int)),
            decreases res@.len() - k,
        {
            let ghost t = match_views(res@).take(k + 1);
            assert(t.drop_last() =~= match_views(res@).take(k as int));
            let end_char = res[k].1;
            let es = entries_in(res[k].0.as_slice(), true);
            let ghost mapped = es@.map_values(
                |e: WordEntry| Match { word_idx: WordIdx { word_id: e.word_id.id }, end_char: end_char },
            );
            let mut j: usize = 0;
            let ghost base = out@;
            assert(base + mapped.take(0) =~= base);
            while j < es.len()
                invariant
                    j <= es@.len(),
                    mapped.len() == es@.len(),
                    mapped == es@.map_values(
                        |e: WordEntry| Match { word_idx: WordIdx { word_id: e.word_id.id }, end_char: end_char },
                    ),
                    out@ == base + mapped.take(j as int),
                decreases es@.len() - j,
            {
                let e = es[j];
                out.push(Match { word_idx: WordIdx::new(e.word_id.id), end_char });
                assert(out@ =~= base + mapped.take(j + 1));
                j += 1;
            }
            assert(mapped.take(es@.len() as int) =~= mapped);
            k += 1;
        }
        assert(match_views(res@).take(res@.len() as int) =~= match_views(res@));
        out
    }

    /// For every entry of every key that is a prefix of `s`: the byte
    /// length of the text the key spans, and the entry.
    pub fn prefix(&self, s: &str) -> (r: Vec<(usize, WordEntry)>)
        ensures
            r@ == prefix_entries(self.search_spec(s@), s@),
    {
        let chars = crate::text::chars_of(s);
        let total = s.as_bytes().len();
        let mut boundaries: Vec<usize> = Vec::new();
        boundaries.push(0);
        let mut acc: usize = 0;
        let mut i: usize = 0;
        assert(chars@.take(0) =~= Seq::<char>::empty());
        while i < chars.len()
            invariant
                chars@ == s@,
                total == vstd::utf8::encode_utf8(s@).len(),
                i <= chars@.len(),
                boundaries@.len() == i + 1,
                acc == vstd::utf8::encode_utf8(chars@.take(i as int)).len(),
                forall|k: int| 0 <= k <= i ==> #[trigger] boundaries@[k] == vstd::utf8::encode_utf8(chars@.take(k)).len(),
            decreases chars@.len() - i,
        {
            proof {
                assert(chars@.take(i + 1) =~= chars@.take(i as int).push(chars@[i as int]));
                lemma_encode_utf8_push(chars@.take(i as int), chars@[i as int]);
                lemma_encode_utf8_prefix_len(chars@, i + 1);
            }
            acc = acc + utf8_width(chars[i]);
            boundaries.push(acc);
            i += 1;
        }
        let res = self.common_prefix_search(chars.as_slice());
        proof {
            lemma_walk_ends(self, self.codes_of(chars@), 0, 0, self.root_base_spec());
        }
        let mut out: Vec<(usize, WordEntry)> = Vec::new();
        let mut k: usize = 0;
        assert(match_views(res@).take(0) =~= Seq::<(Seq<u8>, int)>::empty());
        while k < res.len()
            invariant
                k <= res@.len(),
                chars@ == s@,
                boundaries@.len() == chars@.len() + 1,
                forall|q: int| 0 <= q <= chars@.len() ==> #[trigger] boundaries@[q] == vstd::utf8::encode_utf8(chars@.take(q)).len(),
                match_views(res@) == self.search_spec(s@),
                forall|q: int| 0 <= q < res@.len() ==> (#[trigger] match_views(res@)[q]).1 <= chars@.len(),
                out@ == prefix_entries(match_views(res@).take(k as int), s@),
            decreases res@.len() - k,
        {
            let ghost t = match_views(res@).take(k + 1);
            assert(t.drop_last() =~= match_views(res@).take(k as int));
            let ghost mv = match_views(res@)[k as int];
            assert(mv.1 <= chars@.len());
            let end_byte = boundaries[res[k].1];
            let es = entries_in(res[k].0.as_slice(), true);
            let ghost mapped = es@.map_values(|e: WordEntry| (end_byte, e));
            let mut j: usize = 0;
            let ghost base = out@;
            assert(base + mapped.take(0) =~= base);
            while j < es.len()
                invariant
                    j <= es@.len(),
                    mapped == es@.map_values(|e: WordEntry| (end_byte, e)),
                    out@ == base + mapped.take(j as int),
                decreases es@.len() - j,
            {
                out.push((end_byte, es[j]));
                assert(out@ =~= base + mapped.take(j + 1));
                j += 1;
            }
            assert(mapped.take(es@.len() as int) =~= mapped);
            assert(mapped =~= entries_of_bytes(t.last().0, true).map_values(
                |e: WordEntry| (vstd::utf8::encode_utf8(s@.take(t.last().1)).len() as usize, e),
            ));
            k += 1;
        }
        assert(match_views(res@).take(res@.len() as int) =~= match_views(res@));
        out
    }
}

} // verus!

verus! {

#[verifier::external_type_specification]
#[verifier::external_body]
#[verifier::reject_recursive_types(V)]
pub struct ExDoubleArrayAhoCorasick<V>(daachorse::DoubleArrayAhoCorasick<V>);

/// What `daachorse` serializes for an automaton over a keyset of
/// `(pattern bytes, value)` pairs, or `None` when it refuses the keyset.
pub uninterp spec fn daachorse_automaton_of(keyset: Seq<(Seq<u8>, u32)>) -> Option<Seq<u8>>;

/// Whether `daachorse` reads an automaton back from `bytes`.
pub uninterp spec fn daachorse_loadable(bytes: Seq<u8>) -> bool;

/// Builds an Aho-Corasick automaton over the keyset and serializes it.
///
/// Calls `daachorse::DoubleArrayAhoCorasickBuilder::build_with_values` and
/// `DoubleArrayAhoCorasick::serialize`; the contract claims that the outcome
/// depends on the keyset alone, and that what `serialize` writes is read
/// back by `deserialize`, as the crate's documentation shows.
#[verifier::external_body]
pub(crate) fn build_automaton_bytes(keyset: &Vec<(Vec<u8>, u32)>) -> (r: Option<Vec<u8>>)
    ensures
        match r {
            Some(v) => daachorse_automaton_of(crate::builder::prefix_dictionary::keyset_view(keyset@)) == Some(v@)
                && daachorse_loadable(v@),
            None => daachorse_automaton_of(crate::builder::prefix_dictionary::keyset_view(keyset@)) is None,
        },
{
    match daachorse::DoubleArrayAhoCorasickBuilder::new().build_with_values(
        keyset.iter().map(|p| (p.0.as_slice(), p.1)),
    ) {
        Ok(da) => Some(da.serialize()),
        Err(_) => None,
    }
}

/// Reads an automaton back from its serialized bytes.
///
/// Calls `daachorse::DoubleArrayAhoCorasick::deserialize`, which checks the
/// bytes before it uses them; the contract claims that whether it accepts
/// them depends on the bytes alone. Which bytes it accepts is named, not
/// stated.
#[verifier::external_body]
fn deserialize_automaton(bytes: &[u8]) -> (r: Option<daachorse::DoubleArrayAhoCorasick<u32>>)
    ensures
        r is Some <==> daachorse_loadable(bytes@),
{
    match daachorse::DoubleArrayAhoCorasick::<u32>::deserialize(bytes) {
        Ok((da, _)) => Some(da),
        Err(_) => None,
    }
}

/// The user prefix dictionary: an Aho-Corasick automaton over the surfaces,
/// whose value for a surface packs the id of its first entry and its number
/// of entries.
pub struct UserPrefixDictionary {
    /// The automaton over the surfaces.
    pub da: daachorse::DoubleArrayAhoCorasick<u32>,
    /// The serialized automaton that `da` was read from.
    pub da_bytes: Vec<u8>,
    /// The entry records, back to back.
    pub vals_data: Vec<u8>,
    /// Byte offsets into `words_data`, one `u32` per word id.
    pub words_idx_data: Vec<u8>,
    /// The word detail records.
    pub words_data: Vec<u8>,
    /// Always `false`: these are user entries.
    pub is_system: bool,
}

/// The value stored for a surface whose first entry is `id` and which has
/// `count` entries: the id in the high 24 bits, the count in the low 8.
pub open spec fn packed_value(id: u32, count: u32) -> u32 {
    (id << 8u32) | count
}

impl UserPrefixDictionary {
    /// Splits an automaton value into the id of the first entry (high 24
    /// bits) and the number of entries (low 8 bits).
    pub fn decode_val(&self, val: u32) -> (r: (u32, u32))
        ensures
            r == (val >> 8u32, val & 0xffu32),
    {
        (val >> 8u32, val & 0xffu32)
    }

    /// A user dictionary from the serialized automaton and the values, word
    /// index and word detail data; bytes the automaton reader refuses are a
    /// deserialize error.
    pub fn load(da_data: Vec<u8>, vals_data: Vec<u8>, words_idx_data: Vec<u8>, words_data: Vec<u8>) -> (r:
        LinderaResult<UserPrefixDictionary>)
        ensures
            r is Ok <==> daachorse_loadable(da_data@),
            match r {
                Ok(d) => d.da_bytes@ == da_data@ && d.vals_data@ == vals_data@ && d.words_idx_data@
                    == words_idx_data@ && d.words_data@ == words_data@ && !d.is_system,
                Err(e) => e.kind == LinderaErrorKind::Deserialize,
            },
    {
        match deserialize_automaton(da_data.as_slice()) {
            Some(da) => Ok(
                UserPrefixDictionary { da, da_bytes: da_data, vals_data, words_idx_data, words_data, is_system: false },
            ),
            None => Err(error_of(LinderaErrorKind::Deserialize, "invalid user dictionary automaton")),
        }
    }
}

/// Unpacking a packed value gives back the first id and the count, for ids
/// below 2^24 and counts below 256.
pub proof fn lemma_packed_value_roundtrip(id: u32, count: u32)
    requires
        id < 0x100_0000,
        count < 0x100,
    ensures
        packed_value(id, count) >> 8u32 == id,
        packed_value(id, count) & 0xffu32 == count,
{
    assert(((id << 8u32) | count) >> 8u32 == id) by (bit_vector)
        requires
            id < 0x100_0000u32,
            count < 0x100u32,
    ;
    assert(((id << 8u32) | count) & 0xffu32 == count) by (bit_vector)
        requires
            id < 0x100_0000u32,
            count < 0x100u32,
    ;
}

} // verus!
