//! Unknown-word definitions (`unk.def`): for each character category, the
//! entries an unknown word of that category may take.
use vstd::prelude::*;

use crate::dictionary::character_definition::CategoryId;
use crate::error::{error_of, LinderaErrorKind};
use crate::text::{
    chars_of, lines_of, lines_spec, parse_decimal, parse_int_spec, split_on, split_seq, str_eq,
    views_of,
};
use crate::viterbi::{LexType, WordEntry, WordId};
use crate::LinderaResult;

verus! {

/// The unknown-word dictionary: per category, the ids of its entries; and
/// the entries themselves.
#[derive(Debug, Clone)]
pub struct UnknownDictionary {
    /// Per category id, the ids of the entries for that category.
    pub category_references: Vec<Vec<u32>>,
    /// The entries, by id.
    pub costs: Vec<WordEntry>,
}

/// The index of an unknown-word entry.
#[derive(Debug, Clone, Copy, PartialEq, Eq, Structural)]
pub struct WordIdx {
    /// The entry id.
    pub word_id: u32,
}

impl WordIdx {
    /// The index of entry `word_id`.
    pub fn new(word_id: u32) -> (r: Self)
        ensures
            r.word_id == word_id,
    {
        WordIdx { word_id }
    }
}

/// An unknown word candidate: its entry and the character position where it
/// ends.
#[derive(Debug, Clone, Copy, PartialEq, Eq, Structural)]
pub struct UnkWord {
    /// The entry.
    pub word_idx: WordIdx,
    /// The character position after the word's last character.
    pub end_char: usize,
}

impl UnkWord {
    /// The entry.
    pub fn word_idx(&self) -> (r: WordIdx)
        ensures
            r == self.word_idx,
    {
        self.word_idx
    }

    /// The character position after the word's last character.
    pub fn end_char(&self) -> (r: usize)
        ensures
            r == self.end_char,
    {
        self.end_char
    }
}

/// Whether `c` is in the Hiragana block's letters.
pub open spec fn hiragana(c: char) -> bool {
    0x3041 <= (c as u32) <= 0x3096
}

/// Whether `c` is a Katakana letter (including the phonetic extensions).
pub open spec fn katakana(c: char) -> bool {
    let u = c as u32;
    (0x30A1 <= u <= 0x30F6) || (0x30F7 <= u <= 0x30FA) || (0x31F0 <= u <= 0x31FF)
}

/// Whether `c` is a CJK ideograph (the unified block or extension A).
pub open spec fn kanji(c: char) -> bool {
    let u = c as u32;
    (0x4E00 <= u <= 0x9FAF) || (0x3400 <= u <= 0x4DBF)
}

/// Whether `c` is an ASCII letter.
pub open spec fn ascii_alpha(c: char) -> bool {
    let u = c as u32;
    (0x41 <= u <= 0x5A) || (0x61 <= u <= 0x7A)
}

/// The character type of `c`: 5 numeric, 4 alphabetic, 3 kanji, 2
/// katakana, 1 hiragana, 0 anything else, in that order of precedence.
pub open spec fn char_type_of(c: char) -> usize {
    if 0x30 <= (c as u32) <= 0x39 {
        5
    } else if ascii_alpha(c) {
        4
    } else if kanji(c) {
        3
    } else if katakana(c) {
        2
    } else if hiragana(c) {
        1
    } else {
        0
    }
}

/// Whether `c` is in the Hiragana block's letters.
pub fn is_hiragana(ch: char) -> (r: bool)
    ensures
        r == hiragana(ch),
{
    let u = ch as u32;
    0x3041 <= u && u <= 0x3096
}

/// Whether `c` is a Katakana letter.
pub fn is_katakana(ch: char) -> (r: bool)
    ensures
        r == katakana(ch),
{
    let u = ch as u32;
    (0x30A1 <= u && u <= 0x30F6) || (0x30F7 <= u && u <= 0x30FA) || (0x31F0 <= u && u <= 0x31FF)
}

/// Whether `c` is a CJK ideograph.
pub fn is_kanji(ch: char) -> (r: bool)
    ensures
        r == kanji(ch),
{
    let u = ch as u32;
    (0x4E00 <= u && u <= 0x9FAF) || (0x3400 <= u && u <= 0x4DBF)
}

/// The character type of `ch`.
pub fn classify_char_type(ch: char) -> (r: usize)
    ensures
        r == char_type_of(ch),
{
    let u = ch as u32;
    if 0x30 <= u && u <= 0x39 {
        5
    } else if (0x41 <= u && u <= 0x5A) || (0x61 <= u && u <= 0x7A) {
        4
    } else if is_kanji(ch) {
        3
    } else if is_katakana(ch) {
        2
    } else if is_hiragana(ch) {
        1
    } else {
        0
    }
}

/// The part-of-speech subclass name of a character type.
pub open spec fn type_name_of(char_type: usize) -> Seq<char> {
    if char_type == 4 {
        "固有名詞"@
    } else if char_type == 5 {
        "数"@
    } else {
        "一般"@
    }
}

/// The part-of-speech subclass name of a character type.
pub fn get_type_name(char_type: usize) -> (r: &'static str)
    ensures
        r@ == type_name_of(char_type),
{
    if char_type == 4 {
        "固有名詞"
    } else if char_type == 5 {
        "数"
    } else {
        "一般"
    }
}

/// The unknown-word candidates starting at character `start_pos`: one per
/// length from 1 up to the limit (1 when a known word matched there, else
/// the smaller of `max_grouping_len` (default 10) and 3) that fits in the
/// sentence, each with the character type of its first character.
pub open spec fn unk_words_spec(
    chars: Seq<char>,
    start_pos: int,
    has_matched: bool,
    max_grouping_len: Option<usize>,
) -> Seq<UnkWord> {
    let max_len: int = match max_grouping_len {
        Some(m) => m as int,
        None => 10,
    };
    let limit: int = if has_matched { 1 } else if max_len < 3 { max_len } else { 3 };
    let fitting: int = if start_pos + limit <= chars.len() {
        limit
    } else if start_pos < chars.len() {
        chars.len() - start_pos
    } else {
        0
    };
    Seq::new(
        (if fitting < 0 { 0 } else { fitting }) as nat,
        |k: int|
            UnkWord {
                word_idx: WordIdx { word_id: char_type_of(chars[start_pos]) as u32 },
                end_char: (start_pos + k + 1) as usize,
            },
    )
}

/// Every unknown-word candidate that starts at a character carries the
/// character type of that first character, whatever its length: the
/// candidates are the one-character word and its extensions, ending one
/// character further each, inside the sentence, all with the same type.
pub proof fn lemma_unk_words_take_first_type(
    chars: Seq<char>,
    start_pos: int,
    has_matched: bool,
    max_grouping_len: Option<usize>,
)
    requires
        0 <= start_pos,
        chars.len() <= usize::MAX,
    ensures
        forall|k: int|
            0 <= k < unk_words_spec(chars, start_pos, has_matched, max_grouping_len).len() ==> (#[trigger] unk_words_spec(
                chars,
                start_pos,
                has_matched,
                max_grouping_len,
            )[k]).word_idx.word_id == char_type_of(chars[start_pos]) as u32,
        forall|k: int|
            0 <= k < unk_words_spec(chars, start_pos, has_matched, max_grouping_len).len() ==> (#[trigger] unk_words_spec(
                chars,
                start_pos,
                has_matched,
                max_grouping_len,
            )[k]).end_char == start_pos + k + 1 && start_pos + k < chars.len(),
        unk_words_spec(chars, start_pos, has_matched, max_grouping_len).len() <= 3,
        has_matched ==> unk_words_spec(chars, start_pos, has_matched, max_grouping_len).len() <= 1,
        (start_pos < chars.len() && (max_grouping_len is None || max_grouping_len->0 >= 1)) ==> unk_words_spec(
            chars,
            start_pos,
            has_matched,
            max_grouping_len,
        ).len() >= 1,
        start_pos < chars.len() && has_matched ==> unk_words_spec(chars, start_pos, has_matched, max_grouping_len).len()
            == 1,
        start_pos < chars.len() && !has_matched && (max_grouping_len is None || max_grouping_len->0 >= 3)
            ==> unk_words_spec(chars, start_pos, has_matched, max_grouping_len).len() == if chars.len() - start_pos
            < 3 {
            chars.len() - start_pos
        } else {
            3
        },
        start_pos >= chars.len() ==> unk_words_spec(chars, start_pos, has_matched, max_grouping_len).len() == 0,
{
    let ws = unk_words_spec(chars, start_pos, has_matched, max_grouping_len);
    assert forall|k: int| 0 <= k < ws.len() implies (#[trigger] ws[k]).end_char == start_pos + k + 1 && start_pos + k
        < chars.len() by {
        assert(start_pos + k + 1 <= chars.len());
    }
}

/// The part-of-speech subclass of a character type: a word of digits is a
/// numeral (`数`), a word of ASCII letters a proper noun (`固有名詞`), any
/// other word a common one (`一般`).
pub proof fn lemma_type_names(c: char)
    ensures
        ('0' <= c <= '9') ==> type_name_of(char_type_of(c)) == "数"@,
        (('A' <= c <= 'Z') || ('a' <= c <= 'z')) ==> type_name_of(char_type_of(c)) == "固有名詞"@,
        !('0' <= c <= '9') && !(('A' <= c <= 'Z') || ('a' <= c <= 'z')) ==> type_name_of(char_type_of(c))
            == "一般"@,
        ('0' <= c <= '9') ==> char_type_of(c) == 5,
        (('A' <= c <= 'Z') || ('a' <= c <= 'z')) ==> char_type_of(c) == 4,
        kanji(c) ==> char_type_of(c) == 3,
        katakana(c) ==> char_type_of(c) == 2,
        hiragana(c) ==> char_type_of(c) == 1,
{
}

/// The numeral, proper-noun and common-noun subclass names are distinct, so
/// a feature names at most one of them after `名詞,`.
pub proof fn lemma_type_names_distinct()
    ensures
        "数"@ != "一般"@,
        "数"@ != "固有名詞"@,
        "固有名詞"@ != "一般"@,
{
    reveal_strlit("数");
    reveal_strlit("一般");
    reveal_strlit("固有名詞");
    assert("数"@.len() == 1);
    assert("一般"@.len() == 2);
    assert("固有名詞"@.len() == 4);
}

/// Whether `p` is a prefix of `s`.
pub open spec fn has_prefix(s: Seq<char>, p: Seq<char>) -> bool {
    p.len() <= s.len() && s.subrange(0, p.len() as int) == p
}

impl UnknownDictionary {
    /// Entry `word_id`.
    pub fn word_entry(&self, word_id: u32) -> (r: WordEntry)
        requires
            (word_id as int) < self.costs@.len(),
        ensures
            r == self.costs@[word_id as int],
    {
        self.costs[word_id as usize]
    }

    /// The ids of the entries of a category.
    pub fn lookup_word_ids(&self, category_id: CategoryId) -> (r: &[u32])
        requires
            category_id.0 < self.category_references@.len(),
        ensures
            r@ == self.category_references@[category_id.0 as int]@,
    {
        self.category_references[category_id.0].as_slice()
    }

    /// Generates the unknown-word candidates that start at character
    /// `start_pos` of `sentence`, in order of length.
    pub fn gen_unk_words(
        &self,
        sentence: &str,
        start_pos: usize,
        has_matched: bool,
        max_grouping_len: Option<usize>,
    ) -> (r: Vec<UnkWord>)
        ensures
            r@ == unk_words_spec(sentence@, start_pos as int, has_matched, max_grouping_len),
            forall|k: int|
                0 <= k < r@.len() ==> (#[trigger] r@[k]).word_idx.word_id == char_type_of(sentence@[start_pos as int])
                    as u32 && r@[k].end_char == start_pos + k + 1 && start_pos + k < sentence@.len(),
    {
        let chars = chars_of(sentence);
        let max_len = match max_grouping_len {
            Some(m) => m,
            None => 10,
        };
        let actual_max_len = if has_matched {
            1
        } else if max_len < 3 {
            max_len
        } else {
            3
        };
        let count: usize = if start_pos >= chars.len() {
            0
        } else if actual_max_len <= chars.len() - start_pos {
            actual_max_len
        } else {
            chars.len() - start_pos
        };
        let n = chars.len();
        let mut out: Vec<UnkWord> = Vec::new();
        let mut k: usize = 0;
        while k < count
            invariant
                n == chars@.len(),
                chars@ == sentence@,
                k <= count,
                count == 0 || start_pos + count <= chars@.len(),
                out@.len() == k,
                forall|j: int|
                    0 <= j < k ==> #[trigger] out@[j] == (UnkWord {
                        word_idx: WordIdx { word_id: char_type_of(chars@[start_pos as int]) as u32 },
                        end_char: (start_pos + j + 1) as usize,
                    }),
            decreases count - k,
        {
            let char_type = classify_char_type(chars[start_pos]);
            out.push(UnkWord { word_idx: WordIdx::new(char_type as u32), end_char: start_pos + k + 1 });
            k += 1;
        }
        assert(out@ =~= unk_words_spec(sentence@, start_pos as int, has_matched, max_grouping_len));
        out
    }

    /// The entry whose part of speech an unknown word starting at character
    /// `start` takes when `feature` begins with `名詞,` and the subclass name of
    /// its first character's type; `None` otherwise or when `start` is past
    /// the end.
    pub fn compatible_unk_index(&self, sentence: &str, start: usize, _end: usize, feature: &str) -> (r:
        Option<WordIdx>)
        ensures
            match r {
                Some(w) => start < sentence@.len() && w.word_id == char_type_of(sentence@[start as int])
                    as u32 && has_prefix(
                    feature@,
                    "名詞,"@ + type_name_of(char_type_of(sentence@[start as int])),
                ),
                None => start >= sentence@.len() || !has_prefix(
                    feature@,
                    "名詞,"@ + type_name_of(char_type_of(sentence@[start as int])),
                ),
            },
    {
        let chars = chars_of(sentence);
        if start >= chars.len() {
            return None;
        }
        let char_type = classify_char_type(chars[start]);
        let mut prefix = chars_of("名詞,");
        let name = chars_of(get_type_name(char_type));
        let mut i: usize = 0;
        let ghost p0 = prefix@;
        while i < name.len()
            invariant
                i <= name@.len(),
                prefix@ == p0 + name@.take(i as int),
            decreases name@.len() - i,
        {
            prefix.push(name[i]);
            i += 1;
            assert(prefix@ =~= p0 + name@.take(i as int));
        }
        assert(name@.take(name@.len() as int) =~= name@);
        let fchars = chars_of(feature);
        assert(prefix@ == "名詞,"@ + type_name_of(char_type_of(sentence@[start as int])));
        if prefix.len() > fchars.len() {
            return None;
        }
        let mut j: usize = 0;
        while j < prefix.len()
            invariant
                j <= prefix@.len() <= fchars@.len(),
                forall|k: int| 0 <= k < j ==> fchars@[k] == prefix@[k],
                fchars@ == feature@,
                start < sentence@.len(),
                prefix@ == "名詞,"@ + type_name_of(char_type_of(sentence@[start as int])),
            decreases prefix@.len() - j,
        {
            if fchars[j] != prefix[j] {
                return None;
            }
            j += 1;
        }
        assert(fchars@.subrange(0, prefix@.len() as int) =~= prefix@);
        Some(WordIdx::new(char_type as u32))
    }
}

/// One line of `unk.def`.
#[derive(Debug, Clone)]
pub struct UnknownDictionaryEntry {
    /// The category name.
    pub surface: String,
    /// The left context id.
    pub left_id: u32,
    /// The right context id.
    pub right_id: u32,
    /// The word cost.
    pub word_cost: i32,
}

/// What a line's fields parse to: the category name, the two context ids
/// (`u32`) and the cost (`i32`), each as the standard library parses them;
/// `None` when one of them does not parse.
pub open spec fn entry_spec(fields: Seq<Seq<char>>) -> Option<(Seq<char>, int, int, int)> {
    let l = parse_int_spec(fields[1], false, 0, u32::MAX as int);
    let r = parse_int_spec(fields[2], false, 0, u32::MAX as int);
    let c = parse_int_spec(fields[3], true, i32::MIN as int, i32::MAX as int);
    if l is Some && r is Some && c is Some {
        Some((fields[0], l->0, r->0, c->0))
    } else {
        None
    }
}

/// Parses the fields of one `unk.def` line: the category name, the left and
/// right context ids, and the cost; a count other than `expected_fields_len`
/// is a content error, a number that does not parse a parse error.
pub fn parse_dictionary_entry(fields: &[String], expected_fields_len: usize) -> (r: LinderaResult<
    UnknownDictionaryEntry,
>)
    requires
        fields@.len() != expected_fields_len || fields@.len() >= 4,
    ensures
        fields@.len() != expected_fields_len ==> (r matches Err(e) && e.kind
            == LinderaErrorKind::Content),
        fields@.len() == expected_fields_len ==> match r {
            Ok(entry) => entry_spec(views_of(fields@)) == Some(
                (entry.surface@, entry.left_id as int, entry.right_id as int, entry.word_cost as int),
            ),
            Err(e) => entry_spec(views_of(fields@)) is None && e.kind == LinderaErrorKind::Parse,
        },
{
    if fields.len() != expected_fields_len {
        return Err(error_of(LinderaErrorKind::Content, "Invalid number of fields"));
    }
    let surface = fields[0].clone();
    let l = chars_of(fields[1].as_str());
    let left_id = match parse_decimal(l.as_slice(), false, 0, 0xFFFF_FFFF) {
        Some(v) => v as u32,
        None => {
            return Err(error_of(LinderaErrorKind::Parse, "Invalid left context id"));
        },
    };
    let rr = chars_of(fields[2].as_str());
    let right_id = match parse_decimal(rr.as_slice(), false, 0, 0xFFFF_FFFF) {
        Some(v) => v as u32,
        None => {
            return Err(error_of(LinderaErrorKind::Parse, "Invalid right context id"));
        },
    };
    let c = chars_of(fields[3].as_str());
    let word_cost = match parse_decimal(c.as_slice(), true, -0x8000_0000, 0x7FFF_FFFF) {
        Some(v) => v as i32,
        None => {
            return Err(error_of(LinderaErrorKind::Parse, "Invalid word cost"));
        },
    };
    assert(views_of(fields@)[0] == fields@[0]@);
    assert(views_of(fields@)[1] == fields@[1]@);
    assert(views_of(fields@)[2] == fields@[2]@);
    assert(views_of(fields@)[3] == fields@[3]@);
    Ok(UnknownDictionaryEntry { surface, left_id, right_id, word_cost })
}

/// The ids of the entries whose category name is `target_surface`, in order.
pub fn get_entry_id_matching_surface(entries: &[UnknownDictionaryEntry], target_surface: &str) -> (r:
    Vec<u32>)
    requires
        entries@.len() <= u32::MAX + 1,
    ensures
        forall|k: int| 0 <= k < r@.len() ==> (#[trigger] r@[k]) < entries@.len() && entries@[r@[k] as int].surface@ == target_surface@,
        forall|k: int, l: int| 0 <= k < l < r@.len() ==> r@[k] < r@[l],
        forall|i: int|
            0 <= i < entries@.len() && (#[trigger] entries@[i]).surface@ == target_surface@
                ==> r@.contains(i as u32),
{
    let mut out: Vec<u32> = Vec::new();
    let mut i: usize = 0;
    while i < entries.len()
        invariant
            i <= entries@.len() <= u32::MAX + 1,
            forall|k: int| 0 <= k < out@.len() ==> (#[trigger] out@[k]) < i && entries@[out@[k] as int].surface@ == target_surface@,
            forall|k: int, l: int| 0 <= k < l < out@.len() ==> out@[k] < out@[l],
            forall|j: int|
                0 <= j < i && (#[trigger] entries@[j]).surface@ == target_surface@ ==> out@.contains(
                    j as u32,
                ),
        decreases entries@.len() - i,
    {
        if str_eq(entries[i].surface.as_str(), target_surface) {
            let ghost before = out@;
            out.push(i as u32);
            proof {
                assert forall|j: int|
                    0 <= j < i + 1 && (#[trigger] entries@[j]).surface@ == target_surface@ implies out@.contains(
                    j as u32,
                ) by {
                    if j < i {
                        let w = choose|w: int| 0 <= w < before.len() && before[w] == j as u32;
                        assert(out@[w] == j as u32);
                    } else {
                        assert(out@[out@.len() - 1] == j as u32);
                    }
                }
            }
        }
        i += 1;
    }
    out
}

/// For each category, the ids of the entries of that category.
pub fn make_category_references(categories: &[String], entries: &[UnknownDictionaryEntry]) -> (r: Vec<
    Vec<u32>,
>)
    requires
        entries@.len() <= u32::MAX + 1,
    ensures
        r@.len() == categories@.len(),
        forall|c: int, k: int|
            0 <= c < r@.len() && 0 <= k < r@[c]@.len() ==> (#[trigger] r@[c]@[k]) < entries@.len()
                && entries@[r@[c]@[k] as int].surface@ == categories@[c]@,
        forall|c: int, k: int, l: int|
            0 <= c < r@.len() && 0 <= k < l < r@[c]@.len() ==> #[trigger] r@[c]@[k] < #[trigger] r@[c]@[l],
        forall|c: int, i: int|
            0 <= c < r@.len() && 0 <= i < entries@.len() && (#[trigger] entries@[i]).surface@
                == (#[trigger] categories@[c])@ ==> r@[c]@.contains(i as u32),
{
    let mut out: Vec<Vec<u32>> = Vec::new();
    let mut c: usize = 0;
    while c < categories.len()
        invariant
            c <= categories@.len(),
            entries@.len() <= u32::MAX + 1,
            out@.len() == c,
            forall|d: int, k: int|
                0 <= d < c && 0 <= k < out@[d]@.len() ==> (#[trigger] out@[d]@[k]) < entries@.len()
                    && entries@[out@[d]@[k] as int].surface@ == categories@[d]@,
            forall|d: int, k: int, l: int|
                0 <= d < c && 0 <= k < l < out@[d]@.len() ==> #[trigger] out@[d]@[k] < #[trigger] out@[d]@[l],
            forall|d: int, i: int|
                0 <= d < c && 0 <= i < entries@.len() && (#[trigger] entries@[i]).surface@
                    == (#[trigger] categories@[d])@ ==> out@[d]@.contains(i as u32),
        decreases categories@.len() - c,
    {
        let ids = get_entry_id_matching_surface(entries, categories[c].as_str());
        out.push(ids);
        c += 1;
    }
    out
}

/// The lexicon entry of an `unk.def` line: an unknown word with the line's
/// context ids and cost, each cast to its field's width.
pub open spec fn unk_entry_of(e: UnknownDictionaryEntry) -> WordEntry {
    WordEntry {
        word_id: WordId { id: u32::MAX, lex_type: LexType::Unknown },
        word_cost: e.word_cost as i16,
        left_id: e.left_id as u16,
        right_id: e.right_id as u16,
    }
}

/// The lexicon entries of the `unk.def` lines, in order.
pub fn make_costs_array(entries: &[UnknownDictionaryEntry]) -> (r: Vec<WordEntry>)
    ensures
        r@.len() == entries@.len(),
        forall|i: int| 0 <= i < entries@.len() ==> #[trigger] r@[i] == unk_entry_of(entries@[i]),
{
    let mut out: Vec<WordEntry> = Vec::new();
    let mut i: usize = 0;
    while i < entries.len()
        invariant
            i <= entries@.len(),
            out@.len() == i,
            forall|k: int| 0 <= k < i ==> #[trigger] out@[k] == unk_entry_of(entries@[k]),
        decreases entries@.len() - i,
    {
        let e = &entries[i];
        out.push(
            WordEntry {
                word_id: WordId::new(LexType::Unknown, u32::MAX),
                left_id: e.left_id as u16,
                right_id: e.right_id as u16,
                word_cost: e.word_cost as i16,
            },
        );
        i += 1;
    }
    out
}

/// Whether every line of `unk.def` has at least four comma-separated
/// fields.
pub open spec fn unk_lines_have_fields(file_content: Seq<char>) -> bool {
    forall|i: int|
        0 <= i < lines_spec(file_content).len() ==> (#[trigger] split_seq(
            lines_spec(file_content)[i],
            ',',
        )).len() >= 4
}

/// The category name that line `i` of `unk.def` starts with.
pub open spec fn unk_line_category(file_content: Seq<char>, i: int) -> Seq<char> {
    split_seq(lines_spec(file_content)[i], ',')[0]
}

/// Whether `refs` lists per category, in ascending order, the numbers of
/// the first `n` lines of `unk.def` that start with its name.
pub open spec fn category_refs_of(categories: Seq<String>, file_content: Seq<char>, n: int, refs: Seq<Vec<u32>>) -> bool {
    &&& refs.len() == categories.len()
    &&& forall|c: int, k: int|
        0 <= c < categories.len() && 0 <= k < refs[c]@.len() ==> (#[trigger] refs[c]@[k]) < n && unk_line_category(
            file_content,
            refs[c]@[k] as int,
        ) == categories[c]@
    &&& forall|c: int, k: int, l: int|
        0 <= c < categories.len() && 0 <= k < l < refs[c]@.len() ==> #[trigger] refs[c]@[k] < #[trigger] refs[c]@[l]
    &&& forall|c: int, i: int|
        0 <= c < categories.len() && 0 <= i < n && unk_line_category(file_content, i) == (#[trigger] categories[c])@
            ==> refs[c]@.contains(#[trigger] (i as u32))
}

/// Parses `unk.def`: one entry per line, `category,left_id,right_id,cost,...`,
/// referenced from the categories whose name it carries: the list of each
/// category holds, in ascending order, the numbers of the lines that start
/// with its name.
pub fn parse_unk(categories: &[String], file_content: &str) -> (r: LinderaResult<UnknownDictionary>)
    requires
        unk_lines_have_fields(file_content@),
        lines_spec(file_content@).len() <= u32::MAX + 1,
    ensures
        match r {
            Ok(d) => {
                &&& d.costs@.len() == lines_spec(file_content@).len()
                &&& d.category_references@.len() == categories@.len()
                &&& forall|i: int|
                    0 <= i < d.costs@.len() ==> (entry_spec(
                        split_seq(lines_spec(file_content@)[i], ','),
                    ) matches Some((name, l, rr, c)) && #[trigger] d.costs@[i] == (WordEntry {
                        word_id: WordId { id: u32::MAX, lex_type: LexType::Unknown },
                        word_cost: c as i16,
                        left_id: l as u16,
                        right_id: rr as u16,
                    }))
                &&& category_refs_of(categories@, file_content@, d.costs@.len() as int, d.category_references@)
            },
            Err(e) => e.kind == LinderaErrorKind::Parse && exists|i: int|
                0 <= i < lines_spec(file_content@).len() && entry_spec(
                    split_seq(#[trigger] lines_spec(file_content@)[i], ','),
                ) is None,
        },
{
    let lines = lines_of(file_content);
    let mut entries: Vec<UnknownDictionaryEntry> = Vec::new();
    let mut i: usize = 0;
    while i < lines.len()
        invariant
            views_of(lines@) == lines_spec(file_content@),
            unk_lines_have_fields(file_content@),
            i <= lines@.len(),
            entries@.len() == i,
            forall|k: int|
                0 <= k < i ==> entry_spec(split_seq(lines_spec(file_content@)[k], ','))
                    == Some(
                    (
                        (#[trigger] entries@[k]).surface@,
                        entries@[k].left_id as int,
                        entries@[k].right_id as int,
                        entries@[k].word_cost as int,
                    ),
                ),
        decreases lines@.len() - i,
    {
        let fields = split_on(lines[i].as_str(), ',');
        assert(views_of(lines@)[i as int] == lines@[i as int]@);
        assert(split_seq(lines_spec(file_content@)[i as int], ',').len() >= 4);
        match parse_dictionary_entry(fields.as_slice(), fields.len()) {
            Ok(entry) => {
                entries.push(entry);
            },
            Err(e) => {
                return Err(e);
            },
        }
        i += 1;
    }
    let category_references = make_category_references(categories, entries.as_slice());
    let costs = make_costs_array(entries.as_slice());
    proof {
        assert forall|k: int| 0 <= k < entries@.len() implies (#[trigger] entries@[k]).surface@
            == unk_line_category(file_content@, k) by {
            let e = entries@[k];
            assert(entry_spec(split_seq(lines_spec(file_content@)[k], ',')) == Some(
                (e.surface@, e.left_id as int, e.right_id as int, e.word_cost as int),
            ));
        }
        assert forall|c: int, i: int|
            0 <= c < categories@.len() && 0 <= i < costs@.len() && unk_line_category(file_content@, i)
                == (#[trigger] categories@[c])@ implies category_references@[c]@.contains(#[trigger] (i as u32)) by {
            assert(entries@[i].surface@ == unk_line_category(file_content@, i));
        }
    }
    Ok(UnknownDictionary { category_references, costs })
}

} // verus!
