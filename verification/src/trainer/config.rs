//! Reading the inputs of dictionary training: the seed lexicon, the feature
//! templates, the unknown-word definitions and the character definitions.
use vstd::prelude::*;
use crate::text::{views_of, split_seq, join_spec, is_blank_str, chars_of, split_on, join_with, str_eq, trim_spec};

verus! {

/// Whether a line is skipped: blank, or a `#` comment.
pub open spec fn skipped_line(line: Seq<char>) -> bool {
    is_blank_str(line) || (line.len() > 0 && line[0] == '#')
}

/// The entry a lexicon line holds: with at least five comma-separated
/// columns, its surface (column 0) and its features (columns 4 on, joined
/// with commas).
pub open spec fn lexicon_line(line: Seq<char>) -> Option<(Seq<char>, Seq<char>)> {
    let parts = split_seq(line, ',');
    if skipped_line(line) || parts.len() < 5 {
        None
    } else {
        Some((parts[0], join_spec(parts.skip(4), ',')))
    }
}

/// The entries of lexicon lines, in order.
pub open spec fn lexicon_entries(lines: Seq<Seq<char>>) -> Seq<(Seq<char>, Seq<char>)>
    decreases lines.len(),
{
    if lines.len() == 0 {
        Seq::empty()
    } else {
        let prev = lexicon_entries(lines.drop_last());
        match lexicon_line(lines.last()) {
            Some(e) => prev.push(e),
            None => prev,
        }
    }
}

/// The value of the last entry for `key`, if any.
pub open spec fn last_value(entries: Seq<(Seq<char>, Seq<char>)>, key: Seq<char>) -> Option<Seq<char>>
    decreases entries.len(),
{
    if entries.len() == 0 {
        None
    } else if entries.last().0 == key {
        Some(entries.last().1)
    } else {
        last_value(entries.drop_last(), key)
    }
}

/// Pairs of strings as values.
pub open spec fn pairs_view(v: Seq<(String, String)>) -> Seq<(Seq<char>, Seq<char>)> {
    v.map_values(|p: (String, String)| (p.0@, p.1@))
}

/// The entry of one lexicon line.
pub fn parse_lexicon_line(line: &str) -> (r: Option<(String, String)>)
    ensures
        match r {
            Some((s, f)) => lexicon_line(line@) == Some((s@, f@)),
            None => lexicon_line(line@) is None,
        },
{
    let cs = chars_of(line);
    if crate::text::trims_to_empty(line) || (cs.len() > 0 && cs[0] == '#') {
        return None;
    }
    let parts = split_on(line, ',');
    if parts.len() < 5 {
        return None;
    }
    let rest = vstd::slice::slice_subrange(parts.as_slice(), 4, parts.len());
    let features = join_with(rest, ',');
    proof {
        assert(views_of(rest@) =~= views_of(parts@).skip(4));
        assert(views_of(parts@)[0] == parts@[0]@);
    }
    Some((parts[0].clone(), features))
}

/// The entries of the lines of `content`, in order.
pub fn parse_lexicon(content: &str) -> (r: Vec<(String, String)>)
    ensures
        pairs_view(r@) == lexicon_entries(crate::text::lines_spec(content@)),
{
    let lines = crate::text::lines_of(content);
    let ghost ls = crate::text::lines_spec(content@);
    let mut out: Vec<(String, String)> = Vec::new();
    let mut i: usize = 0;
    assert(ls.take(0) =~= Seq::<Seq<char>>::empty());
    while i < lines.len()
        invariant
            views_of(lines@) == ls,
            i <= lines@.len(),
            pairs_view(out@) == lexicon_entries(ls.take(i as int)),
        decreases lines@.len() - i,
    {
        let ghost t = ls.take(i + 1);
        assert(t.drop_last() =~= ls.take(i as int));
        assert(t.last() == lines@[i as int]@);
        let ghost before = out@;
        match parse_lexicon_line(lines[i].as_str()) {
            Some(e) => {
                out.push(e);
                assert(pairs_view(out@) =~= pairs_view(before).push((e.0@, e.1@)));
            },
            None => {},
        }
        i += 1;
    }
    assert(ls.take(lines@.len() as int) =~= ls);
    out
}

/// The value of the last entry for `key`, if any.
pub fn lookup_last(entries: &Vec<(String, String)>, key: &str) -> (r: Option<String>)
    ensures
        match r {
            Some(v) => last_value(pairs_view(entries@), key@) == Some(v@),
            None => last_value(pairs_view(entries@), key@) is None,
        },
{
    let mut i: usize = entries.len();
    assert(pairs_view(entries@).take(i as int) =~= pairs_view(entries@));
    while i > 0
        invariant
            i <= entries@.len(),
            last_value(pairs_view(entries@), key@) == last_value(pairs_view(entries@).take(i as int), key@),
        decreases i,
    {
        let ghost t = pairs_view(entries@).take(i as int);
        assert(t.drop_last() =~= pairs_view(entries@).take(i - 1));
        if str_eq(entries[i - 1].0.as_str(), key) {
            return Some(entries[i - 1].1.clone());
        }
        i -= 1;
    }
    None
}

} // verus!

verus! {

/// Whether `s` starts with `p`.
pub open spec fn starts_with(s: Seq<char>, p: Seq<char>) -> bool {
    p.len() <= s.len() && s.take(p.len() as int) == p
}

/// `s` without its leading colons.
pub open spec fn strip_colons(s: Seq<char>) -> Seq<char>
    decreases s.len(),
{
    if s.len() > 0 && s[0] == ':' {
        strip_colons(s.drop_first())
    } else {
        s
    }
}

/// The first position from `k` on that holds `c`.
pub open spec fn first_index(s: Seq<char>, c: char, k: int) -> Option<int>
    decreases s.len() - k,
{
    if k < 0 || k >= s.len() {
        None
    } else if s[k] == c {
        Some(k)
    } else {
        first_index(s, c, k + 1)
    }
}

/// The `UNIGRAM:` prefix.
pub open spec fn unigram_prefix() -> Seq<char> {
    seq!['U', 'N', 'I', 'G', 'R', 'A', 'M', ':']
}

/// The `BIGRAM` prefix.
pub open spec fn bigram_prefix() -> Seq<char> {
    seq!['B', 'I', 'G', 'R', 'A', 'M']
}

/// What a line of a feature template file holds: `(false, template, _)` for
/// a unigram template (after `UNIGRAM:`, or the whole line without a known
/// prefix), `(true, left, right)` for a bigram template (after `BIGRAM`, an
/// optional label up to a colon, then `left/right`); nothing for a blank
/// line, a comment, or a bigram line without `/`.
pub open spec fn template_line(line: Seq<char>) -> Option<(bool, Seq<char>, Seq<char>)> {
    if skipped_line(line) {
        None
    } else if starts_with(line, unigram_prefix()) {
        Some((false, line.skip(8), Seq::empty()))
    } else if starts_with(line, bigram_prefix()) {
        let t = trim_spec(strip_colons(trim_spec(line.skip(6))));
        let body = match first_index(t, ':', 0) {
            Some(i) => t.skip(i + 1),
            None => t,
        };
        match first_index(body, '/', 0) {
            Some(j) => Some((true, body.take(j), body.skip(j + 1))),
            None => None,
        }
    } else {
        Some((false, line, Seq::empty()))
    }
}

/// The unigram templates and the bigram template pairs of the lines, each
/// in order.
pub open spec fn templates_of(lines: Seq<Seq<char>>) -> (Seq<Seq<char>>, Seq<(Seq<char>, Seq<char>)>)
    decreases lines.len(),
{
    if lines.len() == 0 {
        (Seq::empty(), Seq::empty())
    } else {
        let (u, b) = templates_of(lines.drop_last());
        match template_line(lines.last()) {
            Some((false, t, _)) => (u.push(t), b),
            Some((true, l, r)) => (u, b.push((l, r))),
            None => (u, b),
        }
    }
}

fn starts_with_chars(cs: &[char], p: &[char]) -> (r: bool)
    ensures
        r == starts_with(cs@, p@),
{
    if p.len() > cs.len() {
        return false;
    }
    let mut i: usize = 0;
    while i < p.len()
        invariant
            p@.len() <= cs@.len(),
            i <= p@.len(),
            forall|k: int| 0 <= k < i ==> cs@[k] == p@[k],
        decreases p@.len() - i,
    {
        if cs[i] != p[i] {
            assert(cs@.take(p@.len() as int)[i as int] != p@[i as int]);
            return false;
        }
        i += 1;
    }
    assert(cs@.take(p@.len() as int) =~= p@);
    true
}

fn find_char(cs: &[char], c: char, k: usize) -> (r: Option<usize>)
    requires
        k <= cs@.len(),
    ensures
        match r {
            Some(i) => first_index(cs@, c, k as int) == Some(i as int) && k <= i < cs@.len() && cs@[i as int] == c,
            None => first_index(cs@, c, k as int) is None,
        },
    decreases cs@.len() - k,
{
    if k >= cs.len() {
        None
    } else if cs[k] == c {
        Some(k)
    } else {
        find_char(cs, c, k + 1)
    }
}

fn strip_leading_colons(cs: &[char], k: usize) -> (r: usize)
    requires
        k <= cs@.len(),
    ensures
        k <= r <= cs@.len(),
        strip_colons(cs@.skip(k as int)) == cs@.skip(r as int),
    decreases cs@.len() - k,
{
    if k < cs.len() && cs[k] == ':' {
        assert(cs@.skip(k as int).drop_first() =~= cs@.skip(k + 1));
        strip_leading_colons(cs, k + 1)
    } else {
        k
    }
}

/// The string of the characters `cs[from..to]`.
fn chars_text(cs: &[char], from: usize, to: usize) -> (r: String)
    requires
        from <= to <= cs@.len(),
    ensures
        r@ == cs@.subrange(from as int, to as int),
{
    crate::text::string_from_chars(vstd::slice::slice_subrange(cs, from, to))
}

/// What one line of a feature template file holds.
pub fn parse_template_line(line: &str) -> (r: Option<(bool, String, String)>)
    ensures
        match r {
            Some((b, l, rr)) => template_line(line@) == Some((b, l@, rr@)),
            None => template_line(line@) is None,
        },
{
    let cs = chars_of(line);
    if crate::text::trims_to_empty(line) || (cs.len() > 0 && cs[0] == '#') {
        return None;
    }
    let uni: [char; 8] = ['U', 'N', 'I', 'G', 'R', 'A', 'M', ':'];
    assert(uni@ =~= unigram_prefix());
    if starts_with_chars(cs.as_slice(), uni.as_slice()) {
        return Some((false, chars_text(cs.as_slice(), 8, cs.len()), String::new()));
    }
    let bi: [char; 6] = ['B', 'I', 'G', 'R', 'A', 'M'];
    assert(bi@ =~= bigram_prefix());
    if starts_with_chars(cs.as_slice(), bi.as_slice()) {
        let rest = chars_text(cs.as_slice(), 6, cs.len());
        let t1 = crate::text::trim(rest.as_str());
        let c1 = chars_of(t1.as_str());
        let start = strip_leading_colons(c1.as_slice(), 0);
        assert(c1@.skip(0) =~= c1@);
        let stripped = chars_text(c1.as_slice(), start, c1.len());
        let t = crate::text::trim(stripped.as_str());
        let ct = chars_of(t.as_str());
        let ctn = ct.len();
        let body_start = match find_char(ct.as_slice(), ':', 0) {
            Some(i) => {
                assert(i < ctn);
                i + 1
            },
            None => 0,
        };
        let body = chars_text(ct.as_slice(), body_start, ct.len());
        let cb = chars_of(body.as_str());
        proof {
            assert(cb@ =~= match first_index(t@, ':', 0) {
                Some(i) => t@.skip(i + 1),
                None => t@,
            });
        }
        return match find_char(cb.as_slice(), '/', 0) {
            Some(j) => Some((true, chars_text(cb.as_slice(), 0, j), chars_text(cb.as_slice(), j + 1, cb.len()))),
            None => None,
        };
    }
    Some((false, line.to_owned(), String::new()))
}

/// The unigram templates and bigram template pairs of a feature template
/// file.
pub fn parse_feature_templates(content: &str) -> (r: (Vec<String>, Vec<(String, String)>))
    ensures
        (views_of(r.0@), pairs_view(r.1@)) == templates_of(crate::text::lines_spec(content@)),
{
    let lines = crate::text::lines_of(content);
    let ghost ls = crate::text::lines_spec(content@);
    let mut uni: Vec<String> = Vec::new();
    let mut bi: Vec<(String, String)> = Vec::new();
    let mut i: usize = 0;
    assert(ls.take(0) =~= Seq::<Seq<char>>::empty());
    while i < lines.len()
        invariant
            views_of(lines@) == ls,
            i <= lines@.len(),
            (views_of(uni@), pairs_view(bi@)) == templates_of(ls.take(i as int)),
        decreases lines@.len() - i,
    {
        let ghost t = ls.take(i + 1);
        assert(t.drop_last() =~= ls.take(i as int));
        assert(t.last() == lines@[i as int]@);
        let ghost u0 = uni@;
        let ghost b0 = bi@;
        match parse_template_line(lines[i].as_str()) {
            Some((false, l, _)) => {
                uni.push(l);
                assert(views_of(uni@) =~= views_of(u0).push(l@));
            },
            Some((true, l, r)) => {
                bi.push((l, r));
                assert(pairs_view(bi@) =~= pairs_view(b0).push((l@, r@)));
            },
            None => {},
        }
        i += 1;
    }
    assert(ls.take(lines@.len() as int) =~= ls);
    (uni, bi)
}

} // verus!

verus! {

/// What a line of an unknown-word definition holds: with at least five
/// comma-separated columns, its category (column 0), its features (columns
/// 4 on, joined with commas) and its cost (column 3 as an `i32`, if it
/// parses).
pub open spec fn unk_line(line: Seq<char>) -> Option<(Seq<char>, Seq<char>, Option<int>)> {
    let parts = split_seq(line, ',');
    if skipped_line(line) || parts.len() < 5 {
        None
    } else {
        Some(
            (
                parts[0],
                join_spec(parts.skip(4), ','),
                crate::text::parse_int_spec(parts[3], true, i32::MIN as int, i32::MAX as int),
            ),
        )
    }
}

/// The categories with their features, and the categories with their costs
/// (where the cost parses), of the lines, in order.
pub open spec fn unk_entries(lines: Seq<Seq<char>>) -> (Seq<(Seq<char>, Seq<char>)>, Seq<(Seq<char>, int)>)
    decreases lines.len(),
{
    if lines.len() == 0 {
        (Seq::empty(), Seq::empty())
    } else {
        let (f, c) = unk_entries(lines.drop_last());
        match unk_line(lines.last()) {
            Some((cat, feat, cost)) => (
                f.push((cat, feat)),
                match cost {
                    Some(v) => c.push((cat, v)),
                    None => c,
                },
            ),
            None => (f, c),
        }
    }
}

/// Category-cost pairs as values.
pub open spec fn costs_view(v: Seq<(String, i32)>) -> Seq<(Seq<char>, int)> {
    v.map_values(|p: (String, i32)| (p.0@, p.1 as int))
}

/// The categories with their features, and with their costs, of an
/// unknown-word definition.
pub fn parse_unk_def(content: &str) -> (r: (Vec<(String, String)>, Vec<(String, i32)>))
    ensures
        (pairs_view(r.0@), costs_view(r.1@)) == unk_entries(crate::text::lines_spec(content@)),
{
    let lines = crate::text::lines_of(content);
    let ghost ls = crate::text::lines_spec(content@);
    let mut cats: Vec<(String, String)> = Vec::new();
    let mut costs: Vec<(String, i32)> = Vec::new();
    let mut i: usize = 0;
    assert(ls.take(0) =~= Seq::<Seq<char>>::empty());
    while i < lines.len()
        invariant
            views_of(lines@) == ls,
            i <= lines@.len(),
            (pairs_view(cats@), costs_view(costs@)) == unk_entries(ls.take(i as int)),
        decreases lines@.len() - i,
    {
        let ghost t = ls.take(i + 1);
        assert(t.drop_last() =~= ls.take(i as int));
        let line = lines[i].as_str();
        assert(t.last() == line@);
        let cs = chars_of(line);
        if !(crate::text::trims_to_empty(line) || (cs.len() > 0 && cs[0] == '#')) {
            let parts = split_on(line, ',');
            if parts.len() >= 5 {
                let rest = vstd::slice::slice_subrange(parts.as_slice(), 4, parts.len());
                let features = join_with(rest, ',');
                let cost_chars = chars_of(parts[3].as_str());
                let cost = crate::text::parse_decimal(cost_chars.as_slice(), true, -2147483648, 2147483647);
                proof {
                    assert(views_of(rest@) =~= views_of(parts@).skip(4));
                    assert(views_of(parts@)[0] == parts@[0]@);
                    assert(views_of(parts@)[3] == parts@[3]@);
                }
                let ghost c0 = cats@;
                let ghost k0 = costs@;
                cats.push((parts[0].clone(), features));
                assert(pairs_view(cats@) =~= pairs_view(c0).push((parts@[0]@, join_spec(views_of(parts@).skip(4), ','))));
                match cost {
                    Some(v) => {
                        costs.push((parts[0].clone(), v as i32));
                        assert(costs_view(costs@) =~= costs_view(k0).push((parts@[0]@, v as int)));
                    },
                    None => {},
                }
            }
        }
        i += 1;
    }
    assert(ls.take(lines@.len() as int) =~= ls);
    (cats, costs)
}

} // verus!

verus! {

/// The value of a hexadecimal digit, or `None`.
pub open spec fn hex_digit(c: char) -> Option<int> {
    if '0' <= c && c <= '9' {
        Some(c as int - '0' as int)
    } else if 'a' <= c && c <= 'f' {
        Some(c as int - 'a' as int + 10)
    } else if 'A' <= c && c <= 'F' {
        Some(c as int - 'A' as int + 10)
    } else {
        None
    }
}

/// The value of hexadecimal digits, or `None` when one is not a digit.
pub open spec fn hex_digits_value(s: Seq<char>) -> Option<int>
    decreases s.len(),
{
    if s.len() == 0 {
        Some(0)
    } else {
        match (hex_digits_value(s.drop_last()), hex_digit(s.last())) {
            (Some(v), Some(d)) => Some(16 * v + d),
            _ => None,
        }
    }
}

/// What `u32::from_str_radix(s, 16)` yields: an optional `+`, then one or
/// more hexadecimal digits, the value in range.
pub open spec fn parse_hex_spec(s: Seq<char>) -> Option<int> {
    let body = if s.len() > 0 && s[0] == '+' { s.drop_first() } else { s };
    if body.len() == 0 {
        None
    } else {
        match hex_digits_value(body) {
            Some(v) => if v <= u32::MAX { Some(v) } else { None },
            None => None,
        }
    }
}

proof fn lemma_hex_prefix(s: Seq<char>, k: int)
    requires
        0 <= k <= s.len(),
        hex_digits_value(s) is Some,
    ensures
        hex_digits_value(s.take(k)) is Some,
        0 <= hex_digits_value(s.take(k))->0 <= hex_digits_value(s)->0,
    decreases s.len(),
{
    if k < s.len() {
        assert(s.take(k) == s.drop_last().take(k));
        lemma_hex_prefix(s.drop_last(), k);
    } else {
        assert(s.take(k) =~= s);
        lemma_hex_nonneg(s);
    }
}

proof fn lemma_hex_nonneg(s: Seq<char>)
    requires
        hex_digits_value(s) is Some,
    ensures
        hex_digits_value(s)->0 >= 0,
    decreases s.len(),
{
    if s.len() > 0 {
        lemma_hex_nonneg(s.drop_last());
    }
}

/// Parses a `u32` written in hexadecimal, as `u32::from_str_radix` does.
pub fn parse_hex(cs: &[char]) -> (r: Option<u32>)
    ensures
        match r {
            Some(v) => parse_hex_spec(cs@) == Some(v as int),
            None => parse_hex_spec(cs@) is None,
        },
{
    let start: usize = if cs.len() > 0 && cs[0] == '+' { 1 } else { 0 };
    let ghost body = if cs@.len() > 0 && cs@[0] == '+' { cs@.drop_first() } else { cs@ };
    assert(body =~= cs@.skip(start as int));
    if start >= cs.len() {
        return None;
    }
    let mut acc: u64 = 0;
    let mut i: usize = start;
    assert(body.take(0) =~= Seq::<char>::empty());
    while i < cs.len()
        invariant
            start <= i <= cs@.len(),
            start < cs@.len(),
            body == cs@.skip(start as int),
            body == (if cs@.len() > 0 && cs@[0] == '+' { cs@.drop_first() } else { cs@ }),
            hex_digits_value(body.take(i - start)) == Some(acc as int),
            acc <= u32::MAX,
        decreases cs@.len() - i,
    {
        let c = cs[i];
        let ghost t = body.take(i + 1 - start);
        assert(t.drop_last() =~= body.take(i - start));
        assert(t.last() == c);
        let d: u64 = if '0' <= c && c <= '9' {
            ((c as u32) - ('0' as u32)) as u64
        } else if 'a' <= c && c <= 'f' {
            ((c as u32) - ('a' as u32) + 10) as u64
        } else if 'A' <= c && c <= 'F' {
            ((c as u32) - ('A' as u32) + 10) as u64
        } else {
            proof {
                assert(hex_digit(c) is None);
                assert(hex_digits_value(t) is None);
                if hex_digits_value(body) is Some {
                    lemma_hex_prefix(body, i + 1 - start);
                }
            }
            return None;
        };
        let next = acc * 16 + d;
        if next > 0xFFFF_FFFF {
            proof {
                assert(hex_digits_value(t) == Some(next as int));
                if hex_digits_value(body) is Some {
                    lemma_hex_prefix(body, i + 1 - start);
                }
            }
            return None;
        }
        acc = next;
        i += 1;
    }
    assert(body.take(cs@.len() - start) =~= body);
    Some(acc as u32)
}

} // verus!

verus! {

/// The state of reading a character definition: category names and data
/// by index, and the code-point ranges with their category index.
pub struct CharDefState {
    pub names: Seq<Seq<char>>,
    pub defs: Seq<crate::dictionary::character_definition::CategoryData>,
    pub ranges: Seq<(u32, u32, usize)>,
}

/// The name of category 0.
pub open spec fn default_name() -> Seq<char> {
    seq!['D', 'E', 'F', 'A', 'U', 'L', 'T']
}

/// The state before any line: category 0 is `DEFAULT`, not invoked, grouped.
pub open spec fn initial_char_def() -> CharDefState {
    CharDefState {
        names: seq![default_name()],
        defs: seq![crate::dictionary::character_definition::CategoryData { invoke: false, group: true, length: 0 }],
        ranges: Seq::empty(),
    }
}

/// The index of the first name equal to `n`, from `k` on.
pub open spec fn name_index(names: Seq<Seq<char>>, n: Seq<char>, k: int) -> Option<int>
    decreases names.len() - k,
{
    if k < 0 || k >= names.len() {
        None
    } else if names[k] == n {
        Some(k)
    } else {
        name_index(names, n, k + 1)
    }
}

/// The first position from `k` on where `..` starts.
pub open spec fn first_dots(s: Seq<char>, k: int) -> Option<int>
    decreases s.len() - k,
{
    if k < 0 || k + 1 >= s.len() {
        None
    } else if s[k] == '.' && s[k + 1] == '.' {
        Some(k)
    } else {
        first_dots(s, k + 1)
    }
}

/// Whether the text after `..` can lose its first two bytes: two ASCII
/// characters, or one two-byte character.
pub open spec fn hex_part_ok(b: Seq<char>) -> bool {
    (b.len() >= 2 && (b[0] as u32) < 0x80 && (b[1] as u32) < 0x80) || (b.len() >= 1 && 0x80 <= (b[0] as u32)
        && (b[0] as u32) < 0x800)
}

/// The text after `..` without its first two bytes.
pub open spec fn hex_part(b: Seq<char>) -> Seq<char> {
    if b.len() >= 2 && (b[0] as u32) < 0x80 && (b[1] as u32) < 0x80 {
        b.skip(2)
    } else {
        b.skip(1)
    }
}

/// The two halves of the range of a range line (`0x..` first word), split
/// at the first `..`, and its category, if it has them.
pub open spec fn range_parts(line: Seq<char>) -> Option<(Seq<char>, Seq<char>, Seq<char>)> {
    let t = trim_spec(line);
    let parts = crate::text::words_spec(t);
    if t.len() == 0 || t[0] == '#' || !starts_with(t, seq!['0', 'x']) || parts.len() < 2 {
        None
    } else {
        match first_dots(parts[0], 0) {
            Some(k) => Some((parts[0].take(k), parts[0].skip(k + 2), parts[1])),
            None => None,
        }
    }
}

/// The category data of a definition line `NAME invoke group length`.
pub open spec fn definition_data(parts: Seq<Seq<char>>) -> crate::dictionary::character_definition::CategoryData {
    crate::dictionary::character_definition::CategoryData {
        invoke: parts[1] != seq!['0'],
        group: parts[2] != seq!['0'],
        length: match crate::text::parse_int_spec(parts[3], false, 0, 255) {
            Some(v) => v as u32,
            None => 0,
        },
    }
}

/// The state after one line, or `None` when a range bound is not
/// hexadecimal: a range line adds its range (and its category, new ones
/// invoked and grouped with length 0); a definition line with at least four
/// words sets (or adds) its category's data.
pub open spec fn char_def_step(st: CharDefState, line: Seq<char>) -> Option<CharDefState> {
    let t = trim_spec(line);
    let parts = crate::text::words_spec(t);
    if t.len() == 0 || t[0] == '#' {
        Some(st)
    } else if starts_with(t, seq!['0', 'x']) {
        match range_parts(line) {
            None => Some(st),
            Some((a, b, cat)) => match (parse_hex_spec(a.skip(2)), parse_hex_spec(hex_part(b))) {
                (Some(s), Some(e)) => match name_index(st.names, cat, 0) {
                    Some(i) => Some(CharDefState { ranges: st.ranges.push((s as u32, e as u32, i as usize)), ..st }),
                    None => Some(
                        CharDefState {
                            names: st.names.push(cat),
                            defs: st.defs.push(
                                crate::dictionary::character_definition::CategoryData { invoke: true, group: true, length: 0 },
                            ),
                            ranges: st.ranges.push((s as u32, e as u32, st.names.len() as usize)),
                        },
                    ),
                },
                _ => None,
            },
        }
    } else if parts.len() >= 4 {
        let data = definition_data(parts);
        match name_index(st.names, parts[0], 0) {
            Some(i) => Some(CharDefState { defs: st.defs.update(i, data), ..st }),
            None => Some(CharDefState { names: st.names.push(parts[0]), defs: st.defs.push(data), ..st }),
        }
    } else {
        Some(st)
    }
}

/// The state after the lines, or `None` when one of them fails.
pub open spec fn char_def_state(lines: Seq<Seq<char>>) -> Option<CharDefState>
    decreases lines.len(),
{
    if lines.len() == 0 {
        Some(initial_char_def())
    } else {
        match char_def_state(lines.drop_last()) {
            Some(st) => char_def_step(st, lines.last()),
            None => None,
        }
    }
}

/// Whether the range lines can be read without a panic: where the start
/// parses, the end text can lose its first two bytes, and an end that
/// parses is below `u32::MAX`.
pub open spec fn char_def_readable(lines: Seq<Seq<char>>) -> bool {
    forall|k: int|
        0 <= k < lines.len() ==> match #[trigger] range_parts(lines[k]) {
            Some((a, b, _)) => parse_hex_spec(a.skip(2)) is Some ==> hex_part_ok(b) && match parse_hex_spec(
                hex_part(b),
            ) {
                Some(e) => e < u32::MAX,
                None => true,
            },
            None => true,
        }
}

/// The position where a range starting at `s` goes into ranges sorted by
/// their starts: after every range that starts at or before it.
pub open spec fn insert_pos(sorted: Seq<(u32, u32, usize)>, s: u32, k: int) -> int
    decreases sorted.len() - k,
{
    if k < 0 || k >= sorted.len() {
        sorted.len() as int
    } else if sorted[k].0 > s {
        k
    } else {
        insert_pos(sorted, s, k + 1)
    }
}

/// The ranges sorted stably by their starts.
pub open spec fn sort_by_start(rs: Seq<(u32, u32, usize)>) -> Seq<(u32, u32, usize)>
    decreases rs.len(),
{
    if rs.len() == 0 {
        Seq::empty()
    } else {
        let s = sort_by_start(rs.drop_last());
        s.insert(insert_pos(s, rs.last().0, 0), rs.last())
    }
}

/// The boundaries of the lookup table over sorted ranges: 0, then per
/// range its start (when past the last boundary) and the code point after
/// its end.
pub open spec fn boundaries_of(sorted: Seq<(u32, u32, usize)>) -> Seq<u32>
    decreases sorted.len(),
{
    if sorted.len() == 0 {
        seq![0u32]
    } else {
        let b = boundaries_of(sorted.drop_last());
        let (s, e, _) = sorted.last();
        let b1 = if s > b.last() {
            b.push(s)
        } else {
            b
        };
        b1.push((e + 1) as u32)
    }
}

/// The boundaries, closed with `0x10FFFF` when they stop below it.
pub open spec fn table_boundaries(sorted: Seq<(u32, u32, usize)>) -> Seq<u32> {
    let b = boundaries_of(sorted);
    if b.last() < 0x10FFFF {
        b.push(0x10FFFF)
    } else {
        b
    }
}

/// The category of code point `c`: that of the first range (in order)
/// containing it, 0 when none does.
pub open spec fn category_for(sorted: Seq<(u32, u32, usize)>, c: u32, k: int) -> usize
    decreases sorted.len() - k,
{
    if k < 0 || k >= sorted.len() {
        0
    } else if sorted[k].0 <= c && c <= sorted[k].1 {
        sorted[k].2
    } else {
        category_for(sorted, c, k + 1)
    }
}

} // verus!

verus! {

use crate::dictionary::character_definition::{CategoryData, CategoryId, CharacterDefinition, LookupTable};

fn find_name(names: &Vec<String>, n: &str) -> (r: Option<usize>)
    ensures
        match r {
            Some(i) => name_index(views_of(names@), n@, 0) == Some(i as int) && i < names@.len(),
            None => name_index(views_of(names@), n@, 0) is None,
        },
{
    let mut i: usize = 0;
    while i < names.len()
        invariant
            i <= names@.len(),
            name_index(views_of(names@), n@, 0) == name_index(views_of(names@), n@, i as int),
        decreases names@.len() - i,
    {
        assert(views_of(names@)[i as int] == names@[i as int]@);
        if str_eq(names[i].as_str(), n) {
            return Some(i);
        }
        i += 1;
    }
    None
}

fn find_dots(cs: &[char], k: usize) -> (r: Option<usize>)
    requires
        k <= cs@.len(),
    ensures
        match r {
            Some(i) => first_dots(cs@, k as int) == Some(i as int) && k <= i && i + 1 < cs@.len(),
            None => first_dots(cs@, k as int) is None,
        },
    decreases cs@.len() - k,
{
    if cs.len() - k < 2 {
        None
    } else if cs[k] == '.' && cs[k + 1] == '.' {
        Some(k)
    } else {
        find_dots(cs, k + 1)
    }
}

/// The state after one line of a character definition; `false` when a range
/// bound is not hexadecimal.
fn char_def_line(
    names: &mut Vec<String>,
    defs: &mut Vec<CategoryData>,
    ranges: &mut Vec<(u32, u32, usize)>,
    line: &str,
) -> (ok: bool)
    requires
        match range_parts(line@) {
            Some((a, b, _)) => parse_hex_spec(a.skip(2)) is Some ==> hex_part_ok(b) && match parse_hex_spec(
                hex_part(b),
            ) {
                Some(e) => e < u32::MAX,
                None => true,
            },
            None => true,
        },
        old(names)@.len() == old(defs)@.len(),
    ensures
        final(names)@.len() == final(defs)@.len(),
        match char_def_step(
            CharDefState { names: views_of(old(names)@), defs: old(defs)@, ranges: old(ranges)@ },
            line@,
        ) {
            Some(st) => ok && st == (CharDefState {
                names: views_of(final(names)@),
                defs: final(defs)@,
                ranges: final(ranges)@,
            }),
            None => !ok,
        },
        forall|i: int| 0 <= i < old(ranges)@.len() ==> final(ranges)@[i] == old(ranges)@[i],
        final(ranges)@.len() >= old(ranges)@.len(),
        final(ranges)@.len() > old(ranges)@.len() ==> final(ranges)@.len() == old(ranges)@.len() + 1
            && final(ranges)@[old(ranges)@.len() as int].1 < u32::MAX,
{
    let t = crate::text::trim(line);
    let cs = chars_of(t.as_str());
    if cs.len() == 0 || cs[0] == '#' {
        return true;
    }
    let parts = crate::text::split_whitespace(t.as_str());
    let zx: [char; 2] = ['0', 'x'];
    assert(zx@ =~= seq!['0', 'x']);
    if starts_with_chars(cs.as_slice(), zx.as_slice()) {
        if parts.len() < 2 {
            return true;
        }
        let r = chars_of(parts[0].as_str());
        assert(views_of(parts@)[0] == parts@[0]@);
        assert(views_of(parts@)[1] == parts@[1]@);
        let k = match find_dots(r.as_slice(), 0) {
            Some(k) => k,
            None => {
                return true;
            },
        };
        let rn = r.len();
        if k < 2 {
            // Unreachable: the first word starts with `0x`.
            proof {
                let w = crate::text::words_spec(t@);
                assert(t@[0] == '0' && t@[1] == 'x');
                lemma_first_word_prefix(t@);
                assert(w[0][0] == '0' && w[0][1] == 'x');
                assert(r@[0] == '0' && r@[1] == 'x');
                lemma_first_dots(r@, 2);
                assert(first_dots(r@, 0) == first_dots(r@, 1));
                assert(first_dots(r@, 1) == first_dots(r@, 2));
                assert(false);
            }
            return true;
        }
        let start = match parse_hex(vstd::slice::slice_subrange(r.as_slice(), 2, k)) {
            Some(s) => s,
            None => {
                proof {
                    assert(r@.take(k as int).skip(2) =~= r@.subrange(2, k as int));
                }
                return false;
            },
        };
        proof {
            assert(r@.take(k as int).skip(2) =~= r@.subrange(2, k as int));
        }
        let b_start = k + 2;
        let ghost b = r@.skip(b_start as int);
        let skip: usize = if rn - b_start >= 2 && (r[b_start] as u32) < 0x80 && (r[b_start + 1] as u32) < 0x80 {
            2
        } else {
            1
        };
        let end = match parse_hex(vstd::slice::slice_subrange(r.as_slice(), b_start + skip, rn)) {
            Some(e) => e,
            None => {
                proof {
                    assert(hex_part(b) =~= r@.subrange(b_start + skip, rn as int));
                }
                return false;
            },
        };
        proof {
            assert(hex_part(b) =~= r@.subrange(b_start + skip, rn as int));
        }
        let cat = parts[1].as_str();
        match find_name(names, cat) {
            Some(i) => {
                ranges.push((start, end, i));
            },
            None => {
                let idx = names.len();
                let ghost n0 = names@;
                names.push(cat.to_owned());
                defs.push(CategoryData { invoke: true, group: true, length: 0 });
                ranges.push((start, end, idx));
                assert(views_of(names@) =~= views_of(n0).push(cat@));
            },
        }
        return true;
    }
    if parts.len() >= 4 {
        proof {
            assert(views_of(parts@)[0] == parts@[0]@);
            assert(views_of(parts@)[1] == parts@[1]@);
            assert(views_of(parts@)[2] == parts@[2]@);
            assert(views_of(parts@)[3] == parts@[3]@);
        }
        let p1 = chars_of(parts[1].as_str());
        let p2 = chars_of(parts[2].as_str());
        let invoke = !(p1.len() == 1 && p1[0] == '0');
        let group = !(p2.len() == 1 && p2[0] == '0');
        proof {
            if p1@.len() == 1 && p1@[0] == '0' {
                assert(p1@ =~= seq!['0']);
            }
            if p2@.len() == 1 && p2@[0] == '0' {
                assert(p2@ =~= seq!['0']);
            }
        }
        let p3 = chars_of(parts[3].as_str());
        let length: u32 = match crate::text::parse_decimal(p3.as_slice(), false, 0, 255) {
            Some(v) => v as u32,
            None => 0,
        };
        let data = CategoryData { invoke, group, length };
        match find_name(names, parts[0].as_str()) {
            Some(i) => {
                defs.set(i, data);
            },
            None => {
                let ghost n0 = names@;
                names.push(parts[0].clone());
                defs.push(data);
                assert(views_of(names@) =~= views_of(n0).push(parts@[0]@));
            },
        }
    }
    true
}

proof fn lemma_first_dots(s: Seq<char>, k: int)
    requires
        0 <= k,
    ensures
        first_dots(s, k) matches Some(i) ==> k <= i && i + 1 < s.len(),
    decreases s.len() - k,
{
    if k + 1 < s.len() && !(s[k] == '.' && s[k + 1] == '.') {
        lemma_first_dots(s, k + 1);
    }
}

/// The first word of a text is its first non-whitespace run, so it starts
/// with the text's first character when that is not whitespace.
proof fn lemma_first_word_prefix(t: Seq<char>)
    requires
        t.len() >= 2,
        !crate::text::is_white_space(t[0]),
        !crate::text::is_white_space(t[1]),
    ensures
        crate::text::words_spec(t).len() > 0,
        crate::text::words_spec(t)[0].len() >= 2,
        crate::text::words_spec(t)[0][0] == t[0],
        crate::text::words_spec(t)[0][1] == t[1],
    decreases t.len(),
{
    let w = crate::text::words_spec(t);
    if t.len() == 2 {
        let t1 = t.drop_last();
        let w1 = crate::text::words_spec(t1);
        assert(t1.drop_last() =~= Seq::<char>::empty());
        assert(crate::text::words_spec(t1.drop_last()) == Seq::<Seq<char>>::empty());
        assert(t1.last() == t[0]);
        assert(w1 =~= seq![seq![t[0]]]);
    } else {
        lemma_first_word_prefix(t.drop_last());
        let w1 = crate::text::words_spec(t.drop_last());
        if crate::text::is_white_space(t.last()) {
        } else if !crate::text::is_white_space(t[t.len() - 2]) && w1.len() > 0 {
            if w1.len() == 1 {
                assert(w[0] == w1[0].push(t.last()));
            } else {
                assert(w[0] == w1[0]);
            }
        } else {
            assert(w[0] == w1[0]);
        }
    }
}

} // verus!

verus! {

/// Whether every range ends below `u32::MAX`.
pub open spec fn ends_bounded(rs: Seq<(u32, u32, usize)>) -> bool {
    forall|i: int| 0 <= i < rs.len() ==> (#[trigger] rs[i]).1 < u32::MAX
}

proof fn lemma_insert_pos_bounds(sorted: Seq<(u32, u32, usize)>, s: u32, k: int)
    requires
        0 <= k <= sorted.len(),
    ensures
        k <= insert_pos(sorted, s, k) <= sorted.len(),
    decreases sorted.len() - k,
{
    if k < sorted.len() && sorted[k].0 <= s {
        lemma_insert_pos_bounds(sorted, s, k + 1);
    }
}

proof fn lemma_sort_bounded(rs: Seq<(u32, u32, usize)>)
    requires
        ends_bounded(rs),
    ensures
        ends_bounded(sort_by_start(rs)),
        sort_by_start(rs).len() == rs.len(),
    decreases rs.len(),
{
    if rs.len() > 0 {
        let init = rs.drop_last();
        assert(ends_bounded(init)) by {
            assert forall|i: int| 0 <= i < init.len() implies (#[trigger] init[i]).1 < u32::MAX by {
                assert(init[i] == rs[i]);
            }
        }
        lemma_sort_bounded(init);
        let s = sort_by_start(init);
        let p = insert_pos(s, rs.last().0, 0);
        lemma_insert_pos_bounds(s, rs.last().0, 0);
        let r = s.insert(p, rs.last());
        assert forall|i: int| 0 <= i < r.len() implies (#[trigger] r[i]).1 < u32::MAX by {
            if i < p {
                assert(r[i] == s[i]);
            } else if i > p {
                assert(r[i] == s[i - 1]);
            }
        }
    }
}

/// The ranges sorted stably by their starts.
pub fn sort_ranges(rs: &Vec<(u32, u32, usize)>) -> (r: Vec<(u32, u32, usize)>)
    ensures
        r@ == sort_by_start(rs@),
{
    let mut sorted: Vec<(u32, u32, usize)> = Vec::new();
    let mut i: usize = 0;
    assert(rs@.take(0) =~= Seq::<(u32, u32, usize)>::empty());
    while i < rs.len()
        invariant
            i <= rs@.len(),
            sorted@ == sort_by_start(rs@.take(i as int)),
        decreases rs@.len() - i,
    {
        let x = rs[i];
        let ghost t = rs@.take(i + 1);
        assert(t.drop_last() =~= rs@.take(i as int));
        let mut p: usize = 0;
        while p < sorted.len() && sorted[p].0 <= x.0
            invariant
                p <= sorted@.len(),
                insert_pos(sorted@, x.0, 0) == insert_pos(sorted@, x.0, p as int),
            decreases sorted@.len() - p,
        {
            p += 1;
        }
        sorted.insert(p, x);
        i += 1;
    }
    assert(rs@.take(rs@.len() as int) =~= rs@);
    sorted
}

/// The boundaries of the lookup table over sorted ranges.
pub fn range_boundaries(sorted: &Vec<(u32, u32, usize)>) -> (r: Vec<u32>)
    requires
        ends_bounded(sorted@),
    ensures
        r@ == table_boundaries(sorted@),
{
    let mut b: Vec<u32> = Vec::new();
    b.push(0);
    let mut i: usize = 0;
    assert(sorted@.take(0) =~= Seq::<(u32, u32, usize)>::empty());
    while i < sorted.len()
        invariant
            i <= sorted@.len(),
            ends_bounded(sorted@),
            b@ == boundaries_of(sorted@.take(i as int)),
            b@.len() >= 1,
        decreases sorted@.len() - i,
    {
        let (s, e, _) = sorted[i];
        let ghost t = sorted@.take(i + 1);
        assert(t.drop_last() =~= sorted@.take(i as int));
        assert(sorted@[i as int].1 < u32::MAX);
        if s > b[b.len() - 1] {
            b.push(s);
        }
        b.push(e + 1);
        i += 1;
    }
    assert(sorted@.take(sorted@.len() as int) =~= sorted@);
    if b[b.len() - 1] < 0x10FFFF {
        b.push(0x10FFFF);
    }
    b
}

/// The category of code point `c` by the ranges, as a one-element list.
pub open spec fn category_seq(sorted: Seq<(u32, u32, usize)>, c: u32) -> Seq<CategoryId> {
    seq![CategoryId(category_for(sorted, c, 0))]
}

/// The category of code point `c` by the ranges, as a one-element list.
pub fn category_vec(sorted: &Vec<(u32, u32, usize)>, c: u32) -> (r: Vec<CategoryId>)
    ensures
        r@ == seq![CategoryId(category_for(sorted@, c, 0))],
{
    let mut k: usize = 0;
    while k < sorted.len()
        invariant
            k <= sorted@.len(),
            category_for(sorted@, c, 0) == category_for(sorted@, c, k as int),
        decreases sorted@.len() - k,
    {
        let (s, e, cat) = sorted[k];
        if s <= c && c <= e {
            let mut v: Vec<CategoryId> = Vec::new();
            v.push(CategoryId(cat));
            assert(v@ =~= seq![CategoryId(category_for(sorted@, c, 0))]);
            return v;
        }
        k += 1;
    }
    let mut v: Vec<CategoryId> = Vec::new();
    v.push(CategoryId(0));
    assert(v@ =~= seq![CategoryId(category_for(sorted@, c, 0))]);
    v
}

/// Whether `cd` is the character definition that the lines of a
/// `char.def` text describe: its categories and their flags are those the
/// lines give after `DEFAULT`, its boundaries are those of the ranges
/// sorted by their starts, and each row holds the category of the first
/// range containing its boundary (`DEFAULT` when none does).
pub open spec fn char_def_built_from(cd: CharacterDefinition, lines: Seq<Seq<char>>) -> bool {
    match char_def_state(lines) {
        Some(st) => {
            let sorted = sort_by_start(st.ranges);
            &&& cd.wf()
            &&& views_of(cd.category_names@) == st.names
            &&& cd.category_definitions@ == st.defs
            &&& cd.mapping.boundaries@.to_multiset() == table_boundaries(sorted).to_multiset()
            &&& forall|k: int|
                0 <= k < cd.mapping.values@.len() ==> (#[trigger] cd.mapping.values@[k])@ == seq![
                    CategoryId(category_for(sorted, cd.mapping.boundaries@[k], 0)),
                ]
        },
        None => false,
    }
}

/// The character definition a `char.def` text describes: the categories in
/// order of appearance after `DEFAULT`, the code-point ranges sorted by
/// their starts, and a lookup table that gives each code point the category
/// of the first range containing it (`DEFAULT` when none does). A range
/// bound that is not hexadecimal is a parse error.
pub fn build_char_def_from_content(content: &str) -> (r: crate::LinderaResult<CharacterDefinition>)
    requires
        char_def_readable(crate::text::lines_spec(content@)),
    ensures
        match r {
            Ok(cd) => char_def_built_from(cd, crate::text::lines_spec(content@)),
            Err(e) => char_def_state(crate::text::lines_spec(content@)) is None && e.kind
                == crate::error::LinderaErrorKind::Parse,
        },
{
    let lines = crate::text::lines_of(content);
    let ghost ls = crate::text::lines_spec(content@);
    let mut names: Vec<String> = Vec::new();
    let default_label = "DEFAULT".to_owned();
    proof {
        reveal_strlit("DEFAULT");
        assert(default_label@ =~= default_name());
    }
    names.push(default_label);
    assert(names@[0]@ == default_name());
    assert(views_of(names@) =~= seq![default_name()]);
    let mut defs: Vec<CategoryData> = Vec::new();
    defs.push(CategoryData { invoke: false, group: true, length: 0 });
    let mut ranges: Vec<(u32, u32, usize)> = Vec::new();
    let mut i: usize = 0;
    assert(ls.take(0) =~= Seq::<Seq<char>>::empty());
    assert(defs@ =~= initial_char_def().defs);
    assert(ranges@ =~= initial_char_def().ranges);
    while i < lines.len()
        invariant
            views_of(lines@) == ls,
            ls == crate::text::lines_spec(content@),
            char_def_readable(ls),
            i <= lines@.len(),
            names@.len() == defs@.len(),
            ends_bounded(ranges@),
            char_def_state(ls.take(i as int)) == Some(
                CharDefState { names: views_of(names@), defs: defs@, ranges: ranges@ },
            ),
        decreases lines@.len() - i,
    {
        let ghost t = ls.take(i + 1);
        assert(t.drop_last() =~= ls.take(i as int));
        assert(t.last() == lines@[i as int]@);
        assert(match range_parts(ls[i as int]) {
            Some((a, b, _)) => parse_hex_spec(a.skip(2)) is Some ==> hex_part_ok(b) && match parse_hex_spec(
                hex_part(b),
            ) {
                Some(e) => e < u32::MAX,
                None => true,
            },
            None => true,
        });
        let ghost r0 = ranges@;
        if !char_def_line(&mut names, &mut defs, &mut ranges, lines[i].as_str()) {
            proof {
                lemma_char_def_none(ls, i as int + 1, lines@.len() as int);
                assert(ls.take(lines@.len() as int) =~= ls);
            }
            return Err(crate::error::error_of(crate::error::LinderaErrorKind::Parse, "invalid character range"));
        }
        assert(ends_bounded(ranges@)) by {
            assert forall|q: int| 0 <= q < ranges@.len() implies (#[trigger] ranges@[q]).1 < u32::MAX by {
                if q < r0.len() {
                    assert(ranges@[q] == r0[q]);
                }
            }
        }
        i += 1;
    }
    assert(ls.take(lines@.len() as int) =~= ls);
    let sorted = sort_ranges(&ranges);
    proof {
        lemma_sort_bounded(ranges@);
    }
    let boundaries = range_boundaries(&sorted);
    proof {
        lemma_boundaries_start_zero(sorted@);
    }
    let table_bounds = crate::dictionary::character_definition::prepare_boundaries(boundaries);
    let mut values: Vec<Vec<CategoryId>> = Vec::new();
    let mut k: usize = 0;
    while k < table_bounds.len()
        invariant
            k <= table_bounds@.len(),
            values@.len() == k,
            forall|j: int|
                0 <= j < k ==> (#[trigger] values@[j])@ == category_seq(sorted@, table_bounds@[j]),
        decreases table_bounds@.len() - k,
    {
        let row = category_vec(&sorted, table_bounds[k]);
        values.push(row);
        k += 1;
    }
    let mapping = LookupTable { boundaries: table_bounds, values };
    Ok(CharacterDefinition::new(defs, names, mapping))
}

/// Whether a line of `char.def` can be read without a panic (see
/// `char_def_readable`).
fn char_def_line_readable(line: &str) -> (r: bool)
    ensures
        r == match range_parts(line@) {
            Some((a, b, _)) => parse_hex_spec(a.skip(2)) is Some ==> hex_part_ok(b) && match parse_hex_spec(
                hex_part(b),
            ) {
                Some(e) => e < u32::MAX,
                None => true,
            },
            None => true,
        },
{
    let t = crate::text::trim(line);
    let cs = chars_of(t.as_str());
    if cs.len() == 0 || cs[0] == '#' {
        return true;
    }
    let parts = crate::text::split_whitespace(t.as_str());
    let zx: [char; 2] = ['0', 'x'];
    assert(zx@ =~= seq!['0', 'x']);
    if !starts_with_chars(cs.as_slice(), zx.as_slice()) || parts.len() < 2 {
        return true;
    }
    let r = chars_of(parts[0].as_str());
    assert(views_of(parts@)[0] == parts@[0]@);
    let k = match find_dots(r.as_slice(), 0) {
        Some(k) => k,
        None => {
            return true;
        },
    };
    let rn = r.len();
    if k < 2 {
        // Unreachable: the first word starts with `0x`.
        proof {
            let w = crate::text::words_spec(t@);
            assert(t@[0] == '0' && t@[1] == 'x');
            lemma_first_word_prefix(t@);
            assert(w[0][0] == '0' && w[0][1] == 'x');
            assert(r@[0] == '0' && r@[1] == 'x');
            lemma_first_dots(r@, 2);
            assert(first_dots(r@, 0) == first_dots(r@, 1));
            assert(first_dots(r@, 1) == first_dots(r@, 2));
            assert(false);
        }
        return true;
    }
    let start = parse_hex(vstd::slice::slice_subrange(r.as_slice(), 2, k));
    proof {
        assert(r@.take(k as int).skip(2) =~= r@.subrange(2, k as int));
    }
    if start.is_none() {
        return true;
    }
    let b_start = k + 2;
    let ghost b = r@.skip(b_start as int);
    let two = rn - b_start >= 2 && (r[b_start] as u32) < 0x80 && (r[b_start + 1] as u32) < 0x80;
    let one = rn - b_start >= 1 && 0x80 <= (r[b_start] as u32) && (r[b_start] as u32) < 0x800;
    if !two && !one {
        return false;
    }
    let skip: usize = if two {
        2
    } else {
        1
    };
    let end = parse_hex(vstd::slice::slice_subrange(r.as_slice(), b_start + skip, rn));
    proof {
        assert(hex_part(b) =~= r@.subrange(b_start + skip, rn as int));
    }
    match end {
        Some(e) => e < 0xFFFF_FFFF,
        None => true,
    }
}

/// Whether the range lines of the text of `char.def` can be read without a
/// panic, as `build_char_def_from_content` asks.
pub fn char_def_text_readable(content: &str) -> (r: bool)
    ensures
        r == char_def_readable(crate::text::lines_spec(content@)),
{
    let lines = crate::text::lines_of(content);
    let ghost ls = crate::text::lines_spec(content@);
    let mut i: usize = 0;
    while i < lines.len()
        invariant
            views_of(lines@) == ls,
            ls == crate::text::lines_spec(content@),
            i <= lines@.len(),
            forall|k: int|
                0 <= k < i ==> match #[trigger] range_parts(ls[k]) {
                    Some((a, b, _)) => parse_hex_spec(a.skip(2)) is Some ==> hex_part_ok(b) && match parse_hex_spec(
                        hex_part(b),
                    ) {
                        Some(e) => e < u32::MAX,
                        None => true,
                    },
                    None => true,
                },
        decreases lines@.len() - i,
    {
        assert(ls[i as int] == lines@[i as int]@);
        if !char_def_line_readable(lines[i].as_str()) {
            assert(!char_def_readable(ls)) by {
                let _ = range_parts(ls[i as int]);
            }
            return false;
        }
        i += 1;
    }
    true
}

proof fn lemma_char_def_none(ls: Seq<Seq<char>>, i: int, n: int)
    requires
        1 <= i <= n <= ls.len(),
        char_def_state(ls.take(i)) is None,
    ensures
        char_def_state(ls.take(n)) is None,
    decreases n - i,
{
    if i < n {
        let t = ls.take(i + 1);
        assert(t.drop_last() =~= ls.take(i));
        lemma_char_def_none(ls, i + 1, n);
    }
}

proof fn lemma_boundaries_start_zero(sorted: Seq<(u32, u32, usize)>)
    ensures
        table_boundaries(sorted).contains(0),
        boundaries_of(sorted).len() >= 1,
        boundaries_of(sorted)[0] == 0,
    decreases sorted.len(),
{
    if sorted.len() > 0 {
        lemma_boundaries_start_zero(sorted.drop_last());
    }
    assert(table_boundaries(sorted)[0] == 0);
}

} // verus!

verus! {

use crate::dictionary::Dictionary;
use crate::dictionary::connection_cost_matrix::ConnectionCostMatrix;
use crate::dictionary::metadata::Metadata;
use crate::dictionary::prefix_dictionary::PrefixDictionary;
use crate::dictionary::unknown_dictionary::UnknownDictionary;
use crate::builder::prefix_dictionary::WordEntryMap;
use crate::trainer::feature_extractor::{FeatureExtractor, parsed_as, template_readable};
use crate::trainer::feature_rewriter::{ActionV, FeatureRewriter, lines_readable, trie_from_lines};

/// The map that entries give, a later entry replacing an earlier one with
/// the same key.
pub open spec fn map_of<V>(entries: Seq<(Seq<char>, V)>) -> Map<Seq<char>, V>
    decreases entries.len(),
{
    if entries.len() == 0 {
        Map::empty()
    } else {
        map_of(entries.drop_last()).insert(entries.last().0, entries.last().1)
    }
}

/// Whether no two entries share a key.
pub open spec fn keys_unique<V>(entries: Seq<(Seq<char>, V)>) -> bool {
    forall|i: int, j: int| 0 <= i < j < entries.len() ==> entries[i].0 != entries[j].0
}

/// With unique keys, every entry is what the map gives for its key.
pub proof fn lemma_map_of_index<V>(s: Seq<(Seq<char>, V)>, i: int)
    requires
        keys_unique(s),
        0 <= i < s.len(),
    ensures
        map_of(s).dom().contains(s[i].0),
        map_of(s)[s[i].0] == s[i].1,
    decreases s.len(),
{
    if i < s.len() - 1 {
        let d = s.drop_last();
        assert(d[i] == s[i]);
        lemma_map_of_index(d, i);
        assert(s.last().0 != s[i].0);
    }
}

/// A key that no entry has is not in the map.
pub proof fn lemma_map_of_absent<V>(s: Seq<(Seq<char>, V)>, k: Seq<char>)
    requires
        forall|i: int| 0 <= i < s.len() ==> s[i].0 != k,
    ensures
        !map_of(s).dom().contains(k),
    decreases s.len(),
{
    if s.len() > 0 {
        let d = s.drop_last();
        assert forall|i: int| 0 <= i < d.len() implies d[i].0 != k by {
            assert(d[i] == s[i]);
        }
        lemma_map_of_absent(d, k);
        assert(s.last().0 != k);
    }
}

/// With unique keys, replacing the entry of a key is inserting it.
pub proof fn lemma_map_of_update<V>(s: Seq<(Seq<char>, V)>, i: int, x: (Seq<char>, V))
    requires
        keys_unique(s),
        0 <= i < s.len(),
        s[i].0 == x.0,
    ensures
        map_of(s.update(i, x)) == map_of(s).insert(x.0, x.1),
    decreases s.len(),
{
    let u = s.update(i, x);
    let d = s.drop_last();
    if i == s.len() - 1 {
        assert(u.drop_last() =~= d);
        assert(map_of(u) =~= map_of(s).insert(x.0, x.1));
    } else {
        assert(keys_unique(d)) by {
            assert forall|a: int, b: int| 0 <= a < b < d.len() implies d[a].0 != d[b].0 by {
                assert(d[a] == s[a] && d[b] == s[b]);
            }
        }
        assert(d[i] == s[i]);
        lemma_map_of_update(d, i, x);
        assert(u.drop_last() =~= d.update(i, x));
        assert(u.last() == s.last());
        assert(s.last().0 != x.0);
        assert(map_of(u) =~= map_of(s).insert(x.0, x.1));
    }
}

/// Sets `key` to `value` among entries with unique keys: the entry with
/// that key gets the new value, or a new entry is appended.
pub fn set_text_entry(entries: &mut Vec<(String, String)>, key: String, value: String)
    requires
        keys_unique(pairs_view(old(entries)@)),
    ensures
        keys_unique(pairs_view(final(entries)@)),
        map_of(pairs_view(final(entries)@)) == map_of(pairs_view(old(entries)@)).insert(key@, value@),
{
    let ghost before = pairs_view(entries@);
    let mut i: usize = 0;
    while i < entries.len()
        invariant
            i <= entries@.len(),
            before == pairs_view(entries@),
            before == pairs_view(old(entries)@),
            keys_unique(before),
            forall|j: int| 0 <= j < i ==> (#[trigger] entries@[j]).0@ != key@,
        decreases entries@.len() - i,
    {
        if str_eq(entries[i].0.as_str(), key.as_str()) {
            let ghost x = (key@, value@);
            entries.set(i, (key, value));
            proof {
                lemma_map_of_update(before, i as int, x);
                assert(pairs_view(entries@) =~= before.update(i as int, x));
                assert(before[i as int].0 == x.0);
                assert(map_of(pairs_view(entries@)) == map_of(before).insert(key@, value@));
            }
            return;
        }
        i += 1;
    }
    proof {
        assert forall|j: int| 0 <= j < before.len() implies before[j].0 != key@ by {
            assert(before[j].0 == entries@[j].0@);
        }
    }
    entries.push((key, value));
    proof {
        let after = pairs_view(entries@);
        assert(after =~= before.push((key@, value@)));
        assert(after.drop_last() =~= before);
    }
}

/// Sets `key` to `value` among category costs with unique keys: the entry
/// with that key gets the new value, or a new entry is appended.
pub fn set_cost_entry(entries: &mut Vec<(String, i32)>, key: String, value: i32)
    requires
        keys_unique(costs_view(old(entries)@)),
    ensures
        keys_unique(costs_view(final(entries)@)),
        map_of(costs_view(final(entries)@)) == map_of(costs_view(old(entries)@)).insert(key@, value as int),
{
    let ghost before = costs_view(entries@);
    let mut i: usize = 0;
    while i < entries.len()
        invariant
            i <= entries@.len(),
            before == costs_view(entries@),
            before == costs_view(old(entries)@),
            keys_unique(before),
            forall|j: int| 0 <= j < i ==> (#[trigger] entries@[j]).0@ != key@,
        decreases entries@.len() - i,
    {
        if str_eq(entries[i].0.as_str(), key.as_str()) {
            let ghost x = (key@, value as int);
            entries.set(i, (key, value));
            proof {
                lemma_map_of_update(before, i as int, x);
                assert(costs_view(entries@) =~= before.update(i as int, x));
                assert(before[i as int].0 == x.0);
                assert(map_of(costs_view(entries@)) == map_of(before).insert(key@, value as int));
            }
            return;
        }
        i += 1;
    }
    proof {
        assert forall|j: int| 0 <= j < before.len() implies before[j].0 != key@ by {
            assert(before[j].0 == entries@[j].0@);
        }
    }
    entries.push((key, value));
    proof {
        let after = costs_view(entries@);
        assert(after =~= before.push((key@, value as int)));
        assert(after.drop_last() =~= before);
    }
}

/// The value for `key` among entries with unique keys.
pub fn get_text_entry(entries: &Vec<(String, String)>, key: &str) -> (r: Option<String>)
    requires
        keys_unique(pairs_view(entries@)),
    ensures
        match r {
            Some(v) => map_of(pairs_view(entries@)).dom().contains(key@) && map_of(pairs_view(entries@))[key@]
                == v@,
            None => !map_of(pairs_view(entries@)).dom().contains(key@),
        },
{
    let ghost s = pairs_view(entries@);
    let mut i: usize = 0;
    while i < entries.len()
        invariant
            i <= entries@.len(),
            s == pairs_view(entries@),
            keys_unique(s),
            forall|j: int| 0 <= j < i ==> (#[trigger] entries@[j]).0@ != key@,
        decreases entries@.len() - i,
    {
        if str_eq(entries[i].0.as_str(), key) {
            proof {
                lemma_map_of_index(s, i as int);
                assert(s[i as int] == (entries@[i as int].0@, entries@[i as int].1@));
            }
            return Some(entries[i].1.clone());
        }
        i += 1;
    }
    proof {
        assert forall|j: int| 0 <= j < s.len() implies s[j].0 != key@ by {
            assert(s[j].0 == entries@[j].0@);
        }
        lemma_map_of_absent(s, key@);
    }
    None
}


/// The cost for `key` among category costs with unique keys.
pub fn get_cost_entry(entries: &Vec<(String, i32)>, key: &str) -> (r: Option<i32>)
    requires
        keys_unique(costs_view(entries@)),
    ensures
        match r {
            Some(v) => map_of(costs_view(entries@)).dom().contains(key@) && map_of(costs_view(entries@))[key@]
                == v as int,
            None => !map_of(costs_view(entries@)).dom().contains(key@),
        },
{
    let ghost s = costs_view(entries@);
    let mut i: usize = 0;
    while i < entries.len()
        invariant
            i <= entries@.len(),
            s == costs_view(entries@),
            keys_unique(s),
            forall|j: int| 0 <= j < i ==> (#[trigger] entries@[j]).0@ != key@,
        decreases entries@.len() - i,
    {
        if str_eq(entries[i].0.as_str(), key) {
            proof {
                lemma_map_of_index(s, i as int);
                assert(s[i as int] == (entries@[i as int].0@, entries@[i as int].1 as int));
            }
            return Some(entries[i].1);
        }
        i += 1;
    }
    proof {
        assert forall|j: int| 0 <= j < s.len() implies s[j].0 != key@ by {
            assert(s[j].0 == entries@[j].0@);
        }
        lemma_map_of_absent(s, key@);
    }
    None
}

/// Whether `m` is the default metadata.
pub open spec fn is_default_metadata(m: Metadata) -> bool {
    &&& m.format_version == crate::dictionary::metadata::DICTIONARY_FORMAT_VERSION
    &&& m.name@ == "default"@
    &&& m.encoding@ == "UTF-8"@
    &&& m.default_word_cost == crate::dictionary::metadata::DEFAULT_WORD_COST
    &&& m.default_left_context_id == crate::dictionary::metadata::DEFAULT_LEFT_CONTEXT_ID
    &&& m.default_right_context_id == crate::dictionary::metadata::DEFAULT_RIGHT_CONTEXT_ID
    &&& m.default_field_value@ == "*"@
    &&& !m.flexible_csv
    &&& !m.skip_invalid_cost_or_id
    &&& !m.normalize_details
    &&& !m.connection_id_mapping
    &&& m.context_id_map is None
    &&& crate::dictionary::schema::names_of(m.dictionary_schema.fields@)
        == crate::dictionary::schema::default_field_names()
    &&& crate::dictionary::schema::names_of(m.user_dictionary_schema.fields@) == seq![
        "surface"@,
        "reading"@,
        "pronunciation"@,
    ]
}

/// Whether `fe` is the feature extractor of the unigram templates `uni`
/// and the bigram template pairs `bi`, with no ids given yet.
pub open spec fn extractor_of(
    fe: FeatureExtractor,
    uni: Seq<Seq<char>>,
    bi: Seq<(Seq<char>, Seq<char>)>,
) -> bool {
    &&& fe.wf()
    &&& fe.unigram_templates@.len() == uni.len()
    &&& forall|k: int| 0 <= k < uni.len() ==> parsed_as(#[trigger] fe.unigram_templates@[k], uni[k], 'F', true)
    &&& fe.left_templates@.len() == bi.len()
    &&& fe.right_templates@.len() == bi.len()
    &&& forall|k: int|
        0 <= k < bi.len() ==> parsed_as(#[trigger] fe.left_templates@[k], bi[k].0, 'L', false) && parsed_as(
            fe.right_templates@[k],
            bi[k].1,
            'R',
            false,
        )
    &&& fe.unigram_feature_ids.keys@.len() == 0
    &&& fe.left_feature_ids.keys@.len() == 0
    &&& fe.right_feature_ids.keys@.len() == 0
    &&& fe.unigram_next_id == 1 && fe.left_next_id == 1 && fe.right_next_id == 1
}

/// Whether the template lines can be parsed: every index placeholder holds
/// a number that fits `usize`.
pub open spec fn templates_readable(lines: Seq<Seq<char>>) -> bool {
    let (uni, bi) = templates_of(lines);
    &&& forall|k: int| 0 <= k < uni.len() ==> template_readable(#[trigger] uni[k], 'F')
    &&& forall|k: int|
        0 <= k < bi.len() ==> template_readable(#[trigger] bi[k].0, 'L') && template_readable(bi[k].1, 'R')
}

/// The inputs of dictionary training.
pub struct TrainerConfig {
    /// The dictionary used while training.
    pub dict: Dictionary,
    /// The surfaces of the seed lexicon, in order.
    pub surfaces: Vec<String>,
    /// The feature text of each seed entry, parallel to `surfaces`.
    pub features: Vec<String>,
    /// Surface to feature text of the seed lexicon, one entry per surface.
    pub surface_features: Vec<(String, String)>,
    /// Surface to feature text of the user lexicon, one entry per surface.
    pub user_lexicon: Vec<(String, String)>,
    /// The feature extractor of the templates.
    pub feature_extractor: FeatureExtractor,
    /// The unigram feature rewriter.
    pub unigram_rewriter: FeatureRewriter,
    /// The left feature rewriter.
    pub left_rewriter: FeatureRewriter,
    /// The right feature rewriter.
    pub right_rewriter: FeatureRewriter,
    /// The metadata.
    pub metadata: Metadata,
    /// Unknown-word category to feature text, one entry per category.
    pub unk_categories: Vec<(String, String)>,
    /// Unknown-word category to cost, one entry per category.
    pub unk_costs: Vec<(String, i32)>,
}

impl TrainerConfig {
    /// Whether each of the lookup lists holds a key at most once.
    pub open spec fn wf(&self) -> bool {
        &&& keys_unique(pairs_view(self.surface_features@))
        &&& keys_unique(pairs_view(self.user_lexicon@))
        &&& keys_unique(pairs_view(self.unk_categories@))
        &&& keys_unique(costs_view(self.unk_costs@))
    }

    /// Surface to features of the seed lexicon.
    pub open spec fn surface_map(&self) -> Map<Seq<char>, Seq<char>> {
        map_of(pairs_view(self.surface_features@))
    }

    /// Surface to features of the user lexicon.
    pub open spec fn user_map(&self) -> Map<Seq<char>, Seq<char>> {
        map_of(pairs_view(self.user_lexicon@))
    }

    /// The features of a surface: from the user lexicon when it has the
    /// surface, else from the seed lexicon.
    pub open spec fn features_spec(&self, surface: Seq<char>) -> Option<Seq<char>> {
        if self.user_map().dom().contains(surface) {
            Some(self.user_map()[surface])
        } else if self.surface_map().dom().contains(surface) {
            Some(self.surface_map()[surface])
        } else {
            None
        }
    }
}

/// An entry added to the user lexicon is what the features of its surface
/// are, whatever the seed lexicon says of it.
pub proof fn lemma_user_entry_wins(before: TrainerConfig, after: TrainerConfig, surface: Seq<char>, features: Seq<char>)
    requires
        after.user_map() == before.user_map().insert(surface, features),
    ensures
        after.features_spec(surface) == Some(features),
{
}

/// The user lexicon takes precedence over the seed lexicon: a surface the
/// user lexicon holds gets its features from there, any other surface from
/// the seed lexicon.
pub proof fn lemma_user_lexicon_precedence(cfg: TrainerConfig, surface: Seq<char>)
    ensures
        cfg.user_map().dom().contains(surface) ==> cfg.features_spec(surface) == Some(cfg.user_map()[surface]),
        !cfg.user_map().dom().contains(surface) ==> cfg.features_spec(surface) == (if cfg.surface_map().dom().contains(
            surface,
        ) {
            Some(cfg.surface_map()[surface])
        } else {
            None
        }),
{
}


/// The unknown-word dictionary used while training: six categories, each
/// referring to entry 0, and no entries.
pub fn training_unknown_dictionary() -> (r: UnknownDictionary)
    ensures
        r.category_references@.len() == 6,
        forall|k: int| 0 <= k < 6 ==> (#[trigger] r.category_references@[k])@ == seq![0u32],
        r.costs@.len() == 0,
{
    let mut refs: Vec<Vec<u32>> = Vec::new();
    let mut k: usize = 0;
    while k < 6
        invariant
            k <= 6,
            refs@.len() == k,
            forall|j: int| 0 <= j < k ==> (#[trigger] refs@[j])@ == seq![0u32],
        decreases 6 - k,
    {
        let mut one: Vec<u32> = Vec::new();
        one.push(0);
        assert(one@ =~= seq![0u32]);
        refs.push(one);
        k += 1;
    }
    UnknownDictionary { category_references: refs, costs: Vec::new() }
}

/// The connection costs used while training: six forward by six backward
/// ids, every cost 0.
pub fn training_connection_matrix() -> (r: ConnectionCostMatrix)
    ensures
        r.forward_size == 6,
        r.backward_size == 6,
        r@ == Seq::new(36, |i: int| 0i16),
{
    let mut table: Vec<i16> = Vec::new();
    let mut k: usize = 0;
    while k < 36
        invariant
            k <= 36,
            table@ == Seq::new(k as nat, |i: int| 0i16),
        decreases 36 - k,
    {
        table.push(0);
        k += 1;
        assert(table@ =~= Seq::new(k as nat, |i: int| 0i16));
    }
    ConnectionCostMatrix { table, forward_size: 6, backward_size: 6 }
}

/// The lexicon used while training: an empty prefix dictionary.
pub fn training_prefix_dictionary() -> (r: PrefixDictionary)
    ensures
        r.trie() == crate::dictionary::prefix_dictionary::empty_trie_image(),
        r.vals_idx_spec() == Seq::new(4, |i: int| 0u8),
        r.vals().len() == 0,
        r.words_idx().len() == 0,
        r.words().len() == 0,
{
    let map = WordEntryMap::new();
    match PrefixDictionary::from_word_entry_map(&map) {
        Ok(d) => {
            assert(map.values@ =~= Seq::<Vec<crate::viterbi::WordEntry>>::empty());
            d
        },
        Err(_) => {
            assert(false);
            PrefixDictionary::from_word_entry_map(&map).unwrap()
        },
    }
}

impl TrainerConfig {
    /// The configuration of the contents of the seed lexicon, the character
    /// definitions, the unknown-word definitions, the feature templates and
    /// the rewrite rules. The lexicon gives the surfaces and their features
    /// (a later line for a surface replaces an earlier one in the lookup
    /// list); the templates give the feature extractor; the rewrite rules
    /// give the right rewriter, the other two rewriters are empty; the
    /// unknown-word definitions give category features and costs. A range
    /// bound of the character definitions that is not hexadecimal is a parse
    /// error.
    pub fn from_readers(
        lexicon: &str,
        char_prop: &str,
        unk_handler: &str,
        feature_templates: &str,
        rewrite_rules: &str,
    ) -> (r: crate::LinderaResult<TrainerConfig>)
        requires
            char_def_readable(crate::text::lines_spec(char_prop@)),
            lines_readable(crate::text::lines_spec(rewrite_rules@)),
            templates_readable(crate::text::lines_spec(feature_templates@)),
        ensures
            r is Ok <==> char_def_state(crate::text::lines_spec(char_prop@)) is Some,
            r matches Err(e) ==> e.kind == crate::error::LinderaErrorKind::Parse,
            r matches Ok(c) ==> {
                let lex = lexicon_entries(crate::text::lines_spec(lexicon@));
                let unk = unk_entries(crate::text::lines_spec(unk_handler@));
                let tpl = templates_of(crate::text::lines_spec(feature_templates@));
                &&& c.wf()
                &&& views_of(c.surfaces@) == lex.map_values(|e: (Seq<char>, Seq<char>)| e.0)
                &&& views_of(c.features@) == lex.map_values(|e: (Seq<char>, Seq<char>)| e.1)
                &&& c.surface_map() == map_of(lex)
                &&& c.user_lexicon@.len() == 0
                &&& extractor_of(c.feature_extractor, tpl.0, tpl.1)
                &&& c.unigram_rewriter.view_nodes() == seq![Seq::<ActionV>::empty()]
                &&& c.left_rewriter.view_nodes() == seq![Seq::<ActionV>::empty()]
                &&& c.right_rewriter.view_nodes() == trie_from_lines(crate::text::lines_spec(rewrite_rules@))
                &&& is_default_metadata(c.metadata)
                &&& map_of(pairs_view(c.unk_categories@)) == map_of(unk.0)
                &&& map_of(costs_view(c.unk_costs@)) == map_of(unk.1)
                &&& char_def_built_from(c.dict.character_definition, crate::text::lines_spec(char_prop@))
                &&& c.dict.unknown_dictionary.category_references@.len() == 6
                &&& forall|k: int|
                    0 <= k < 6 ==> (#[trigger] c.dict.unknown_dictionary.category_references@[k])@ == seq![0u32]
                &&& c.dict.unknown_dictionary.costs@.len() == 0
                &&& c.dict.connection_cost_matrix.forward_size == 6
                &&& c.dict.connection_cost_matrix.backward_size == 6
                &&& c.dict.connection_cost_matrix@ == Seq::new(36, |i: int| 0i16)
                &&& c.dict.prefix_dictionary.trie() == crate::dictionary::prefix_dictionary::empty_trie_image()
                &&& c.dict.prefix_dictionary.vals_idx_spec() == Seq::new(4, |i: int| 0u8)
                &&& c.dict.prefix_dictionary.vals().len() == 0
                &&& c.dict.prefix_dictionary.words_idx().len() == 0
                &&& c.dict.prefix_dictionary.words().len() == 0
                &&& is_default_metadata(c.dict.metadata)
            },
    {
        let entries = parse_lexicon(lexicon);
        let ghost lex = lexicon_entries(crate::text::lines_spec(lexicon@));
        let mut surfaces: Vec<String> = Vec::new();
        let mut features: Vec<String> = Vec::new();
        let mut surface_features: Vec<(String, String)> = Vec::new();
        let mut i: usize = 0;
        assert(lex.take(0) =~= Seq::<(Seq<char>, Seq<char>)>::empty());
        while i < entries.len()
            invariant
                pairs_view(entries@) == lex,
                i <= entries@.len(),
                views_of(surfaces@) == lex.take(i as int).map_values(|e: (Seq<char>, Seq<char>)| e.0),
                views_of(features@) == lex.take(i as int).map_values(|e: (Seq<char>, Seq<char>)| e.1),
                keys_unique(pairs_view(surface_features@)),
                map_of(pairs_view(surface_features@)) == map_of(lex.take(i as int)),
            decreases entries@.len() - i,
        {
            let surface = entries[i].0.clone();
            let feature = entries[i].1.clone();
            let ghost t = lex.take(i + 1);
            assert(t.drop_last() =~= lex.take(i as int));
            assert(t.last() == (surface@, feature@));
            let ghost s0 = surfaces@;
            let ghost f0 = features@;
            surfaces.push(surface.clone());
            features.push(feature.clone());
            proof {
                let g0 = |e: (Seq<char>, Seq<char>)| e.0;
                let g1 = |e: (Seq<char>, Seq<char>)| e.1;
                assert(t.map_values(g0) =~= t.drop_last().map_values(g0).push(surface@));
                assert(t.map_values(g1) =~= t.drop_last().map_values(g1).push(feature@));
                assert(views_of(surfaces@) =~= views_of(s0).push(surface@));
                assert(views_of(features@) =~= views_of(f0).push(feature@));
            }
            set_text_entry(&mut surface_features, surface, feature);
            i += 1;
        }
        assert(lex.take(entries@.len() as int) =~= lex);
        let (unigram_templates, bigram_templates) = parse_feature_templates(feature_templates);
        proof {
            let tp = templates_of(crate::text::lines_spec(feature_templates@));
            assert(tp.0 == views_of(unigram_templates@));
            assert(tp.1 == pairs_view(bigram_templates@));
            assert forall|k: int| 0 <= k < unigram_templates@.len() implies template_readable(
                #[trigger] unigram_templates@[k]@,
                'F',
            ) by {
                assert(tp.0[k] == unigram_templates@[k]@);
                assert(template_readable(tp.0[k], 'F'));
            }
            assert forall|k: int| 0 <= k < bigram_templates@.len() implies template_readable(
                #[trigger] bigram_templates@[k].0@,
                'L',
            ) && template_readable(bigram_templates@[k].1@, 'R') by {
                assert(tp.1[k] == (bigram_templates@[k].0@, bigram_templates@[k].1@));
                assert(template_readable(tp.1[k].0, 'L'));
            }
        }
        let feature_extractor = FeatureExtractor::from_templates(
            unigram_templates.as_slice(),
            bigram_templates.as_slice(),
        );
        let unigram_rewriter = FeatureRewriter::new();
        let left_rewriter = FeatureRewriter::new();
        let right_rewriter = FeatureRewriter::from_reader(rewrite_rules);
        let (unk_list, cost_list) = parse_unk_def(unk_handler);
        let ghost unk = unk_entries(crate::text::lines_spec(unk_handler@));
        let mut unk_categories: Vec<(String, String)> = Vec::new();
        let mut i: usize = 0;
        assert(unk.0.take(0) =~= Seq::<(Seq<char>, Seq<char>)>::empty());
        while i < unk_list.len()
            invariant
                pairs_view(unk_list@) == unk.0,
                i <= unk_list@.len(),
                keys_unique(pairs_view(unk_categories@)),
                map_of(pairs_view(unk_categories@)) == map_of(unk.0.take(i as int)),
            decreases unk_list@.len() - i,
        {
            let ghost t = unk.0.take(i + 1);
            assert(t.drop_last() =~= unk.0.take(i as int));
            set_text_entry(&mut unk_categories, unk_list[i].0.clone(), unk_list[i].1.clone());
            i += 1;
        }
        assert(unk.0.take(unk_list@.len() as int) =~= unk.0);
        let mut unk_costs: Vec<(String, i32)> = Vec::new();
        let mut i: usize = 0;
        assert(unk.1.take(0) =~= Seq::<(Seq<char>, int)>::empty());
        while i < cost_list.len()
            invariant
                costs_view(cost_list@) == unk.1,
                i <= cost_list@.len(),
                keys_unique(costs_view(unk_costs@)),
                map_of(costs_view(unk_costs@)) == map_of(unk.1.take(i as int)),
            decreases cost_list@.len() - i,
        {
            let ghost t = unk.1.take(i + 1);
            assert(t.drop_last() =~= unk.1.take(i as int));
            set_cost_entry(&mut unk_costs, cost_list[i].0.clone(), cost_list[i].1);
            i += 1;
        }
        assert(unk.1.take(cost_list@.len() as int) =~= unk.1);
        let character_definition = build_char_def_from_content(char_prop)?;
        let dict = Dictionary {
            prefix_dictionary: training_prefix_dictionary(),
            connection_cost_matrix: training_connection_matrix(),
            character_definition,
            unknown_dictionary: training_unknown_dictionary(),
            metadata: Metadata::default(),
        };
        Ok(TrainerConfig {
            dict,
            surfaces,
            features,
            surface_features,
            user_lexicon: Vec::new(),
            feature_extractor,
            unigram_rewriter,
            left_rewriter,
            right_rewriter,
            metadata: Metadata::default(),
            unk_categories,
            unk_costs,
        })
    }

    /// The dictionary's lexicon.
    pub fn system_lexicon(&self) -> (r: &PrefixDictionary)
        ensures
            r == &self.dict.prefix_dictionary,
    {
        &self.dict.prefix_dictionary
    }

    /// The dictionary.
    pub fn dict(&self) -> (r: &Dictionary)
        ensures
            r == &self.dict,
    {
        &self.dict
    }

    /// The dictionary's unknown-word entries.
    pub fn unk_handler(&self) -> (r: &UnknownDictionary)
        ensures
            r == &self.dict.unknown_dictionary,
    {
        &self.dict.unknown_dictionary
    }

    /// The surfaces of the seed lexicon.
    pub fn surfaces(&self) -> (r: &[String])
        ensures
            r@ == self.surfaces@,
    {
        self.surfaces.as_slice()
    }

    /// Surface to features of the seed lexicon.
    pub fn surface_features(&self) -> (r: &Vec<(String, String)>)
        ensures
            r@ == self.surface_features@,
    {
        &self.surface_features
    }

    /// Surface to features of the user lexicon.
    pub fn user_lexicon(&self) -> (r: &Vec<(String, String)>)
        ensures
            r@ == self.user_lexicon@,
    {
        &self.user_lexicon
    }

    /// The metadata.
    pub fn metadata(&self) -> (r: &Metadata)
        ensures
            r == &self.metadata,
    {
        &self.metadata
    }

    /// Sets the features of a surface in the user lexicon.
    pub fn add_user_lexicon_entry(&mut self, surface: String, features: String)
        requires
            old(self).wf(),
        ensures
            final(self).wf(),
            final(self).user_map() == old(self).user_map().insert(surface@, features@),
            final(self).surface_features@ == old(self).surface_features@,
            final(self).surfaces@ == old(self).surfaces@,
            final(self).features@ == old(self).features@,
    {
        set_text_entry(&mut self.user_lexicon, surface, features);
    }

    /// The features of a surface: from the user lexicon when it holds the
    /// surface, else from the seed lexicon.
    pub fn get_features(&self, surface: &str) -> (r: Option<String>)
        requires
            self.wf(),
        ensures
            match r {
                Some(f) => self.features_spec(surface@) == Some(f@),
                None => self.features_spec(surface@) is None,
            },
    {
        match get_text_entry(&self.user_lexicon, surface) {
            Some(f) => Some(f),
            None => get_text_entry(&self.surface_features, surface),
        }
    }

    /// Adds the entries of lexicon lines to the user lexicon, in order: the
    /// surface (column 0) of every line with at least five columns gets the
    /// features of columns 4 on; blank lines and `#` comments are skipped.
    pub fn load_user_lexicon_from_content(&mut self, content: &str) -> (r: crate::LinderaResult<()>)
        requires
            old(self).wf(),
        ensures
            r is Ok,
            final(self).wf(),
            final(self).user_map() == map_of(
                pairs_view(old(self).user_lexicon@) + lexicon_entries(crate::text::lines_spec(content@)),
            ),
            final(self).surface_features@ == old(self).surface_features@,
    {
        let entries = parse_lexicon(content);
        let ghost lex = lexicon_entries(crate::text::lines_spec(content@));
        let ghost base = pairs_view(self.user_lexicon@);
        let mut i: usize = 0;
        assert(base + lex.take(0) =~= base);
        while i < entries.len()
            invariant
                pairs_view(entries@) == lex,
                i <= entries@.len(),
                self.wf(),
                self.user_map() == map_of(base + lex.take(i as int)),
                self.surface_features@ == old(self).surface_features@,
            decreases entries@.len() - i,
        {
            let ghost t = base + lex.take(i + 1);
            assert(t.drop_last() =~= base + lex.take(i as int));
            assert(t.last() == (entries@[i as int].0@, entries@[i as int].1@));
            self.add_user_lexicon_entry(entries[i].0.clone(), entries[i].1.clone());
            i += 1;
        }
        assert(lex.take(entries@.len() as int) =~= lex);
        Ok(())
    }
}
} // verus!
