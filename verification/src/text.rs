//! Character-level string helpers and decimal integer parsing.
use vstd::prelude::*;

verus! {

broadcast use vstd::string::axiom_spec_iter;

/// Collects the characters of `s` in order.
pub fn chars_of(s: &str) -> (r: Vec<char>)
    ensures
        r@ == s@,
{
    let mut out: Vec<char> = Vec::new();
    for c in it: s.chars()
        invariant
            it.seq() == s@,
            out@ == it.seq().take(it.index() as int),
    {
        out.push(c);
    }
    out
}

} // verus!

verus! {

/// Appends one character to `s`.
///
/// Calls `String::push`; the contract claims that the character is appended
/// at the end and nothing else changes.
#[verifier::external_body]
fn push_char(s: &mut String, c: char)
    ensures
        final(s)@ == old(s)@.push(c),
{
    s.push(c);
}

/// Builds a string holding exactly the characters of `cs`.
pub fn string_from_chars(cs: &[char]) -> (r: String)
    ensures
        r@ == cs@,
{
    let mut out = String::new();
    let mut i: usize = 0;
    while i < cs.len()
        invariant
            i <= cs@.len(),
            out@ == cs@.take(i as int),
        decreases cs@.len() - i,
    {
        push_char(&mut out, cs[i]);
        i += 1;
        assert(cs@.take(i as int) == cs@.take(i - 1).push(cs@[i - 1]));
    }
    assert(cs@.take(cs@.len() as int) == cs@);
    out
}

/// Whether two strings hold the same characters.
pub fn str_eq(a: &str, b: &str) -> (r: bool)
    ensures
        r == (a@ == b@),
{
    let x = a.to_owned();
    let y = b.to_owned();
    x == y
}

/// Whether `c` is an ASCII decimal digit.
pub open spec fn is_digit(c: char) -> bool {
    '0' <= c && c <= '9'
}

/// Exec form of [`is_digit`].
pub fn char_is_digit(c: char) -> (r: bool)
    ensures
        r == is_digit(c),
{
    '0' <= c && c <= '9'
}

/// The value of a decimal digit character.
pub open spec fn digit_value(c: char) -> int {
    (c as int) - ('0' as int)
}

/// Whether every character of `s` is a decimal digit.
pub open spec fn all_digits(s: Seq<char>) -> bool {
    forall|i: int| 0 <= i < s.len() ==> is_digit(#[trigger] s[i])
}

/// The number written by the decimal digits `s` (most significant first).
pub open spec fn digits_value(s: Seq<char>) -> int
    decreases s.len(),
{
    if s.len() == 0 {
        0
    } else {
        10 * digits_value(s.drop_last()) + digit_value(s.last())
    }
}

} // verus!

verus! {

/// What the standard library's integer `FromStr` yields for `s` for a type
/// whose range is `lo..=hi`: an optional `+` sign (or, when `signed`, a `-`
/// sign), then one or more decimal digits and nothing else, with the value
/// inside the range.
pub open spec fn parse_int_spec(s: Seq<char>, signed: bool, lo: int, hi: int) -> Option<int> {
    let has_plus = s.len() > 0 && s[0] == '+';
    let has_minus = signed && s.len() > 0 && s[0] == '-';
    let body = if has_plus || has_minus { s.drop_first() } else { s };
    if body.len() == 0 || !all_digits(body) {
        None
    } else {
        let v = if has_minus { -digits_value(body) } else { digits_value(body) };
        if lo <= v && v <= hi { Some(v) } else { None }
    }
}

pub proof fn lemma_digits_value_nonneg(s: Seq<char>)
    requires
        all_digits(s),
    ensures
        digits_value(s) >= 0,
    decreases s.len(),
{
    if s.len() > 0 {
        assert(all_digits(s.drop_last()));
        lemma_digits_value_nonneg(s.drop_last());
        assert(is_digit(s[s.len() - 1]));
    }
}

pub proof fn lemma_digits_value_prefix(s: Seq<char>, k: int)
    requires
        all_digits(s),
        0 <= k <= s.len(),
    ensures
        0 <= digits_value(s.take(k)) <= digits_value(s),
    decreases s.len(),
{
    assert(all_digits(s.take(k)));
    lemma_digits_value_nonneg(s.take(k));
    if k < s.len() {
        let t = s.drop_last();
        assert(all_digits(t));
        assert(t.take(k) == s.take(k));
        lemma_digits_value_prefix(t, k);
        lemma_digits_value_nonneg(t);
        assert(is_digit(s[s.len() - 1]));
    } else {
        assert(s.take(k) == s);
    }
}

/// Parses a decimal integer the way the standard library's integer
/// `FromStr` does for a type whose range is `lo..=hi`.
pub fn parse_decimal(cs: &[char], signed: bool, lo: i64, hi: i64) -> (r: Option<i64>)
    requires
        -0x1_0000_0000_0000 <= lo <= 0 <= hi <= 0x1_0000_0000_0000,
    ensures
        match r {
            Some(v) => parse_int_spec(cs@, signed, lo as int, hi as int) == Some(v as int),
            None => parse_int_spec(cs@, signed, lo as int, hi as int).is_none(),
        },
{
    let ghost s = cs@;
    let has_plus = cs.len() > 0 && cs[0] == '+';
    let has_minus = signed && cs.len() > 0 && cs[0] == '-';
    let start: usize = if has_plus || has_minus { 1 } else { 0 };
    let ghost body = if has_plus || has_minus { s.drop_first() } else { s };
    assert(body == s.skip(start as int));
    if start >= cs.len() {
        return None;
    }
    let mut acc: u64 = 0;
    let mut i: usize = start;
    while i < cs.len()
        invariant
            start <= i <= cs@.len(),
            start < cs@.len(),
            s == cs@,
            has_plus == (s.len() > 0 && s[0] == '+'),
            has_minus == (signed && s.len() > 0 && s[0] == '-'),
            body == (if has_plus || has_minus { s.drop_first() } else { s }),
            start == (if has_plus || has_minus { 1usize } else { 0usize }),
            -0x1_0000_0000_0000 <= lo <= 0 <= hi <= 0x1_0000_0000_0000,
            body == cs@.skip(start as int),
            all_digits(body.take(i - start)),
            acc as int == digits_value(body.take(i - start)),
            acc <= 0x1_0000_0000_0000 * 10 + 9,
        decreases cs@.len() - i,
    {
        let c = cs[i];
        if !char_is_digit(c) {
            assert(!is_digit(body[i - start]));
            return None;
        }
        let ghost old_prefix = body.take(i - start);
        let d: u64 = ((c as u32) - ('0' as u32)) as u64;
        if acc > 0x1_0000_0000_0000 {
            proof {
                if all_digits(body) {
                    lemma_digits_value_prefix(body, i - start);
                }
            }
            return None;
        }
        acc = acc * 10 + d;
        i += 1;
        proof {
            let p = body.take(i - start);
            assert(p.drop_last() == old_prefix);
            assert(p.last() == c);
            assert(all_digits(p));
        }
    }
    assert(body.take(cs@.len() - start) == body);
    let v: i64 = if has_minus { -(acc as i64) } else { acc as i64 };
    if lo <= v && v <= hi {
        Some(v)
    } else {
        None
    }
}

} // verus!

verus! {

/// Whether `c` has the Unicode `White_Space` property (what `char::is_whitespace`
/// and `str::trim` go by).
pub open spec fn is_white_space(c: char) -> bool {
    let u = c as u32;
    (9 <= u <= 13) || u == 32 || u == 0x85 || u == 0xA0 || u == 0x1680 || (0x2000 <= u <= 0x200A)
        || u == 0x2028 || u == 0x2029 || u == 0x202F || u == 0x205F || u == 0x3000
}

/// Exec form of [`is_white_space`].
pub fn char_is_white_space(c: char) -> (r: bool)
    ensures
        r == is_white_space(c),
{
    let u = c as u32;
    (9 <= u && u <= 13) || u == 32 || u == 0x85 || u == 0xA0 || u == 0x1680 || (0x2000 <= u && u
        <= 0x200A) || u == 0x2028 || u == 0x2029 || u == 0x202F || u == 0x205F || u == 0x3000
}

/// Whether `s` is empty once trimmed: every character is white space.
pub open spec fn is_blank_str(s: Seq<char>) -> bool {
    forall|i: int| 0 <= i < s.len() ==> is_white_space(#[trigger] s[i])
}

/// Whether `s.trim()` is empty.
pub fn trims_to_empty(s: &str) -> (r: bool)
    ensures
        r == is_blank_str(s@),
{
    let cs = chars_of(s);
    let mut i: usize = 0;
    while i < cs.len()
        invariant
            cs@ == s@,
            i <= cs@.len(),
            forall|j: int| 0 <= j < i ==> is_white_space(#[trigger] cs@[j]),
        decreases cs@.len() - i,
    {
        if !char_is_white_space(cs[i]) {
            return false;
        }
        i += 1;
    }
    true
}

} // verus!

verus! {

/// The pieces of `s` between the occurrences of `sep`, so a text without
/// `sep` is one piece (what `str::split` yields for a character).
pub open spec fn split_seq(s: Seq<char>, sep: char) -> Seq<Seq<char>>
    decreases s.len(),
{
    if s.len() == 0 {
        seq![Seq::empty()]
    } else {
        let rest = split_seq(s.drop_last(), sep);
        if s.last() == sep {
            rest.push(Seq::empty())
        } else {
            rest.update(rest.len() - 1, rest.last().push(s.last()))
        }
    }
}

/// `split_seq` always yields at least one piece.
pub proof fn lemma_split_seq_nonempty(s: Seq<char>, sep: char)
    ensures
        split_seq(s, sep).len() >= 1,
    decreases s.len(),
{
    if s.len() > 0 {
        lemma_split_seq_nonempty(s.drop_last(), sep);
    }
}

/// The text view of each string.
pub open spec fn views_of(v: Seq<String>) -> Seq<Seq<char>> {
    v.map_values(|f: String| f@)
}

/// Splits `s` at every occurrence of `sep`.
pub fn split_on(s: &str, sep: char) -> (r: Vec<String>)
    ensures
        views_of(r@) == split_seq(s@, sep),
{
    let cs = chars_of(s);
    let mut out: Vec<String> = Vec::new();
    let mut cur: Vec<char> = Vec::new();
    let mut i: usize = 0;
    while i < cs.len()
        invariant
            cs@ == s@,
            i <= cs@.len(),
            views_of(out@).push(cur@) == split_seq(cs@.take(i as int), sep),
        decreases cs@.len() - i,
    {
        let c = cs[i];
        let ghost before = views_of(out@).push(cur@);
        proof {
            let t = cs@.take(i + 1);
            assert(t.drop_last() =~= cs@.take(i as int));
            assert(t.last() == c);
        }
        if c == sep {
            let piece = string_from_chars(cur.as_slice());
            out.push(piece);
            cur = Vec::new();
            assert(views_of(out@).push(cur@) =~= before.push(Seq::empty()));
        } else {
            cur.push(c);
            assert(views_of(out@).push(cur@) =~= before.update(
                before.len() - 1,
                before.last().push(c),
            ));
        }
        i += 1;
    }
    let last = string_from_chars(cur.as_slice());
    let ghost before = views_of(out@).push(cur@);
    out.push(last);
    assert(views_of(out@) =~= before);
    assert(cs@.take(cs@.len() as int) =~= cs@);
    out
}

/// A line without its `\r` before the newline that ended it.
pub open spec fn strip_cr(line: Seq<char>) -> Seq<char> {
    if line.len() > 0 && line.last() == '\r' {
        line.drop_last()
    } else {
        line
    }
}

/// The lines of `s` as `str::lines` yields them: split at `\n`, a `\r`
/// before a `\n` removed, and no empty line after a final `\n`.
pub open spec fn lines_spec(s: Seq<char>) -> Seq<Seq<char>> {
    let pieces = split_seq(s, '\n');
    let n = pieces.len();
    let ended = pieces.last().len() == 0;
    Seq::new(
        (if ended { n - 1 } else { n as int }) as nat,
        |i: int| if i < n - 1 { strip_cr(pieces[i]) } else { pieces[i] },
    )
}

/// The lines of `s`, as `str::lines` yields them.
pub fn lines_of(s: &str) -> (r: Vec<String>)
    ensures
        views_of(r@) == lines_spec(s@),
{
    let pieces = split_on(s, '\n');
    proof {
        lemma_split_seq_nonempty(s@, '\n');
    }
    let n = pieces.len();
    let ended = chars_of(pieces[n - 1].as_str()).len() == 0;
    assert(views_of(pieces@).last() == pieces@[n - 1]@);
    let count = if ended {
        n - 1
    } else {
        n
    };
    let mut out: Vec<String> = Vec::new();
    let mut i: usize = 0;
    while i < count
        invariant
            n == pieces@.len(),
            n >= 1,
            views_of(pieces@) == split_seq(s@, '\n'),
            count <= n,
            count == (if views_of(pieces@).last().len() == 0 { n - 1 } else { n as int }),
            i <= count,
            views_of(out@) == lines_spec(s@).take(i as int),
        decreases count - i,
    {
        let cs = chars_of(pieces[i].as_str());
        let line = if i < n - 1 && cs.len() > 0 && cs[cs.len() - 1] == '\r' {
            let stripped = string_from_chars(&cs.as_slice()[0..cs.len() - 1]);
            assert(cs@.subrange(0, cs@.len() - 1) =~= cs@.drop_last());
            stripped
        } else {
            string_from_chars(cs.as_slice())
        };
        let ghost before = out@;
        out.push(line);
        i += 1;
        assert(views_of(out@) =~= lines_spec(s@).take(i as int)) by {
            assert(views_of(out@) =~= views_of(before).push(line@));
            assert(views_of(pieces@)[i - 1] == pieces@[i - 1]@);
        }
    }
    assert(lines_spec(s@).take(count as int) =~= lines_spec(s@));
    out
}

} // verus!

verus! {

/// The concatenation of `a` and `b`.
pub fn concat_str(a: &str, b: &str) -> (r: String)
    ensures
        r@ == a@ + b@,
{
    let mut cs = chars_of(a);
    let bs = chars_of(b);
    let mut i: usize = 0;
    let ghost a0 = cs@;
    while i < bs.len()
        invariant
            a0 == a@,
            bs@ == b@,
            i <= bs@.len(),
            cs@ == a0 + bs@.take(i as int),
        decreases bs@.len() - i,
    {
        cs.push(bs[i]);
        i += 1;
        assert(cs@ =~= a0 + bs@.take(i as int));
    }
    assert(bs@.take(bs@.len() as int) =~= bs@);
    string_from_chars(cs.as_slice())
}

} // verus!

verus! {

/// Whether `a` comes strictly before `b` in lexicographic code-point order
/// (the order of `str`'s `Ord`, since UTF-8 preserves it).
pub open spec fn seq_lt(a: Seq<char>, b: Seq<char>) -> bool
    decreases a.len(),
{
    if a.len() == 0 {
        b.len() > 0
    } else if b.len() == 0 {
        false
    } else if a[0] != b[0] {
        (a[0] as u32) < (b[0] as u32)
    } else {
        seq_lt(a.drop_first(), b.drop_first())
    }
}

/// `seq_lt` is irreflexive.
pub proof fn lemma_seq_lt_irreflexive(a: Seq<char>)
    ensures
        !seq_lt(a, a),
    decreases a.len(),
{
    if a.len() > 0 {
        lemma_seq_lt_irreflexive(a.drop_first());
    }
}

/// `seq_lt` is transitive.
pub proof fn lemma_seq_lt_transitive(a: Seq<char>, b: Seq<char>, c: Seq<char>)
    requires
        seq_lt(a, b),
        seq_lt(b, c),
    ensures
        seq_lt(a, c),
    decreases a.len(),
{
    if a.len() > 0 && b.len() > 0 && c.len() > 0 {
        if a[0] == b[0] && b[0] == c[0] {
            lemma_seq_lt_transitive(a.drop_first(), b.drop_first(), c.drop_first());
        }
    }
}

/// `seq_lt` is total on distinct sequences.
pub proof fn lemma_seq_lt_total(a: Seq<char>, b: Seq<char>)
    ensures
        a == b || seq_lt(a, b) || seq_lt(b, a),
    decreases a.len(),
{
    if a.len() > 0 && b.len() > 0 && a[0] == b[0] {
        lemma_seq_lt_total(a.drop_first(), b.drop_first());
        if a.drop_first() == b.drop_first() {
            assert(a =~= seq![a[0]] + a.drop_first());
            assert(b =~= seq![b[0]] + b.drop_first());
        }
    } else if a.len() == 0 && b.len() == 0 {
        assert(a =~= b);
    } else if a.len() > 0 && b.len() > 0 {
        vstd::utf8::char_u32_cast(a[0], a[0] as u32);
        vstd::utf8::char_u32_cast(b[0], b[0] as u32);
        assert((a[0] as u32) != (b[0] as u32));
    }
}

/// `seq_lt` is asymmetric.
pub proof fn lemma_seq_lt_asymmetric(a: Seq<char>, b: Seq<char>)
    requires
        seq_lt(a, b),
    ensures
        !seq_lt(b, a),
    decreases a.len(),
{
    if a.len() > 0 && b.len() > 0 && a[0] == b[0] {
        lemma_seq_lt_asymmetric(a.drop_first(), b.drop_first());
    }
}

/// Compares two character sequences in lexicographic code-point order:
/// `-1`, `0` or `1` as `a` comes before, equals or comes after `b`.
pub fn compare_chars(a: &[char], b: &[char]) -> (r: i8)
    ensures
        r == -1 <==> seq_lt(a@, b@),
        r == 0 <==> a@ == b@,
        r == 1 <==> seq_lt(b@, a@),
        r == -1 || r == 0 || r == 1,
{
    let mut i: usize = 0;
    assert(a@.skip(0) =~= a@);
    assert(b@.skip(0) =~= b@);
    while i < a.len() && i < b.len()
        invariant
            i <= a@.len(),
            i <= b@.len(),
            a@.take(i as int) == b@.take(i as int),
            seq_lt(a@, b@) == seq_lt(a@.skip(i as int), b@.skip(i as int)),
            seq_lt(b@, a@) == seq_lt(b@.skip(i as int), a@.skip(i as int)),
        decreases a@.len() - i,
    {
        if a[i] != b[i] {
            proof {
                lemma_seq_lt_total(a@, b@);
                if a@ == b@ {
                    assert(a@[i as int] == b@[i as int]);
                }
            }
            if (a[i] as u32) < (b[i] as u32) {
                return -1;
            } else {
                return 1;
            }
        }
        proof {
            assert(a@.skip(i as int).drop_first() =~= a@.skip(i + 1));
            assert(b@.skip(i as int).drop_first() =~= b@.skip(i + 1));
            assert(a@.take(i + 1) =~= a@.take(i as int).push(a@[i as int]));
            assert(b@.take(i + 1) =~= b@.take(i as int).push(b@[i as int]));
        }
        i += 1;
    }
    if a.len() == b.len() {
        assert(a@ =~= a@.take(i as int));
        assert(b@ =~= b@.take(i as int));
        proof {
            lemma_seq_lt_irreflexive(a@);
        }
        0
    } else if a.len() < b.len() {
        proof {
            lemma_seq_lt_asymmetric(a@, b@);
            assert(a@ =~= a@.take(i as int));
            if a@ == b@ {
                assert(a@.len() == b@.len());
            }
        }
        -1
    } else {
        proof {
            lemma_seq_lt_asymmetric(b@, a@);
            assert(b@ =~= b@.take(i as int));
            if a@ == b@ {
                assert(a@.len() == b@.len());
            }
        }
        1
    }
}

} // verus!

verus! {

/// `s` without its leading white space.
pub open spec fn trim_start_spec(s: Seq<char>) -> Seq<char>
    decreases s.len(),
{
    if s.len() > 0 && is_white_space(s[0]) {
        trim_start_spec(s.drop_first())
    } else {
        s
    }
}

/// `s` without its trailing white space.
pub open spec fn trim_end_spec(s: Seq<char>) -> Seq<char>
    decreases s.len(),
{
    if s.len() > 0 && is_white_space(s.last()) {
        trim_end_spec(s.drop_last())
    } else {
        s
    }
}

/// `s` without leading and trailing white space (what `str::trim` gives).
pub open spec fn trim_spec(s: Seq<char>) -> Seq<char> {
    trim_end_spec(trim_start_spec(s))
}

proof fn lemma_trim_start_skip(s: Seq<char>, i: int)
    requires
        0 <= i <= s.len(),
        forall|k: int| 0 <= k < i ==> is_white_space(#[trigger] s[k]),
    ensures
        trim_start_spec(s) == trim_start_spec(s.skip(i)),
    decreases i,
{
    if i > 0 {
        assert(s.drop_first().skip(i - 1) =~= s.skip(i));
        lemma_trim_start_skip(s.drop_first(), i - 1);
    } else {
        assert(s.skip(0) =~= s);
    }
}

proof fn lemma_trim_end_take(s: Seq<char>, j: int)
    requires
        0 <= j <= s.len(),
        forall|k: int| j <= k < s.len() ==> is_white_space(#[trigger] s[k]),
    ensures
        trim_end_spec(s) == trim_end_spec(s.take(j)),
    decreases s.len() - j,
{
    if j < s.len() {
        assert(s.drop_last().take(j) =~= s.take(j));
        lemma_trim_end_take(s.drop_last(), j);
    } else {
        assert(s.take(j) =~= s);
    }
}

/// `s` without leading and trailing white space.
pub fn trim(s: &str) -> (r: String)
    ensures
        r@ == trim_spec(s@),
{
    let cs = chars_of(s);
    let n = cs.len();
    let mut start: usize = 0;
    while start < n && char_is_white_space(cs[start])
        invariant
            n == cs@.len(),
            cs@ == s@,
            start <= n,
            forall|k: int| 0 <= k < start ==> is_white_space(#[trigger] cs@[k]),
        decreases n - start,
    {
        start += 1;
    }
    proof {
        lemma_trim_start_skip(cs@, start as int);
    }
    let ghost t = cs@.skip(start as int);
    assert(trim_start_spec(t) == t);
    let mut end: usize = n;
    while end > start && char_is_white_space(cs[end - 1])
        invariant
            n == cs@.len(),
            start <= end <= n,
            t == cs@.skip(start as int),
            forall|k: int| end - start <= k < t.len() ==> is_white_space(#[trigger] t[k]),
        decreases end,
    {
        end -= 1;
    }
    proof {
        lemma_trim_end_take(t, end - start);
        let u = t.take(end - start);
        if u.len() > 0 {
            assert(u.last() == cs@[end - 1]);
        }
    }
    let r = string_from_chars(&cs.as_slice()[start..end]);
    assert(cs@.subrange(start as int, end as int) =~= t.take(end - start));
    r
}

/// Joins `parts` with `sep` between them.
pub open spec fn join_spec(parts: Seq<Seq<char>>, sep: char) -> Seq<char>
    decreases parts.len(),
{
    if parts.len() == 0 {
        Seq::empty()
    } else if parts.len() == 1 {
        parts[0]
    } else {
        join_spec(parts.drop_last(), sep) + seq![sep] + parts.last()
    }
}

/// Joins the strings of `parts` with `sep` between them.
pub fn join_with(parts: &[String], sep: char) -> (r: String)
    ensures
        r@ == join_spec(views_of(parts@), sep),
{
    let mut out: Vec<char> = Vec::new();
    let mut i: usize = 0;
    while i < parts.len()
        invariant
            i <= parts@.len(),
            out@ == join_spec(views_of(parts@).take(i as int), sep),
        decreases parts@.len() - i,
    {
        let cs = chars_of(parts[i].as_str());
        let ghost before = out@;
        if i > 0 {
            out.push(sep);
        }
        let mut k: usize = 0;
        let ghost base = out@;
        while k < cs.len()
            invariant
                k <= cs@.len(),
                out@ == base + cs@.take(k as int),
            decreases cs@.len() - k,
        {
            out.push(cs[k]);
            k += 1;
            assert(out@ =~= base + cs@.take(k as int));
        }
        proof {
            assert(cs@.take(cs@.len() as int) =~= cs@);
            let t = views_of(parts@).take(i + 1);
            assert(t.drop_last() =~= views_of(parts@).take(i as int));
            assert(t.last() == parts@[i as int]@);
            if i == 0 {
                assert(out@ =~= t[0]);
            } else {
                assert(out@ =~= before + seq![sep] + cs@);
            }
        }
        i += 1;
    }
    assert(views_of(parts@).take(parts@.len() as int) =~= views_of(parts@));
    string_from_chars(out.as_slice())
}

/// Splitting a text at `sep` after appending `sep` and a piece without
/// `sep` gives the pieces before, then that piece.
proof fn lemma_split_append(a: Seq<char>, y: Seq<char>, sep: char)
    requires
        !y.contains(sep),
    ensures
        split_seq(a + seq![sep] + y, sep) == split_seq(a, sep).push(y),
    decreases y.len(),
{
    if y.len() == 0 {
        assert(a + seq![sep] + y =~= a.push(sep));
        assert((a.push(sep)).drop_last() =~= a);
        assert(y =~= Seq::<char>::empty());
    } else {
        let y0 = y.drop_last();
        assert(!y0.contains(sep)) by {
            if y0.contains(sep) {
                let k = choose|k: int| 0 <= k < y0.len() && y0[k] == sep;
                assert(y[k] == sep);
            }
        }
        lemma_split_append(a, y0, sep);
        let s = a + seq![sep] + y;
        assert(s.drop_last() =~= a + seq![sep] + y0);
        assert(s.last() == y.last());
        assert(y.last() != sep) by {
            assert(y[y.len() - 1] == y.last());
        }
        lemma_split_seq_nonempty(a, sep);
        assert(y0.push(y.last()) =~= y);
        assert(split_seq(a, sep).push(y0).update(
            split_seq(a, sep).len() as int,
            y0.push(y.last()),
        ) =~= split_seq(a, sep).push(y));
        assert(y0.push(y.last()) =~= y);
    }
}

/// A text without `sep` splits into itself.
proof fn lemma_split_single(y: Seq<char>, sep: char)
    requires
        !y.contains(sep),
    ensures
        split_seq(y, sep) == seq![y],
    decreases y.len(),
{
    if y.len() == 0 {
        assert(y =~= Seq::<char>::empty());
    } else {
        let y0 = y.drop_last();
        assert(!y0.contains(sep)) by {
            if y0.contains(sep) {
                let k = choose|k: int| 0 <= k < y0.len() && y0[k] == sep;
                assert(y[k] == sep);
            }
        }
        lemma_split_single(y0, sep);
        assert(y.last() != sep) by {
            assert(y[y.len() - 1] == y.last());
        }
        assert(y0.push(y.last()) =~= y);
        assert(seq![y0].update(0, y0.push(y.last())) =~= seq![y]);
        assert(y0.push(y.last()) =~= y);
    }
}

/// Splitting what `join_spec` joined gives the parts back, when there is at
/// least one part and none of them holds the separator.
pub proof fn lemma_split_join(parts: Seq<Seq<char>>, sep: char)
    requires
        parts.len() >= 1,
        forall|i: int| 0 <= i < parts.len() ==> !(#[trigger] parts[i]).contains(sep),
    ensures
        split_seq(join_spec(parts, sep), sep) == parts,
    decreases parts.len(),
{
    if parts.len() == 1 {
        lemma_split_single(parts[0], sep);
        assert(seq![parts[0]] =~= parts);
    } else {
        lemma_split_join(parts.drop_last(), sep);
        assert(!parts.last().contains(sep)) by {
            assert(parts[parts.len() - 1] == parts.last());
        }
        lemma_split_append(join_spec(parts.drop_last(), sep), parts.last(), sep);
        assert(parts.drop_last().push(parts.last()) =~= parts);
    }
}

} // verus!

verus! {

/// The decimal digit `d` (0 to 9) as a character.
pub open spec fn digit_char(d: int) -> char {
    if d == 0 {
        '0'
    } else if d == 1 {
        '1'
    } else if d == 2 {
        '2'
    } else if d == 3 {
        '3'
    } else if d == 4 {
        '4'
    } else if d == 5 {
        '5'
    } else if d == 6 {
        '6'
    } else if d == 7 {
        '7'
    } else if d == 8 {
        '8'
    } else {
        '9'
    }
}

/// The decimal notation of `n`, without leading zeros.
pub open spec fn decimal_spec(n: nat) -> Seq<char>
    decreases n,
{
    if n < 10 {
        seq![digit_char(n as int)]
    } else {
        decimal_spec(n / 10).push(digit_char((n % 10) as int))
    }
}

fn push_decimal(n: usize, out: &mut Vec<char>)
    ensures
        final(out)@ == old(out)@ + decimal_spec(n as nat),
    decreases n,
{
    if n >= 10 {
        push_decimal(n / 10, out);
    }
    let d = n % 10;
    let c = if d == 0 {
        '0'
    } else if d == 1 {
        '1'
    } else if d == 2 {
        '2'
    } else if d == 3 {
        '3'
    } else if d == 4 {
        '4'
    } else if d == 5 {
        '5'
    } else if d == 6 {
        '6'
    } else if d == 7 {
        '7'
    } else if d == 8 {
        '8'
    } else {
        '9'
    };
    let ghost before = out@;
    out.push(c);
    assert(out@ =~= old(out)@ + decimal_spec(n as nat));
}

/// The decimal notation of `n`.
pub fn decimal_text(n: usize) -> (r: String)
    ensures
        r@ == decimal_spec(n as nat),
{
    let mut cs: Vec<char> = Vec::new();
    push_decimal(n, &mut cs);
    assert(cs@ =~= decimal_spec(n as nat));
    string_from_chars(cs.as_slice())
}

} // verus!

verus! {

/// The words of `s`: its maximal runs of non-whitespace characters, in
/// order (what `str::split_whitespace` yields).
pub open spec fn words_spec(s: Seq<char>) -> Seq<Seq<char>>
    decreases s.len(),
{
    if s.len() == 0 {
        Seq::empty()
    } else {
        let prev = words_spec(s.drop_last());
        let c = s.last();
        if is_white_space(c) {
            prev
        } else if s.len() >= 2 && !is_white_space(s[s.len() - 2]) && prev.len() > 0 {
            prev.update(prev.len() - 1, prev.last().push(c))
        } else {
            prev.push(seq![c])
        }
    }
}

/// The words of `s`, split at whitespace.
pub fn split_whitespace(s: &str) -> (r: Vec<String>)
    ensures
        views_of(r@) == words_spec(s@),
{
    let cs = chars_of(s);
    let mut words: Vec<Vec<char>> = Vec::new();
    let mut i: usize = 0;
    assert(cs@.take(0) =~= Seq::<char>::empty());
    while i < cs.len()
        invariant
            cs@ == s@,
            i <= cs@.len(),
            words@.map_values(|w: Vec<char>| w@) == words_spec(cs@.take(i as int)),
        decreases cs@.len() - i,
    {
        let c = cs[i];
        let ghost t = cs@.take(i + 1);
        assert(t.drop_last() =~= cs@.take(i as int));
        assert(t.last() == c);
        let ghost before = words@.map_values(|w: Vec<char>| w@);
        if char_is_white_space(c) {
        } else if i >= 1 && !char_is_white_space(cs[i - 1]) && words.len() > 0 {
            assert(t[t.len() - 2] == cs@[i - 1]);
            let last = words.len() - 1;
            let mut w = words.remove(last);
            w.push(c);
            words.push(w);
            assert(words@.map_values(|w: Vec<char>| w@) =~= before.update(before.len() - 1, before.last().push(c)));
        } else {
            proof {
                if i >= 1 {
                    assert(t[t.len() - 2] == cs@[i - 1]);
                }
            }
            let mut w: Vec<char> = Vec::new();
            w.push(c);
            words.push(w);
            assert(words@.map_values(|w: Vec<char>| w@) =~= before.push(seq![c]));
        }
        i += 1;
    }
    assert(cs@.take(cs@.len() as int) =~= cs@);
    let mut out: Vec<String> = Vec::new();
    let mut k: usize = 0;
    while k < words.len()
        invariant
            k <= words@.len(),
            views_of(out@) == words@.map_values(|w: Vec<char>| w@).take(k as int),
        decreases words@.len() - k,
    {
        let w = string_from_chars(words[k].as_slice());
        let ghost before = out@;
        out.push(w);
        assert(views_of(out@) =~= views_of(before).push(w@));
        assert(views_of(out@) =~= words@.map_values(|w: Vec<char>| w@).take(k + 1));
        k += 1;
    }
    assert(words@.map_values(|w: Vec<char>| w@).take(words@.len() as int) =~= words@.map_values(
        |w: Vec<char>| w@,
    ));
    out
}

} // verus!

verus! {

/// Parses an unsigned 64-bit decimal integer the way the standard library's
/// `FromStr` does: an optional `+`, then one or more digits, within range.
pub fn parse_u64(cs: &[char]) -> (r: Option<u64>)
    ensures
        match r {
            Some(v) => parse_int_spec(cs@, false, 0, u64::MAX as int) == Some(v as int),
            None => parse_int_spec(cs@, false, 0, u64::MAX as int) is None,
        },
{
    let ghost s = cs@;
    let has_plus = cs.len() > 0 && cs[0] == '+';
    let start: usize = if has_plus { 1 } else { 0 };
    let ghost body = if has_plus { s.drop_first() } else { s };
    assert(body =~= s.skip(start as int));
    if start >= cs.len() {
        return None;
    }
    let mut acc: u64 = 0;
    let mut i: usize = start;
    assert(body.take(0) =~= Seq::<char>::empty());
    while i < cs.len()
        invariant
            start <= i <= cs@.len(),
            start < cs@.len(),
            s == cs@,
            has_plus == (s.len() > 0 && s[0] == '+'),
            body == (if has_plus { s.drop_first() } else { s }),
            start == (if has_plus { 1usize } else { 0usize }),
            body == cs@.skip(start as int),
            all_digits(body.take(i - start)),
            acc as int == digits_value(body.take(i - start)),
        decreases cs@.len() - i,
    {
        let c = cs[i];
        if !char_is_digit(c) {
            assert(!is_digit(body[i - start]));
            return None;
        }
        let ghost p = body.take(i + 1 - start);
        proof {
            assert(p.drop_last() == body.take(i - start));
            assert(p.last() == c);
            assert(all_digits(p));
        }
        let d: u64 = ((c as u32) - ('0' as u32)) as u64;
        let next = match acc.checked_mul(10) {
            Some(m) => m.checked_add(d),
            None => None,
        };
        match next {
            Some(v) => {
                acc = v;
            },
            None => {
                proof {
                    if all_digits(body) {
                        lemma_digits_value_prefix(body, i + 1 - start);
                    }
                }
                return None;
            },
        }
        i += 1;
    }
    assert(body.take(cs@.len() - start) == body);
    Some(acc)
}

} // verus!
