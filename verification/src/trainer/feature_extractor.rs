//! Feature templates and the ids of the features they produce.
use vstd::prelude::*;
use crate::text::{views_of, chars_of, string_from_chars, str_eq, is_digit, digits_value, all_digits};

verus! {

/// What a template placeholder stands for.
#[derive(Clone, Copy)]
pub enum FeatureType {
    /// The feature at this position.
    Index(usize),
    /// The character category id.
    CharacterType,
}

/// A placeholder of a template: where it stands (in characters), what it
/// stands for, and whether its feature must be defined (`?` forms).
#[derive(Clone, Copy)]
pub struct Capture {
    pub start: usize,
    pub end: usize,
    pub feature_type: FeatureType,
    pub required: bool,
}

/// A placeholder as a value.
pub struct CaptureV {
    pub start: int,
    pub end: int,
    pub feature_type: FeatureType,
    pub required: bool,
}

/// The number of decimal digits in a row from position `k` of `t`.
pub open spec fn digit_run(t: Seq<char>, k: int) -> nat
    decreases t.len() - k,
{
    if k < 0 || k >= t.len() || !is_digit(t[k]) {
        0
    } else {
        1 + digit_run(t, k + 1)
    }
}

/// The bracketed index placeholder `<letter>[digits]` (or, when `required`,
/// `<letter>?[digits]`) right after the `%` at position `i`: its length from
/// the `%` and its index.
pub open spec fn indexed_at(t: Seq<char>, i: int, letter: char, required: bool) -> Option<(int, int)> {
    let open = if required { i + 3 } else { i + 2 };
    let digits = open + 1;
    let run = digit_run(t, digits);
    if open < t.len() && t[i + 1] == letter && (!required || t[i + 2] == '?') && t[open] == '[' && run > 0
        && digits + run < t.len() && t[digits + run] == ']' {
        Some((digits + run + 1 - i, digits_value(t.subrange(digits, digits + run))))
    } else {
        None
    }
}

/// The placeholder starting at position `i`, if any: `%t` (the character
/// category, when `allow_t`), `%<letter>[n]` or `%<letter>?[n]`.
pub open spec fn token_at(t: Seq<char>, i: int, letter: char, allow_t: bool) -> Option<CaptureV> {
    if i < 0 || i + 1 >= t.len() || t[i] != '%' {
        None
    } else if allow_t && t[i + 1] == 't' {
        Some(CaptureV { start: i, end: i + 2, feature_type: FeatureType::CharacterType, required: false })
    } else {
        match indexed_at(t, i, letter, false) {
            Some((len, n)) => Some(
                CaptureV { start: i, end: i + len, feature_type: FeatureType::Index(n as usize), required: false },
            ),
            None => match indexed_at(t, i, letter, true) {
                Some((len, n)) => Some(
                    CaptureV { start: i, end: i + len, feature_type: FeatureType::Index(n as usize), required: true },
                ),
                None => None,
            },
        }
    }
}

/// The placeholders of `t` from position `i` on, left to right, each search
/// going on after the previous placeholder.
pub open spec fn captures_from(t: Seq<char>, i: int, letter: char, allow_t: bool) -> Seq<CaptureV>
    decreases t.len() - i,
{
    if i < 0 || i >= t.len() {
        Seq::empty()
    } else {
        match token_at(t, i, letter, allow_t) {
            Some(c) => if c.end > i {
                seq![c] + captures_from(t, c.end, letter, allow_t)
            } else {
                Seq::empty()
            },
            None => captures_from(t, i + 1, letter, allow_t),
        }
    }
}

/// Whether every index placeholder of `t` holds a number that fits `usize`.
pub open spec fn template_readable(t: Seq<char>, letter: char) -> bool {
    forall|i: int, req: bool|
        0 <= i < t.len() ==> match #[trigger] indexed_at(t, i, letter, req) {
            Some((_, n)) => n <= usize::MAX,
            None => true,
        }
}

/// A parsed template.
pub struct ParsedTemplate {
    /// The template text.
    pub raw_template: String,
    /// The indices of its `?` placeholders, in order.
    pub required_indices: Vec<usize>,
    /// Its placeholders, left to right.
    pub captures: Vec<Capture>,
}

/// The placeholders as values.
pub open spec fn captures_view(v: Seq<Capture>) -> Seq<CaptureV> {
    v.map_values(|c: Capture| CaptureV { start: c.start as int, end: c.end as int, feature_type: c.feature_type, required: c.required })
}

/// The indices of the required placeholders, in order.
pub open spec fn required_of(caps: Seq<CaptureV>) -> Seq<usize>
    decreases caps.len(),
{
    if caps.len() == 0 {
        Seq::empty()
    } else {
        let prev = required_of(caps.drop_last());
        let c = caps.last();
        if c.required {
            match c.feature_type {
                FeatureType::Index(n) => prev.push(n),
                FeatureType::CharacterType => prev,
            }
        } else {
            prev
        }
    }
}

/// Whether `p` is the parse of template `t` for placeholder letter `letter`.
pub open spec fn parsed_as(p: ParsedTemplate, t: Seq<char>, letter: char, allow_t: bool) -> bool {
    &&& p.raw_template@ == t
    &&& captures_view(p.captures@) == captures_from(t, 0, letter, allow_t)
    &&& p.required_indices@ == required_of(captures_from(t, 0, letter, allow_t))
}

} // verus!

verus! {

fn count_digits(cs: &[char], k: usize) -> (r: usize)
    requires
        k <= cs@.len(),
    ensures
        r == digit_run(cs@, k as int),
        k + r <= cs@.len(),
        all_digits(cs@.subrange(k as int, k + r)),
    decreases cs@.len() - k,
{
    if k >= cs.len() || !('0' <= cs[k] && cs[k] <= '9') {
        assert(cs@.subrange(k as int, k as int) =~= Seq::<char>::empty());
        0
    } else {
        let rest = count_digits(cs, k + 1);
        proof {
            let s = cs@.subrange(k as int, k + 1 + rest);
            assert(s.drop_first() =~= cs@.subrange(k + 1, k + 1 + rest));
            assert forall|j: int| 0 <= j < s.len() implies is_digit(#[trigger] s[j]) by {
                if j > 0 {
                    assert(s[j] == s.drop_first()[j - 1]);
                }
            }
        }
        1 + rest
    }
}

/// The value of the digits `cs[from..to]`.
fn digits_number(cs: &[char], from: usize, to: usize) -> (r: usize)
    requires
        from <= to <= cs@.len(),
        all_digits(cs@.subrange(from as int, to as int)),
        digits_value(cs@.subrange(from as int, to as int)) <= usize::MAX,
    ensures
        r == digits_value(cs@.subrange(from as int, to as int)),
{
    let ghost body = cs@.subrange(from as int, to as int);
    let mut acc: usize = 0;
    let mut i: usize = from;
    assert(body.take(0) =~= Seq::<char>::empty());
    while i < to
        invariant
            from <= i <= to,
            to <= cs@.len(),
            body == cs@.subrange(from as int, to as int),
            all_digits(body),
            digits_value(body) <= usize::MAX,
            acc as int == digits_value(body.take(i - from)),
        decreases to - i,
    {
        let c = cs[i];
        proof {
            let t = body.take(i + 1 - from);
            assert(t.drop_last() =~= body.take(i - from));
            assert(t.last() == c);
            crate::text::lemma_digits_value_prefix(body, i + 1 - from);
            assert(is_digit(body[i - from]));
        }
        acc = acc * 10 + ((c as u32) - ('0' as u32)) as usize;
        i += 1;
    }
    assert(body.take(to - from) =~= body);
    acc
}

/// The bracketed index placeholder right after the `%` at `i`.
fn indexed(cs: &[char], i: usize, letter: char, required: bool) -> (r: Option<(usize, usize)>)
    requires
        i < cs@.len(),
        template_readable(cs@, letter),
    ensures
        match r {
            Some((len, n)) => indexed_at(cs@, i as int, letter, required) == Some((len as int, n as int)),
            None => indexed_at(cs@, i as int, letter, required) is None,
        },
{
    let n = cs.len();
    let k: usize = if required { 3 } else { 2 };
    if n - i <= k {
        return None;
    }
    let open = i + k;
    if cs[i + 1] != letter || (required && cs[i + 2] != '?') || cs[open] != '[' {
        return None;
    }
    let digits = open + 1;
    let run = count_digits(cs, digits);
    if run == 0 || digits + run >= cs.len() || cs[digits + run] != ']' {
        return None;
    }
    proof {
        assert(match indexed_at(cs@, i as int, letter, required) {
            Some((_, n)) => n <= usize::MAX,
            None => true,
        });
    }
    let n = digits_number(cs, digits, digits + run);
    Some((digits + run + 1 - i, n))
}

/// The placeholder starting at `i`, if any.
fn token(cs: &[char], i: usize, letter: char, allow_t: bool) -> (r: Option<Capture>)
    requires
        i < cs@.len(),
        template_readable(cs@, letter),
    ensures
        match r {
            Some(c) => token_at(cs@, i as int, letter, allow_t) == Some(
                CaptureV { start: c.start as int, end: c.end as int, feature_type: c.feature_type, required: c.required },
            ) && c.end <= cs@.len(),
            None => token_at(cs@, i as int, letter, allow_t) is None,
        },
{
    let n = cs.len();
    if n - i <= 1 || cs[i] != '%' {
        return None;
    }
    if allow_t && cs[i + 1] == 't' {
        return Some(Capture { start: i, end: i + 2, feature_type: FeatureType::CharacterType, required: false });
    }
    match indexed(cs, i, letter, false) {
        Some((len, n)) => Some(Capture { start: i, end: i + len, feature_type: FeatureType::Index(n), required: false }),
        None => match indexed(cs, i, letter, true) {
            Some((len, n)) => Some(
                Capture { start: i, end: i + len, feature_type: FeatureType::Index(n), required: true },
            ),
            None => None,
        },
    }
}

/// Parses a template: its placeholders `%t` (when `allow_t`),
/// `%<letter>[n]` and `%<letter>?[n]`, found left to right.
pub fn parse_template(t: &str, letter: char, allow_t: bool) -> (r: ParsedTemplate)
    requires
        template_readable(t@, letter),
    ensures
        parsed_as(r, t@, letter, allow_t),
{
    let cs = chars_of(t);
    let mut captures: Vec<Capture> = Vec::new();
    let mut required: Vec<usize> = Vec::new();
    let ghost all = captures_from(t@, 0, letter, allow_t);
    let mut i: usize = 0;
    assert(captures_view(captures@) + captures_from(t@, 0, letter, allow_t) =~= all);
    while i < cs.len()
        invariant
            cs@ == t@,
            template_readable(t@, letter),
            i <= cs@.len(),
            all == captures_from(t@, 0, letter, allow_t),
            captures_view(captures@) + captures_from(t@, i as int, letter, allow_t) == all,
            required@ == required_of(captures_view(captures@)),
        decreases cs@.len() - i,
    {
        match token(cs.as_slice(), i, letter, allow_t) {
            Some(c) => {
                let ghost before = captures@;
                captures.push(c);
                if c.required {
                    match c.feature_type {
                        FeatureType::Index(n) => {
                            required.push(n);
                        },
                        FeatureType::CharacterType => {},
                    }
                }
                proof {
                    let cv = CaptureV { start: c.start as int, end: c.end as int, feature_type: c.feature_type, required: c.required };
                    assert(captures_view(captures@) =~= captures_view(before).push(cv));
                    assert(captures_view(captures@).drop_last() =~= captures_view(before));
                    assert(captures_view(captures@) + captures_from(t@, c.end as int, letter, allow_t) =~= captures_view(
                        before,
                    ) + (seq![cv] + captures_from(t@, c.end as int, letter, allow_t)));
                }
                i = c.end;
            },
            None => {
                i += 1;
            },
        }
    }
    assert(captures_view(captures@) + Seq::<CaptureV>::empty() =~= captures_view(captures@));
    ParsedTemplate { raw_template: t.to_owned(), required_indices: required, captures }
}

} // verus!

verus! {

/// Whether the placeholders lie in order inside `t`, from position `pos` on.
pub open spec fn captures_ordered(t: Seq<char>, caps: Seq<CaptureV>, pos: int) -> bool
    decreases caps.len(),
{
    if caps.len() == 0 {
        0 <= pos <= t.len()
    } else {
        0 <= pos <= caps[0].start <= caps[0].end && captures_ordered(t, caps.drop_first(), caps[0].end)
    }
}

/// The placeholders found from `i` on lie in order inside the template.
pub proof fn lemma_captures_ordered(t: Seq<char>, i: int, letter: char, allow_t: bool)
    requires
        0 <= i <= t.len(),
    ensures
        captures_ordered(t, captures_from(t, i, letter, allow_t), i),
    decreases t.len() - i,
{
    if i < t.len() {
        match token_at(t, i, letter, allow_t) {
            Some(c) => {
                if c.end > i {
                    lemma_token_end(t, i, letter, allow_t);
                    lemma_captures_ordered(t, c.end, letter, allow_t);
                    let caps = seq![c] + captures_from(t, c.end, letter, allow_t);
                    assert(caps.drop_first() =~= captures_from(t, c.end, letter, allow_t));
                }
            },
            None => {
                lemma_captures_ordered(t, i + 1, letter, allow_t);
                lemma_captures_ordered_weaken(t, captures_from(t, i + 1, letter, allow_t), i, i + 1);
            },
        }
    } else {
        assert(captures_from(t, i, letter, allow_t) =~= Seq::<CaptureV>::empty());
    }
}

proof fn lemma_token_end(t: Seq<char>, i: int, letter: char, allow_t: bool)
    ensures
        token_at(t, i, letter, allow_t) matches Some(c) ==> c.start == i && c.end <= t.len(),
{
}

proof fn lemma_captures_ordered_weaken(t: Seq<char>, caps: Seq<CaptureV>, a: int, b: int)
    requires
        0 <= a <= b,
        captures_ordered(t, caps, b),
    ensures
        captures_ordered(t, caps, a),
{
}

/// Whether a feature is undefined: `*` or empty.
pub open spec fn undefined_feature(f: Seq<char>) -> bool {
    f == seq!['*'] || f.len() == 0
}

/// What a placeholder becomes: its feature (`*` when the features do not
/// reach it), or the character category id in decimal.
pub open spec fn replacement(ft: FeatureType, features: Seq<Seq<char>>, cate_id: u32) -> Seq<char> {
    match ft {
        FeatureType::Index(i) => if (i as int) < features.len() {
            features[i as int]
        } else {
            seq!['*']
        },
        FeatureType::CharacterType => crate::text::decimal_spec(cate_id as nat),
    }
}

/// The template from position `pos` on with placeholders `k..` replaced.
pub open spec fn render_from(
    t: Seq<char>,
    caps: Seq<CaptureV>,
    k: int,
    pos: int,
    features: Seq<Seq<char>>,
    cate_id: u32,
) -> Seq<char>
    decreases caps.len() - k,
{
    if k < 0 || k >= caps.len() {
        t.subrange(pos, t.len() as int)
    } else {
        t.subrange(pos, caps[k].start) + replacement(caps[k].feature_type, features, cate_id) + render_from(
            t,
            caps,
            k + 1,
            caps[k].end,
            features,
            cate_id,
        )
    }
}

/// The feature string of a template: `None` when a required feature is
/// missing or undefined, otherwise the template with its placeholders
/// replaced.
pub open spec fn apply_spec(p: ParsedTemplate, features: Seq<Seq<char>>, cate_id: u32) -> Option<Seq<char>> {
    if forall|k: int|
        0 <= k < p.required_indices@.len() ==> (#[trigger] p.required_indices@[k] as int) < features.len()
            && !undefined_feature(features[p.required_indices@[k] as int]) {
        Some(render_from(p.raw_template@, captures_view(p.captures@), 0, 0, features, cate_id))
    } else {
        None
    }
}

/// Whether the template's placeholders lie in order inside it.
pub open spec fn template_wf(p: ParsedTemplate) -> bool {
    captures_ordered(p.raw_template@, captures_view(p.captures@), 0)
}

proof fn lemma_ordered_skip(t: Seq<char>, caps: Seq<CaptureV>, pos: int, k: int)
    requires
        captures_ordered(t, caps, pos),
        0 <= k <= caps.len(),
    ensures
        captures_ordered(t, caps.skip(k), if k == 0 { pos } else { caps[k - 1].end }),
        k < caps.len() ==> (if k == 0 { pos } else { caps[k - 1].end }) <= caps[k].start <= caps[k].end,
    decreases k,
{
    if k > 0 {
        lemma_ordered_skip(t, caps.drop_first(), caps[0].end, k - 1);
        assert(caps.drop_first().skip(k - 1) =~= caps.skip(k));
        if k - 1 > 0 {
            assert(caps.drop_first()[k - 2] == caps[k - 1]);
        }
        if k < caps.len() {
            assert(caps.drop_first()[k - 1] == caps[k]);
        }
    } else {
        assert(caps.skip(0) =~= caps);
    }
}

proof fn lemma_ordered_bounds(t: Seq<char>, caps: Seq<CaptureV>, pos: int)
    requires
        captures_ordered(t, caps, pos),
    ensures
        0 <= pos <= t.len(),
        forall|k: int| 0 <= k < caps.len() ==> pos <= #[trigger] caps[k].start <= caps[k].end <= t.len(),
    decreases caps.len(),
{
    if caps.len() > 0 {
        lemma_ordered_bounds(t, caps.drop_first(), caps[0].end);
        assert forall|k: int| 0 <= k < caps.len() implies pos <= #[trigger] caps[k].start <= caps[k].end <= t.len() by {
            if k > 0 {
                assert(caps[k] == caps.drop_first()[k - 1]);
            } else if caps.len() > 1 {
                assert(caps.drop_first()[0] == caps[1]);
            }
        }
    }
}

fn append_chars(out: &mut Vec<char>, cs: &[char], from: usize, to: usize)
    requires
        from <= to <= cs@.len(),
    ensures
        final(out)@ == old(out)@ + cs@.subrange(from as int, to as int),
{
    let mut i = from;
    while i < to
        invariant
            from <= i <= to,
            to <= cs@.len(),
            out@ == old(out)@ + cs@.subrange(from as int, i as int),
        decreases to - i,
    {
        out.push(cs[i]);
        i += 1;
        assert(out@ =~= old(out)@ + cs@.subrange(from as int, i as int));
    }
}

/// The feature string of a template for these features.
pub fn apply_parsed_template(template: &ParsedTemplate, features: &[String], cate_id: u32) -> (r: Option<String>)
    requires
        template_wf(*template),
    ensures
        match r {
            Some(s) => apply_spec(*template, views_of(features@), cate_id) == Some(s@),
            None => apply_spec(*template, views_of(features@), cate_id) is None,
        },
{
    let ghost fv = views_of(features@);
    let mut j: usize = 0;
    while j < template.required_indices.len()
        invariant
            j <= template.required_indices@.len(),
            fv == views_of(features@),
            forall|k: int|
                0 <= k < j ==> (#[trigger] template.required_indices@[k] as int) < fv.len()
                    && !undefined_feature(fv[template.required_indices@[k] as int]),
        decreases template.required_indices@.len() - j,
    {
        let idx = template.required_indices[j];
        if idx >= features.len() {
            return None;
        }
        let f = features[idx].as_str();
        assert(fv[idx as int] == f@);
        let cs = chars_of(f);
        if cs.len() == 0 || (cs.len() == 1 && cs[0] == '*') {
            proof {
                if cs@.len() == 1 {
                    assert(f@ =~= seq!['*']);
                }
            }
            return None;
        }
        proof {
            if f@ == seq!['*'] {
                assert(cs@.len() == 1 && cs@[0] == '*');
            }
        }
        j += 1;
    }
    let t = chars_of(template.raw_template.as_str());
    let ghost caps = captures_view(template.captures@);
    let ghost goal = render_from(t@, caps, 0, 0, fv, cate_id);
    proof {
        lemma_ordered_bounds(t@, caps, 0);
    }
    let mut out: Vec<char> = Vec::new();
    let mut pos: usize = 0;
    let mut k: usize = 0;
    while k < template.captures.len()
        invariant
            t@ == template.raw_template@,
            caps == captures_view(template.captures@),
            fv == views_of(features@),
            k <= caps.len(),
            captures_ordered(t@, caps, 0),
            pos == (if k == 0 { 0 } else { caps[k - 1].end }),
            pos <= t@.len(),
            forall|q: int| 0 <= q < caps.len() ==> 0 <= #[trigger] caps[q].start <= caps[q].end <= t@.len(),
            out@ + render_from(t@, caps, k as int, pos as int, fv, cate_id) == goal,
            goal == render_from(t@, caps, 0, 0, fv, cate_id),
        decreases caps.len() - k,
    {
        let c = template.captures[k];
        proof {
            lemma_ordered_skip(t@, caps, 0, k as int);
            assert(caps[k as int].start == c.start && caps[k as int].end == c.end);
        }
        let ghost o0 = out@;
        append_chars(&mut out, t.as_slice(), pos, c.start);
        let rep: String = match c.feature_type {
            FeatureType::Index(i) => if i < features.len() {
                assert(fv[i as int] == features@[i as int]@);
                features[i].clone()
            } else {
                let mut star: Vec<char> = Vec::new();
                star.push('*');
                string_from_chars(star.as_slice())
            },
            FeatureType::CharacterType => crate::text::decimal_text(cate_id as usize),
        };
        let rc = chars_of(rep.as_str());
        append_chars(&mut out, rc.as_slice(), 0, rc.len());
        proof {
            assert(rc@.subrange(0, rc@.len() as int) =~= rc@);
            assert(rep@ == replacement(c.feature_type, fv, cate_id));
            assert(out@ + render_from(t@, caps, k + 1, c.end as int, fv, cate_id) =~= o0 + render_from(
                t@,
                caps,
                k as int,
                pos as int,
                fv,
                cate_id,
            ));
        }
        pos = c.end;
        k += 1;
    }
    append_chars(&mut out, t.as_slice(), pos, t.len());
    Some(string_from_chars(out.as_slice()))
}

} // verus!

verus! {

/// The id of feature string `k` among the first `n` entries: the first
/// entry with that string.
pub open spec fn lookup_id(keys: Seq<Seq<char>>, ids: Seq<u32>, k: Seq<char>, n: int) -> Option<u32>
    decreases n,
{
    if n <= 0 {
        None
    } else {
        match lookup_id(keys, ids, k, n - 1) {
            Some(v) => Some(v),
            None => if keys[n - 1] == k {
                Some(ids[n - 1])
            } else {
                None
            },
        }
    }
}

/// Feature strings and their ids.
pub struct FeatureIdMap {
    /// The feature strings, in the order they got their ids.
    pub keys: Vec<String>,
    /// Their ids.
    pub ids: Vec<u32>,
}

/// The ids of the features seen so far and the next id to give.
pub struct IdState {
    pub keys: Seq<Seq<char>>,
    pub ids: Seq<u32>,
    pub next: u32,
}

impl FeatureIdMap {
    /// The state of the map with `next` as the next id.
    pub open spec fn state(&self, next: u32) -> IdState {
        IdState { keys: views_of(self.keys@), ids: self.ids@, next }
    }

    /// The id of `k`, if it has one.
    pub open spec fn get_spec(&self, k: Seq<char>) -> Option<u32> {
        lookup_id(views_of(self.keys@), self.ids@, k, self.keys@.len() as int)
    }

    /// An empty map.
    pub fn new() -> (r: Self)
        ensures
            r.keys@.len() == 0,
            r.ids@.len() == 0,
    {
        FeatureIdMap { keys: Vec::new(), ids: Vec::new() }
    }

    /// The number of feature strings with an id.
    pub fn len(&self) -> (r: usize)
        ensures
            r == self.keys@.len(),
    {
        self.keys.len()
    }

    /// The id of `key`, if it has one.
    pub fn get(&self, key: &str) -> (r: Option<u32>)
        requires
            self.keys@.len() == self.ids@.len(),
        ensures
            r == self.get_spec(key@),
    {
        let mut i: usize = 0;
        while i < self.keys.len()
            invariant
                self.keys@.len() == self.ids@.len(),
                i <= self.keys@.len(),
                lookup_id(views_of(self.keys@), self.ids@, key@, i as int) is None,
            decreases self.keys@.len() - i,
        {
            if str_eq(self.keys[i].as_str(), key) {
                proof {
                    lemma_lookup_first(views_of(self.keys@), self.ids@, key@, i as int, self.keys@.len() as int);
                }
                return Some(self.ids[i]);
            }
            i += 1;
        }
        None
    }
}

proof fn lemma_lookup_first(keys: Seq<Seq<char>>, ids: Seq<u32>, k: Seq<char>, i: int, n: int)
    requires
        0 <= i < n <= keys.len(),
        i < ids.len(),
        lookup_id(keys, ids, k, i) is None,
        keys[i] == k,
    ensures
        lookup_id(keys, ids, k, n) == Some(ids[i]),
    decreases n,
{
    if n > i + 1 {
        lemma_lookup_first(keys, ids, k, i, n - 1);
    }
}

/// The id of `k` in state `st`, and the state after: an unseen string gets
/// the next id.
pub open spec fn assign(st: IdState, k: Seq<char>) -> (IdState, u32) {
    match lookup_id(st.keys, st.ids, k, st.keys.len() as int) {
        Some(id) => (st, id),
        None => (IdState { keys: st.keys.push(k), ids: st.ids.push(st.next), next: (st.next + 1) as u32 }, st.next),
    }
}

/// The ids that applying the templates in order gives, `None` for a
/// template whose feature string is undefined, and the state after.
pub open spec fn extract_spec(
    st: IdState,
    templates: Seq<ParsedTemplate>,
    features: Seq<Seq<char>>,
    cate_id: u32,
) -> (IdState, Seq<Option<u32>>)
    decreases templates.len(),
{
    if templates.len() == 0 {
        (st, Seq::empty())
    } else {
        let (s0, out) = extract_spec(st, templates.drop_last(), features, cate_id);
        match apply_spec(templates.last(), features, cate_id) {
            Some(f) => {
                let (s1, id) = assign(s0, f);
                (s1, out.push(Some(id)))
            },
            None => (s0, out.push(None)),
        }
    }
}

/// The present values, in order.
pub open spec fn somes(s: Seq<Option<u32>>) -> Seq<u32>
    decreases s.len(),
{
    if s.len() == 0 {
        Seq::empty()
    } else {
        match s.last() {
            Some(v) => somes(s.drop_last()).push(v),
            None => somes(s.drop_last()),
        }
    }
}

proof fn lemma_extract_next(st: IdState, templates: Seq<ParsedTemplate>, features: Seq<Seq<char>>, cate_id: u32)
    requires
        st.next as int + templates.len() <= u32::MAX,
    ensures
        st.next <= extract_spec(st, templates, features, cate_id).0.next <= st.next + templates.len(),
    decreases templates.len(),
{
    if templates.len() > 0 {
        lemma_extract_next(st, templates.drop_last(), features, cate_id);
    }
}

/// The id of `k` in a state.
pub open spec fn id_in(st: IdState, k: Seq<char>) -> Option<u32> {
    lookup_id(st.keys, st.ids, k, st.keys.len() as int)
}

/// Whether `s1` holds the entries of `s0` first.
pub open spec fn extends(s0: IdState, s1: IdState) -> bool {
    &&& s0.keys.len() <= s1.keys.len()
    &&& s1.keys.take(s0.keys.len() as int) == s0.keys
    &&& s1.ids.take(s0.ids.len() as int) == s0.ids
}

/// The id of `k` among the first `n` entries depends on those entries alone.
proof fn lemma_lookup_prefix(keys: Seq<Seq<char>>, ids: Seq<u32>, keys2: Seq<Seq<char>>, ids2: Seq<u32>, k: Seq<char>, n: int)
    requires
        0 <= n <= keys.len(),
        n <= keys2.len(),
        n <= ids.len(),
        n <= ids2.len(),
        keys2.take(n) == keys.take(n),
        ids2.take(n) == ids.take(n),
    ensures
        lookup_id(keys2, ids2, k, n) == lookup_id(keys, ids, k, n),
    decreases n,
{
    if n > 0 {
        assert(keys2.take(n - 1) =~= keys.take(n - 1)) by {
            assert(keys2.take(n - 1) =~= keys2.take(n).take(n - 1));
            assert(keys.take(n - 1) =~= keys.take(n).take(n - 1));
        }
        assert(ids2.take(n - 1) =~= ids.take(n - 1)) by {
            assert(ids2.take(n - 1) =~= ids2.take(n).take(n - 1));
            assert(ids.take(n - 1) =~= ids.take(n).take(n - 1));
        }
        assert(keys2[n - 1] == keys2.take(n)[n - 1]);
        assert(keys[n - 1] == keys.take(n)[n - 1]);
        assert(ids2[n - 1] == ids2.take(n)[n - 1]);
        assert(ids[n - 1] == ids.take(n)[n - 1]);
        lemma_lookup_prefix(keys, ids, keys2, ids2, k, n - 1);
    }
}

/// An id found among the first `n` entries is the id among more of them.
proof fn lemma_lookup_grow(keys: Seq<Seq<char>>, ids: Seq<u32>, k: Seq<char>, n: int, m: int)
    requires
        0 <= n <= m,
        lookup_id(keys, ids, k, n) is Some,
    ensures
        lookup_id(keys, ids, k, m) == lookup_id(keys, ids, k, n),
    decreases m - n,
{
    if m > n {
        lemma_lookup_grow(keys, ids, k, n, m - 1);
    }
}

/// A string with an id keeps it in a state that extends the first.
proof fn lemma_extends_keeps(s0: IdState, s1: IdState, k: Seq<char>)
    requires
        s0.keys.len() == s0.ids.len(),
        s1.keys.len() == s1.ids.len(),
        extends(s0, s1),
        id_in(s0, k) is Some,
    ensures
        id_in(s1, k) == id_in(s0, k),
{
    let n = s0.keys.len() as int;
    assert(s0.keys.take(n) =~= s0.keys);
    assert(s0.ids.take(n) =~= s0.ids);
    lemma_lookup_prefix(s0.keys, s0.ids, s1.keys, s1.ids, k, n);
    lemma_lookup_grow(s1.keys, s1.ids, k, n, s1.keys.len() as int);
}

/// Giving a string its id: the state after extends the one before, and
/// gives the string the id handed out.
proof fn lemma_assign(st: IdState, k: Seq<char>)
    requires
        st.keys.len() == st.ids.len(),
    ensures
        assign(st, k).0.keys.len() == assign(st, k).0.ids.len(),
        extends(st, assign(st, k).0),
        id_in(assign(st, k).0, k) == Some(assign(st, k).1),
{
    let (s1, id) = assign(st, k);
    let n = st.keys.len() as int;
    if id_in(st, k) is None {
        assert(s1.keys.take(n) =~= st.keys);
        assert(s1.ids.take(n) =~= st.ids);
        assert(st.keys.take(n) =~= st.keys);
        assert(st.ids.take(n) =~= st.ids);
        lemma_lookup_prefix(st.keys, st.ids, s1.keys, s1.ids, k, n);
    } else {
        assert(s1.keys.take(n) =~= st.keys);
        assert(s1.ids.take(n) =~= st.ids);
    }
}

/// What applying templates in order gives: an id for each template whose
/// feature string is defined and `None` for the others; each id is the one
/// the state after gives that string, so equal strings get equal ids; that
/// state holds the entries of the state before first, so a string that had
/// an id keeps it, and the strings new to it get the next ids in the order
/// they first come.
pub proof fn lemma_extract_ids(st: IdState, templates: Seq<ParsedTemplate>, features: Seq<Seq<char>>, cate_id: u32)
    requires
        st.keys.len() == st.ids.len(),
        st.next as int + templates.len() <= u32::MAX,
    ensures
        ({
            let (s1, out) = extract_spec(st, templates, features, cate_id);
            &&& out.len() == templates.len()
            &&& s1.keys.len() - st.keys.len() == s1.next - st.next
            &&& forall|t: int|
                st.keys.len() <= t < s1.keys.len() ==> #[trigger] s1.ids[t] == st.next + (t - st.keys.len())
            &&& s1.keys.len() == s1.ids.len()
            &&& extends(st, s1)
            &&& forall|i: int|
                0 <= i < templates.len() ==> (#[trigger] out[i] is None <==> apply_spec(
                    templates[i],
                    features,
                    cate_id,
                ) is None)
            &&& forall|i: int|
                0 <= i < templates.len() && apply_spec(templates[i], features, cate_id) is Some ==> #[trigger] out[i]
                    == id_in(s1, apply_spec(templates[i], features, cate_id)->0)
            &&& forall|k: Seq<char>| #[trigger] id_in(st, k) is Some ==> id_in(s1, k) == id_in(st, k)
        }),
    decreases templates.len(),
{
    let (s1, out) = extract_spec(st, templates, features, cate_id);
    if templates.len() == 0 {
        assert(st.keys.take(st.keys.len() as int) =~= st.keys);
        assert(st.ids.take(st.ids.len() as int) =~= st.ids);
    } else {
        let prev = templates.drop_last();
        lemma_extract_ids(st, prev, features, cate_id);
        lemma_extract_next(st, prev, features, cate_id);
        let (s0, out0) = extract_spec(st, prev, features, cate_id);
        let n = templates.len() - 1;
        assert forall|i: int| 0 <= i < n implies #[trigger] templates[i] == prev[i] by {}
        match apply_spec(templates.last(), features, cate_id) {
            Some(f) => {
                lemma_assign(s0, f);
                assert(s1.keys.len() >= s0.keys.len());
                assert(s1.keys.take(st.keys.len() as int) =~= s0.keys.take(st.keys.len() as int)) by {
                    assert(s1.keys.take(st.keys.len() as int) =~= s1.keys.take(s0.keys.len() as int).take(
                        st.keys.len() as int,
                    ));
                }
                assert(s1.ids.take(st.ids.len() as int) =~= s0.ids.take(st.ids.len() as int)) by {
                    assert(s1.ids.take(st.ids.len() as int) =~= s1.ids.take(s0.ids.len() as int).take(
                        st.ids.len() as int,
                    ));
                }
                assert forall|i: int|
                    0 <= i < templates.len() && apply_spec(templates[i], features, cate_id) is Some implies #[trigger] out[i]
                    == id_in(s1, apply_spec(templates[i], features, cate_id)->0) by {
                    if i < n {
                        assert(out[i] == out0[i]);
                        let g = apply_spec(templates[i], features, cate_id)->0;
                        assert(out0[i] is Some);
                        lemma_extends_keeps(s0, s1, g);
                    }
                }
                assert forall|k: Seq<char>| #[trigger] id_in(st, k) is Some implies id_in(s1, k) == id_in(st, k) by {
                    lemma_extends_keeps(s0, s1, k);
                }
            },
            None => {},
        }
    }
}

/// Gives the feature strings of the templates their ids, in order.
fn extract_ids(
    map: &mut FeatureIdMap,
    next: &mut u32,
    templates: &Vec<ParsedTemplate>,
    features: &[String],
    cate_id: u32,
) -> (r: Vec<Option<u32>>)
    requires
        old(map).keys@.len() == old(map).ids@.len(),
        *old(next) as int + templates@.len() <= u32::MAX,
        forall|k: int| 0 <= k < templates@.len() ==> template_wf(#[trigger] templates@[k]),
    ensures
        final(map).keys@.len() == final(map).ids@.len(),
        (final(map).state(*final(next)), r@) == extract_spec(
            old(map).state(*old(next)),
            templates@,
            views_of(features@),
            cate_id,
        ),
{
    let ghost st0 = map.state(*next);
    let ghost fv = views_of(features@);
    let mut out: Vec<Option<u32>> = Vec::new();
    let mut k: usize = 0;
    assert(templates@.take(0) =~= Seq::<ParsedTemplate>::empty());
    while k < templates.len()
        invariant
            k <= templates@.len(),
            map.keys@.len() == map.ids@.len(),
            st0.next as int + templates@.len() <= u32::MAX,
            fv == views_of(features@),
            forall|q: int| 0 <= q < templates@.len() ==> template_wf(#[trigger] templates@[q]),
            (map.state(*next), out@) == extract_spec(st0, templates@.take(k as int), fv, cate_id),
        decreases templates@.len() - k,
    {
        let ghost t = templates@.take(k + 1);
        assert(t.drop_last() =~= templates@.take(k as int));
        proof {
            lemma_extract_next(st0, templates@.take(k as int), fv, cate_id);
        }
        assert(template_wf(templates@[k as int]));
        match apply_parsed_template(&templates[k], features, cate_id) {
            Some(f) => {
                let id = match map.get(f.as_str()) {
                    Some(id) => id,
                    None => {
                        let id = *next;
                        let ghost kb = map.keys@;
                        map.keys.push(f);
                        map.ids.push(id);
                        *next = id + 1;
                        assert(views_of(map.keys@) =~= views_of(kb).push(f@));
                        id
                    },
                };
                out.push(Some(id));
            },
            None => {
                out.push(None);
            },
        }
        k += 1;
    }
    assert(templates@.take(templates@.len() as int) =~= templates@);
    out
}

} // verus!

verus! {

/// Extracts feature ids from the features of a word by unigram, left and
/// right templates, giving each new feature string the next id (ids start
/// at 1).
pub struct FeatureExtractor {
    /// The unigram templates (`%F[n]`, `%F?[n]`, `%t`).
    pub unigram_templates: Vec<ParsedTemplate>,
    /// The left context templates (`%L[n]`, `%L?[n]`).
    pub left_templates: Vec<ParsedTemplate>,
    /// The right context templates (`%R[n]`, `%R?[n]`).
    pub right_templates: Vec<ParsedTemplate>,
    /// The ids of the unigram feature strings.
    pub unigram_feature_ids: FeatureIdMap,
    /// The ids of the left feature strings.
    pub left_feature_ids: FeatureIdMap,
    /// The ids of the right feature strings.
    pub right_feature_ids: FeatureIdMap,
    /// The next unigram id.
    pub unigram_next_id: u32,
    /// The next left id.
    pub left_next_id: u32,
    /// The next right id.
    pub right_next_id: u32,
}

/// Whether every template of `ts` has its placeholders in order.
pub open spec fn templates_wf(ts: Seq<ParsedTemplate>) -> bool {
    forall|k: int| 0 <= k < ts.len() ==> template_wf(#[trigger] ts[k])
}

impl FeatureExtractor {
    /// Whether the extractor is well formed.
    pub open spec fn wf(&self) -> bool {
        &&& templates_wf(self.unigram_templates@)
        &&& templates_wf(self.left_templates@)
        &&& templates_wf(self.right_templates@)
        &&& self.unigram_feature_ids.keys@.len() == self.unigram_feature_ids.ids@.len()
        &&& self.left_feature_ids.keys@.len() == self.left_feature_ids.ids@.len()
        &&& self.right_feature_ids.keys@.len() == self.right_feature_ids.ids@.len()
    }

    /// An extractor with no templates.
    pub fn new() -> (r: Self)
        ensures
            r.wf(),
            r.unigram_templates@.len() == 0,
            r.left_templates@.len() == 0,
            r.right_templates@.len() == 0,
            r.unigram_feature_ids.keys@.len() == 0,
            r.left_feature_ids.keys@.len() == 0,
            r.right_feature_ids.keys@.len() == 0,
            r.unigram_next_id == 0 && r.left_next_id == 0 && r.right_next_id == 0,
    {
        FeatureExtractor {
            unigram_templates: Vec::new(),
            left_templates: Vec::new(),
            right_templates: Vec::new(),
            unigram_feature_ids: FeatureIdMap::new(),
            left_feature_ids: FeatureIdMap::new(),
            right_feature_ids: FeatureIdMap::new(),
            unigram_next_id: 0,
            left_next_id: 0,
            right_next_id: 0,
        }
    }

    /// An extractor from unigram templates and (left, right) bigram
    /// templates, with no ids given yet and 1 as the next id of each kind.
    pub fn from_templates(unigram_templates: &[String], bigram_templates: &[(String, String)]) -> (r: Self)
        requires
            forall|k: int| 0 <= k < unigram_templates@.len() ==> template_readable(#[trigger] unigram_templates@[k]@, 'F'),
            forall|k: int| 0 <= k < bigram_templates@.len() ==> template_readable(#[trigger] bigram_templates@[k].0@, 'L')
                && template_readable(bigram_templates@[k].1@, 'R'),
        ensures
            r.wf(),
            r.unigram_templates@.len() == unigram_templates@.len(),
            forall|k: int|
                0 <= k < unigram_templates@.len() ==> parsed_as(
                    #[trigger] r.unigram_templates@[k],
                    unigram_templates@[k]@,
                    'F',
                    true,
                ),
            r.left_templates@.len() == bigram_templates@.len(),
            r.right_templates@.len() == bigram_templates@.len(),
            forall|k: int|
                0 <= k < bigram_templates@.len() ==> parsed_as(
                    #[trigger] r.left_templates@[k],
                    bigram_templates@[k].0@,
                    'L',
                    false,
                ) && parsed_as(r.right_templates@[k], bigram_templates@[k].1@, 'R', false),
            r.unigram_feature_ids.keys@.len() == 0,
            r.left_feature_ids.keys@.len() == 0,
            r.right_feature_ids.keys@.len() == 0,
            r.unigram_next_id == 1 && r.left_next_id == 1 && r.right_next_id == 1,
    {
        let mut uni: Vec<ParsedTemplate> = Vec::new();
        let mut i: usize = 0;
        while i < unigram_templates.len()
            invariant
                i <= unigram_templates@.len(),
                forall|k: int| 0 <= k < unigram_templates@.len() ==> template_readable(#[trigger] unigram_templates@[k]@, 'F'),
                uni@.len() == i,
                forall|k: int| 0 <= k < i ==> parsed_as(#[trigger] uni@[k], unigram_templates@[k]@, 'F', true),
                templates_wf(uni@),
            decreases unigram_templates@.len() - i,
        {
            assert(template_readable(unigram_templates@[i as int]@, 'F'));
            let p = parse_template(unigram_templates[i].as_str(), 'F', true);
            proof {
                lemma_captures_ordered(unigram_templates@[i as int]@, 0, 'F', true);
            }
            uni.push(p);
            i += 1;
        }
        let mut left: Vec<ParsedTemplate> = Vec::new();
        let mut right: Vec<ParsedTemplate> = Vec::new();
        let mut i: usize = 0;
        while i < bigram_templates.len()
            invariant
                i <= bigram_templates@.len(),
                forall|k: int| 0 <= k < bigram_templates@.len() ==> template_readable(#[trigger] bigram_templates@[k].0@, 'L')
                    && template_readable(bigram_templates@[k].1@, 'R'),
                left@.len() == i,
                right@.len() == i,
                forall|k: int|
                    0 <= k < i ==> parsed_as(#[trigger] left@[k], bigram_templates@[k].0@, 'L', false) && parsed_as(
                        right@[k],
                        bigram_templates@[k].1@,
                        'R',
                        false,
                    ),
                templates_wf(left@),
                templates_wf(right@),
            decreases bigram_templates@.len() - i,
        {
            assert(template_readable(bigram_templates@[i as int].0@, 'L'));
            let l = parse_template(bigram_templates[i].0.as_str(), 'L', false);
            let r = parse_template(bigram_templates[i].1.as_str(), 'R', false);
            proof {
                lemma_captures_ordered(bigram_templates@[i as int].0@, 0, 'L', false);
                lemma_captures_ordered(bigram_templates@[i as int].1@, 0, 'R', false);
            }
            left.push(l);
            right.push(r);
            i += 1;
        }
        FeatureExtractor {
            unigram_templates: uni,
            left_templates: left,
            right_templates: right,
            unigram_feature_ids: FeatureIdMap::new(),
            left_feature_ids: FeatureIdMap::new(),
            right_feature_ids: FeatureIdMap::new(),
            unigram_next_id: 1,
            left_next_id: 1,
            right_next_id: 1,
        }
    }

    /// The unigram feature ids of a word: for each unigram template whose
    /// feature string is defined, in order, the id of that string (a new
    /// string getting the next id).
    pub fn extract_unigram_feature_ids(&mut self, features: &[String], cate_id: u32) -> (r: Vec<u32>)
        requires
            old(self).wf(),
            old(self).unigram_next_id as int + old(self).unigram_templates@.len() <= u32::MAX,
        ensures
            final(self).wf(),
            ({
                let (st, out) = extract_spec(
                    old(self).unigram_feature_ids.state(old(self).unigram_next_id),
                    old(self).unigram_templates@,
                    views_of(features@),
                    cate_id,
                );
                &&& final(self).unigram_feature_ids.state(final(self).unigram_next_id) == st
                &&& r@ == somes(out)
            }),
            final(self).unigram_templates == old(self).unigram_templates,
            final(self).left_templates == old(self).left_templates,
            final(self).right_templates == old(self).right_templates,
            final(self).left_feature_ids == old(self).left_feature_ids,
            final(self).right_feature_ids == old(self).right_feature_ids,
            final(self).left_next_id == old(self).left_next_id,
            final(self).right_next_id == old(self).right_next_id,
    {
        let ids = extract_ids(
            &mut self.unigram_feature_ids,
            &mut self.unigram_next_id,
            &self.unigram_templates,
            features,
            cate_id,
        );
        let mut out: Vec<u32> = Vec::new();
        let mut k: usize = 0;
        assert(ids@.take(0) =~= Seq::<Option<u32>>::empty());
        while k < ids.len()
            invariant
                k <= ids@.len(),
                out@ == somes(ids@.take(k as int)),
            decreases ids@.len() - k,
        {
            let ghost t = ids@.take(k + 1);
            assert(t.drop_last() =~= ids@.take(k as int));
            match ids[k] {
                Some(v) => out.push(v),
                None => {},
            }
            k += 1;
        }
        assert(ids@.take(ids@.len() as int) =~= ids@);
        out
    }

    /// The left feature ids of a word: per left template, in order, the id
    /// of its feature string, `None` when that is undefined.
    pub fn extract_left_feature_ids(&mut self, features: &[String]) -> (r: Vec<Option<u32>>)
        requires
            old(self).wf(),
            old(self).left_next_id as int + old(self).left_templates@.len() <= u32::MAX,
        ensures
            final(self).wf(),
            (final(self).left_feature_ids.state(final(self).left_next_id), r@) == extract_spec(
                old(self).left_feature_ids.state(old(self).left_next_id),
                old(self).left_templates@,
                views_of(features@),
                0,
            ),
            final(self).unigram_templates == old(self).unigram_templates,
            final(self).left_templates == old(self).left_templates,
            final(self).right_templates == old(self).right_templates,
            final(self).unigram_feature_ids == old(self).unigram_feature_ids,
            final(self).right_feature_ids == old(self).right_feature_ids,
            final(self).unigram_next_id == old(self).unigram_next_id,
            final(self).right_next_id == old(self).right_next_id,
    {
        extract_ids(&mut self.left_feature_ids, &mut self.left_next_id, &self.left_templates, features, 0)
    }

    /// The right feature ids of a word: per right template, in order, the id
    /// of its feature string, `None` when that is undefined.
    pub fn extract_right_feature_ids(&mut self, features: &[String]) -> (r: Vec<Option<u32>>)
        requires
            old(self).wf(),
            old(self).right_next_id as int + old(self).right_templates@.len() <= u32::MAX,
        ensures
            final(self).wf(),
            (final(self).right_feature_ids.state(final(self).right_next_id), r@) == extract_spec(
                old(self).right_feature_ids.state(old(self).right_next_id),
                old(self).right_templates@,
                views_of(features@),
                0,
            ),
            final(self).unigram_templates == old(self).unigram_templates,
            final(self).left_templates == old(self).left_templates,
            final(self).right_templates == old(self).right_templates,
            final(self).unigram_feature_ids == old(self).unigram_feature_ids,
            final(self).left_feature_ids == old(self).left_feature_ids,
            final(self).unigram_next_id == old(self).unigram_next_id,
            final(self).left_next_id == old(self).left_next_id,
    {
        extract_ids(&mut self.right_feature_ids, &mut self.right_next_id, &self.right_templates, features, 0)
    }
}

} // verus!
