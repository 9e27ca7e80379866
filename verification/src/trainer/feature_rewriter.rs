//! Rewriting of feature strings by pattern rules, kept in a prefix trie.
use vstd::prelude::*;
use crate::text::{views_of, split_seq, chars_of, string_from_chars, split_on, str_eq, all_digits, digits_value};

verus! {

/// What a pattern element matches.
pub enum Pattern {
    /// Any feature.
    Any,
    /// Exactly this feature.
    Exact(String),
    /// Any of these features.
    Multiple(Vec<String>),
}

/// A pattern element as a value: the set form of `Multiple` makes two
/// patterns with the same alternatives equal.
pub enum PatternV {
    Any,
    Exact(Seq<char>),
    Multiple(Set<Seq<char>>),
}

impl View for Pattern {
    type V = PatternV;

    open spec fn view(&self) -> PatternV {
        match self {
            Pattern::Any => PatternV::Any,
            Pattern::Exact(s) => PatternV::Exact(s@),
            Pattern::Multiple(v) => PatternV::Multiple(views_of(v@).to_set()),
        }
    }
}

/// One element of a rewrite.
pub enum Rewrite {
    /// The feature at this position of the input (0-based).
    Reference(usize),
    /// This text.
    Text(String),
}

/// A rewrite element as a value.
pub enum RewriteV {
    Reference(usize),
    Text(Seq<char>),
}

impl View for Rewrite {
    type V = RewriteV;

    open spec fn view(&self) -> RewriteV {
        match self {
            Rewrite::Reference(i) => RewriteV::Reference(*i),
            Rewrite::Text(s) => RewriteV::Text(s@),
        }
    }
}

/// A transition of the trie.
pub struct Edge {
    /// What the next feature must match.
    pub pattern: Pattern,
    /// The node the transition leads to.
    pub target: usize,
}

/// What a node of the trie does, in order.
pub enum Action {
    /// Goes on to another node when the next feature matches.
    Transition(Edge),
    /// Ends the match with this rewrite; the number says in which order the
    /// rule was registered (0 for the first).
    Rewrite(Vec<Rewrite>, usize),
}

/// An action as a value.
pub enum ActionV {
    Transition(PatternV, usize),
    Rewrite(Seq<RewriteV>, usize),
}

impl View for Action {
    type V = ActionV;

    open spec fn view(&self) -> ActionV {
        match self {
            Action::Transition(e) => ActionV::Transition(e.pattern@, e.target),
            Action::Rewrite(v, id) => ActionV::Rewrite(v@.map_values(|r: Rewrite| r@), *id),
        }
    }
}

/// A node of the trie.
pub struct Node {
    /// Its actions, tried in order.
    pub actions: Vec<Action>,
}

/// The actions of a node, as values.
pub open spec fn actions_view(actions: Seq<Action>) -> Seq<ActionV> {
    actions.map_values(|a: Action| a@)
}

/// The nodes of a trie, as values.
pub open spec fn nodes_view(nodes: Seq<Node>) -> Seq<Seq<ActionV>> {
    nodes.map_values(|n: Node| actions_view(n.actions@))
}

/// Whether a trie is well formed: it has a root, and every transition leads
/// to a node of the trie.
pub open spec fn trie_wf(nodes: Seq<Seq<ActionV>>) -> bool {
    &&& nodes.len() >= 1
    &&& forall|n: int, i: int|
        0 <= n < nodes.len() && 0 <= i < nodes[n].len() ==> match #[trigger] nodes[n][i] {
            ActionV::Transition(_, t) => t < nodes.len(),
            ActionV::Rewrite(_, _) => true,
        }
}

/// Whether pattern `p` matches feature `f`.
pub open spec fn pattern_matches(p: PatternV, f: Seq<char>) -> bool {
    match p {
        PatternV::Any => true,
        PatternV::Exact(s) => s == f,
        PatternV::Multiple(s) => s.contains(f),
    }
}

/// The features a rewrite yields: a reference to a missing feature yields
/// an empty one.
pub open spec fn apply_rewrite(rule: Seq<RewriteV>, features: Seq<Seq<char>>) -> Seq<Seq<char>> {
    rule.map_values(
        |r: RewriteV|
            match r {
                RewriteV::Reference(i) => if (i as int) < features.len() {
                    features[i as int]
                } else {
                    Seq::empty()
                },
                RewriteV::Text(t) => t,
            },
    )
}

/// The earlier registered of two candidate rules (number and rewrite).
pub open spec fn earlier(a: Option<(int, Seq<RewriteV>)>, b: Option<(int, Seq<RewriteV>)>) -> Option<
    (int, Seq<RewriteV>),
> {
    match (a, b) {
        (None, _) => b,
        (_, None) => a,
        (Some(x), Some(y)) => if x.0 <= y.0 {
            a
        } else {
            b
        },
    }
}

/// The earliest registered rule that matches, among those reached from
/// action `i` of node `node` on with `depth` features consumed: a rewrite
/// action is a rule that matches; a transition whose pattern matches the
/// next feature leads on to the rules behind it.
pub open spec fn best_from(
    nodes: Seq<Seq<ActionV>>,
    node: int,
    i: int,
    depth: int,
    features: Seq<Seq<char>>,
) -> Option<(int, Seq<RewriteV>)>
    decreases features.len() - depth, nodes[node].len() - i,
{
    if depth < 0 || depth > features.len() || node < 0 || node >= nodes.len() || i < 0 || i >= nodes[node].len() {
        None
    } else {
        let here = match nodes[node][i] {
            ActionV::Rewrite(rule, id) => Some((id as int, rule)),
            ActionV::Transition(p, t) => if depth < features.len() && pattern_matches(p, features[depth]) {
                best_from(nodes, t as int, 0, depth + 1, features)
            } else {
                None
            },
        };
        earlier(here, best_from(nodes, node, i + 1, depth, features))
    }
}

/// The rewrite of `features` by the trie: of the rules whose patterns match
/// the leading features, the one registered first is applied.
pub open spec fn rewrite_spec(nodes: Seq<Seq<ActionV>>, features: Seq<Seq<char>>) -> Option<Seq<Seq<char>>> {
    match best_from(nodes, 0, 0, 0, features) {
        Some((_, rule)) => Some(apply_rewrite(rule, features)),
        None => None,
    }
}

/// Whether `r` (a rule number, a node and an action) locates the candidate
/// `g`: the action is the rewrite of `g`, under its number.
pub open spec fn located(
    nodes: Seq<Seq<ActionV>>,
    r: Option<(usize, usize, usize)>,
    g: Option<(int, Seq<RewriteV>)>,
) -> bool {
    match r {
        Some((id, n, a)) => g matches Some((gid, rule)) && gid == id && 0 <= n < nodes.len() && 0 <= a
            < nodes[n as int].len() && nodes[n as int][a as int] == ActionV::Rewrite(rule, id),
        None => g is None,
    }
}

/// The pattern element that the text `p` stands for: `*` any feature,
/// `(A|B|C)` any of the alternatives, anything else exactly itself.
pub open spec fn pattern_of(p: Seq<char>) -> PatternV {
    if p == seq!['*'] {
        PatternV::Any
    } else if p.len() >= 2 && p[0] == '(' && p[p.len() - 1] == ')' {
        PatternV::Multiple(split_seq(p.subrange(1, p.len() - 1), '|').to_set())
    } else {
        PatternV::Exact(p)
    }
}

/// The position that a rewrite element `$n` refers to, as written (`n`).
pub open spec fn reference_number(p: Seq<char>) -> Option<int> {
    if p.len() >= 2 && p[0] == '$' && all_digits(p.drop_first()) {
        Some(digits_value(p.drop_first()))
    } else {
        None
    }
}

/// Whether a rewrite element can be read: a reference is `$1` or more and
/// fits `usize`.
pub open spec fn rewrite_readable(p: Seq<char>) -> bool {
    match reference_number(p) {
        Some(n) => 1 <= n <= usize::MAX,
        None => true,
    }
}

/// The rewrite element that the text `p` stands for: `$n` the `n`-th
/// feature, anything else itself.
pub open spec fn rewrite_of(p: Seq<char>) -> RewriteV {
    match reference_number(p) {
        Some(n) => RewriteV::Reference((n - 1) as usize),
        None => RewriteV::Text(p),
    }
}

/// The first action of `actions` that is a transition on pattern `p`.
pub open spec fn find_transition(actions: Seq<ActionV>, p: PatternV, k: int) -> Option<int>
    decreases actions.len() - k,
{
    if k < 0 || k >= actions.len() {
        None
    } else if actions[k] matches ActionV::Transition(q, _) && q == p {
        Some(k)
    } else {
        find_transition(actions, p, k + 1)
    }
}

/// The trie after adding the rule with pattern `pats` (from node `cursor`
/// on) and rewrite `rw`: an existing transition on the same pattern is
/// followed, otherwise a new node is added behind a new transition; the
/// rewrite, numbered `id`, goes last among the actions of the node reached.
pub open spec fn add_path(
    nodes: Seq<Seq<ActionV>>,
    cursor: int,
    pats: Seq<PatternV>,
    rw: Seq<RewriteV>,
    id: usize,
) -> Seq<Seq<ActionV>>
    decreases pats.len(),
{
    if pats.len() == 0 {
        nodes.update(cursor, nodes[cursor].push(ActionV::Rewrite(rw, id)))
    } else {
        match find_transition(nodes[cursor], pats[0], 0) {
            Some(k) => match nodes[cursor][k] {
                ActionV::Transition(_, t) => add_path(nodes, t as int, pats.drop_first(), rw, id),
                ActionV::Rewrite(_, _) => nodes,
            },
            None => {
                let t = nodes.len();
                add_path(
                    nodes.update(cursor, nodes[cursor].push(ActionV::Transition(pats[0], t as usize))).push(
                        Seq::empty(),
                    ),
                    t as int,
                    pats.drop_first(),
                    rw,
                    id,
                )
            },
        }
    }
}

} // verus!

verus! {

/// The pattern element that `p` stands for.
pub fn parse_pattern(p: &str) -> (r: Pattern)
    ensures
        r@ == pattern_of(p@),
{
    let cs = chars_of(p);
    let n = cs.len();
    if n == 1 && cs[0] == '*' {
        assert(p@ =~= seq!['*']);
        return Pattern::Any;
    }
    assert(p@ != seq!['*']);
    if n >= 2 && cs[0] == '(' && cs[n - 1] == ')' {
        let inner = string_from_chars(vstd::slice::slice_subrange(cs.as_slice(), 1, n - 1));
        let parts = split_on(inner.as_str(), '|');
        return Pattern::Multiple(parts);
    }
    Pattern::Exact(p.to_owned())
}

/// The rewrite element that `p` stands for.
pub fn parse_rewrite(p: &str) -> (r: Rewrite)
    requires
        rewrite_readable(p@),
    ensures
        r@ == rewrite_of(p@),
{
    let cs = chars_of(p);
    let n = cs.len();
    if n >= 2 && cs[0] == '$' {
        assert(cs@.skip(1) =~= p@.drop_first());
        if all_digits_str(cs.as_slice(), 1) {
            let ghost body = p@.drop_first();
            let mut acc: usize = 0;
            let mut i: usize = 1;
            assert(body.take(0) =~= Seq::<char>::empty());
            while i < n
                invariant
                    cs@ == p@,
                    n == p@.len(),
                    1 <= i <= n,
                    body == p@.drop_first(),
                    all_digits(body),
                    digits_value(body) <= usize::MAX,
                    acc as int == digits_value(body.take(i - 1)),
                decreases n - i,
            {
                let c = cs[i];
                proof {
                    let t = body.take(i as int);
                    assert(t.drop_last() =~= body.take(i - 1));
                    assert(t.last() == c);
                    crate::text::lemma_digits_value_prefix(body, i as int);
                    assert(crate::text::is_digit(c));
                }
                let d = ((c as u32) - ('0' as u32)) as usize;
                acc = acc * 10 + d;
                i += 1;
            }
            assert(body.take(n - 1) =~= body);
            return Rewrite::Reference(acc - 1);
        }
    }
    Rewrite::Text(p.to_owned())
}

/// Whether `cs[from..]` holds only decimal digits.
fn all_digits_str(cs: &[char], from: usize) -> (r: bool)
    requires
        1 <= from <= cs@.len(),
    ensures
        r == all_digits(cs@.skip(from as int)),
{
    let mut i = from;
    while i < cs.len()
        invariant
            from <= i <= cs@.len(),
            all_digits(cs@.skip(from as int).take(i - from)),
        decreases cs@.len() - i,
    {
        let c = cs[i];
        if !('0' <= c && c <= '9') {
            proof {
                assert(cs@.skip(from as int)[i - from] == c);
                assert(!crate::text::is_digit(c));
            }
            return false;
        }
        proof {
            let t = cs@.skip(from as int).take(i + 1 - from);
            assert(t.drop_last() =~= cs@.skip(from as int).take(i - from));
            assert(t.last() == c);
        }
        i += 1;
    }
    assert(cs@.skip(from as int).take(cs@.len() - from) =~= cs@.skip(from as int));
    true
}

} // verus!

verus! {

/// Whether some string of `v` is `f`.
fn contains_str(v: &Vec<String>, f: &str) -> (r: bool)
    ensures
        r == views_of(v@).contains(f@),
{
    let mut i: usize = 0;
    while i < v.len()
        invariant
            i <= v@.len(),
            forall|k: int| 0 <= k < i ==> v@[k]@ != f@,
        decreases v@.len() - i,
    {
        if str_eq(v[i].as_str(), f) {
            assert(views_of(v@)[i as int] == f@);
            return true;
        }
        i += 1;
    }
    assert(!views_of(v@).contains(f@)) by {
        if views_of(v@).contains(f@) {
            let k = choose|k: int| 0 <= k < views_of(v@).len() && views_of(v@)[k] == f@;
            assert(v@[k]@ == f@);
        }
    }
    false
}

/// Whether pattern `p` matches feature `f`.
pub fn pattern_matches_feature(p: &Pattern, f: &str) -> (r: bool)
    ensures
        r == pattern_matches(p@, f@),
{
    match p {
        Pattern::Any => true,
        Pattern::Exact(s) => str_eq(s.as_str(), f),
        Pattern::Multiple(v) => contains_str(v, f),
    }
}

/// Whether every string of `a` is in `b`.
fn all_in(a: &Vec<String>, b: &Vec<String>) -> (r: bool)
    ensures
        r == forall|x: Seq<char>| views_of(a@).contains(x) ==> views_of(b@).contains(x),
{
    let mut i: usize = 0;
    while i < a.len()
        invariant
            i <= a@.len(),
            forall|k: int| 0 <= k < i ==> views_of(b@).contains(#[trigger] a@[k]@),
        decreases a@.len() - i,
    {
        if !contains_str(b, a[i].as_str()) {
            assert(views_of(a@)[i as int] == a@[i as int]@);
            return false;
        }
        i += 1;
    }
    assert forall|x: Seq<char>| views_of(a@).contains(x) implies views_of(b@).contains(x) by {
        let k = choose|k: int| 0 <= k < views_of(a@).len() && views_of(a@)[k] == x;
        assert(a@[k]@ == x);
    }
    true
}

/// Whether two patterns are the same (alternatives compared as sets).
pub fn same_pattern(a: &Pattern, b: &Pattern) -> (r: bool)
    ensures
        r == (a@ == b@),
{
    match (a, b) {
        (Pattern::Any, Pattern::Any) => true,
        (Pattern::Exact(x), Pattern::Exact(y)) => str_eq(x.as_str(), y.as_str()),
        (Pattern::Multiple(x), Pattern::Multiple(y)) => {
            let r = all_in(x, y) && all_in(y, x);
            proof {
                if r {
                    assert(views_of(x@).to_set() =~= views_of(y@).to_set());
                } else if views_of(x@).to_set() == views_of(y@).to_set() {
                    assert forall|s: Seq<char>| views_of(x@).contains(s) implies views_of(y@).contains(s) by {
                        assert(views_of(x@).to_set().contains(s));
                    }
                    assert forall|s: Seq<char>| views_of(y@).contains(s) implies views_of(x@).contains(s) by {
                        assert(views_of(y@).to_set().contains(s));
                    }
                }
            }
            r
        },
        _ => false,
    }
}

/// Builds the prefix trie of rewrite rules.
pub struct FeatureRewriterBuilder {
    /// The nodes; the root is node 0.
    pub nodes: Vec<Node>,
    /// How many rules were added.
    pub rules: usize,
}

impl FeatureRewriterBuilder {
    /// The trie as values.
    pub open spec fn view_nodes(&self) -> Seq<Seq<ActionV>> {
        nodes_view(self.nodes@)
    }

    /// A builder with no rules: just the root.
    pub fn new() -> (r: Self)
        ensures
            r.view_nodes() == seq![Seq::<ActionV>::empty()],
            trie_wf(r.view_nodes()),
            r.rules == 0,
    {
        let mut nodes: Vec<Node> = Vec::new();
        let acts: Vec<Action> = Vec::new();
        assert(actions_view(acts@) =~= Seq::<ActionV>::empty());
        nodes.push(Node { actions: acts });
        let r = FeatureRewriterBuilder { nodes, rules: 0 };
        assert(r.view_nodes() =~= seq![Seq::<ActionV>::empty()]);
        r
    }

    /// The first action of node `cursor` that is a transition on `parsed`.
    fn find_edge(&self, cursor: usize, parsed: &Pattern) -> (r: Option<usize>)
        requires
            cursor < self.nodes@.len(),
        ensures
            match r {
                Some(j) => find_transition(self.view_nodes()[cursor as int], parsed@, 0) == Some(j as int),
                None => find_transition(self.view_nodes()[cursor as int], parsed@, 0) is None,
            },
    {
        let ghost acts = self.view_nodes()[cursor as int];
        let mut j: usize = 0;
        while j < self.nodes[cursor].actions.len()
            invariant
                cursor < self.nodes@.len(),
                acts == self.view_nodes()[cursor as int],
                acts == actions_view(self.nodes@[cursor as int].actions@),
                j <= acts.len(),
                find_transition(acts, parsed@, 0) == find_transition(acts, parsed@, j as int),
            decreases acts.len() - j,
        {
            let hit = match &self.nodes[cursor].actions[j] {
                Action::Transition(edge) => same_pattern(&edge.pattern, parsed),
                Action::Rewrite(_, _) => false,
            };
            assert(acts[j as int] == self.nodes@[cursor as int].actions@[j as int]@);
            if hit {
                return Some(j);
            }
            j += 1;
        }
        None
    }

    /// Adds the rule with pattern `pattern` and rewrite `rewrite`; the
    /// pattern's elements follow the transitions already there where they
    /// can, and the rewrite goes last among the actions of the node reached,
    /// numbered after the rules added before.
    pub fn add_rule(&mut self, pattern: &[String], rewrite: &[String])
        requires
            trie_wf(old(self).view_nodes()),
            old(self).rules < usize::MAX,
            forall|i: int| 0 <= i < rewrite@.len() ==> rewrite_readable(#[trigger] rewrite@[i]@),
        ensures
            trie_wf(final(self).view_nodes()),
            final(self).rules == old(self).rules + 1,
            final(self).view_nodes() == add_path(
                old(self).view_nodes(),
                0,
                views_of(pattern@).map_values(|p: Seq<char>| pattern_of(p)),
                views_of(rewrite@).map_values(|p: Seq<char>| rewrite_of(p)),
                old(self).rules,
            ),
    {
        let id = self.rules;
        let ghost pats = views_of(pattern@).map_values(|p: Seq<char>| pattern_of(p));
        let ghost rw = views_of(rewrite@).map_values(|p: Seq<char>| rewrite_of(p));
        let ghost goal = add_path(old(self).view_nodes(), 0, pats, rw, id);
        let mut cursor: usize = 0;
        let mut k: usize = 0;
        assert(pats.skip(0) =~= pats);
        while k < pattern.len()
            invariant
                k <= pattern@.len(),
                pats == views_of(pattern@).map_values(|p: Seq<char>| pattern_of(p)),
                rw == views_of(rewrite@).map_values(|p: Seq<char>| rewrite_of(p)),
                goal == add_path(old(self).view_nodes(), 0, pats, rw, id),
                id == old(self).rules,
                self.rules == id,
                trie_wf(self.view_nodes()),
                cursor < self.nodes@.len(),
                add_path(self.view_nodes(), cursor as int, pats.skip(k as int), rw, id) == goal,
            decreases pattern@.len() - k,
        {
            let parsed = parse_pattern(pattern[k].as_str());
            assert(parsed@ == pats[k as int]);
            let ghost rest = pats.skip(k as int);
            assert(rest[0] == pats[k as int]);
            assert(rest.drop_first() =~= pats.skip(k + 1));
            let ghost before = self.view_nodes();
            match self.find_edge(cursor, &parsed) {
                Some(j) => {
                    proof {
                        lemma_find_transition(before[cursor as int], parsed@, 0);
                        assert(before[cursor as int][j as int] == self.nodes@[cursor as int].actions@[j as int]@);
                    }
                    let t = match &self.nodes[cursor].actions[j] {
                        Action::Transition(edge) => edge.target,
                        Action::Rewrite(_, _) => cursor,
                    };
                    proof {
                        assert(before[cursor as int][j as int] matches ActionV::Transition(_, tt) && tt == t);
                        assert(0 <= cursor < before.len() && 0 <= j < before[cursor as int].len());
                    }
                    cursor = t;
                },
                None => {
                    let target = self.nodes.len();
                    let ghost acts0 = self.nodes@[cursor as int].actions@;
                    let ghost pv = parsed@;
                    self.nodes[cursor].actions.push(Action::Transition(Edge { pattern: parsed, target }));
                    let empty: Vec<Action> = Vec::new();
                    assert(actions_view(empty@) =~= Seq::<ActionV>::empty());
                    self.nodes.push(Node { actions: empty });
                    proof {
                        let nb = before.update(cursor as int, before[cursor as int].push(ActionV::Transition(pv, target))).push(
                            Seq::empty(),
                        );
                        assert(actions_view(acts0.push(Action::Transition(Edge { pattern: parsed, target })))
                            =~= actions_view(acts0).push(ActionV::Transition(pv, target)));
                        assert(self.view_nodes() =~= nb);
                        assert forall|n: int, i: int|
                            0 <= n < nb.len() && 0 <= i < nb[n].len() implies match #[trigger] nb[n][i] {
                            ActionV::Transition(_, tt) => tt < nb.len(),
                            ActionV::Rewrite(_, _) => true,
                        } by {
                            if n < before.len() && !(n == cursor && i == before[cursor as int].len()) {
                                assert(nb[n][i] == before[n][i]);
                            }
                        }
                    }
                    cursor = target;
                },
            }
            k += 1;
        }
        let mut parsed_rw: Vec<Rewrite> = Vec::new();
        let mut i: usize = 0;
        while i < rewrite.len()
            invariant
                i <= rewrite@.len(),
                rw == views_of(rewrite@).map_values(|p: Seq<char>| rewrite_of(p)),
                forall|q: int| 0 <= q < rewrite@.len() ==> rewrite_readable(#[trigger] rewrite@[q]@),
                parsed_rw@.map_values(|r: Rewrite| r@) == rw.take(i as int),
            decreases rewrite@.len() - i,
        {
            assert(rewrite_readable(rewrite@[i as int]@));
            let r = parse_rewrite(rewrite[i].as_str());
            let ghost before = parsed_rw@;
            parsed_rw.push(r);
            assert(parsed_rw@.map_values(|r: Rewrite| r@) =~= before.map_values(|r: Rewrite| r@).push(r@));
            assert(parsed_rw@.map_values(|r: Rewrite| r@) =~= rw.take(i + 1));
            i += 1;
        }
        assert(rw.take(rewrite@.len() as int) =~= rw);
        let ghost before = self.view_nodes();
        let ghost acts0 = self.nodes@[cursor as int].actions@;
        let ghost rv = parsed_rw@.map_values(|r: Rewrite| r@);
        self.nodes[cursor].actions.push(Action::Rewrite(parsed_rw, id));
        self.rules = id + 1;
        proof {
            assert(pats.skip(pattern@.len() as int) =~= Seq::<PatternV>::empty());
            assert(actions_view(self.nodes@[cursor as int].actions@) =~= actions_view(acts0).push(ActionV::Rewrite(rv, id)));
            assert(self.view_nodes() =~= before.update(cursor as int, before[cursor as int].push(ActionV::Rewrite(rw, id))));
            let nb = self.view_nodes();
            assert forall|n: int, i: int|
                0 <= n < nb.len() && 0 <= i < nb[n].len() implies match #[trigger] nb[n][i] {
                ActionV::Transition(_, tt) => tt < nb.len(),
                ActionV::Rewrite(_, _) => true,
            } by {
                if !(n == cursor && i == before[cursor as int].len()) {
                    assert(nb[n][i] == before[n][i]);
                }
            }
        }
    }
}

/// What `find_transition` finds is a transition on the pattern, at or
/// after where the search starts.
pub proof fn lemma_find_transition(actions: Seq<ActionV>, p: PatternV, k: int)
    ensures
        find_transition(actions, p, k) matches Some(j) ==> k <= j < actions.len() && (actions[j] matches ActionV::Transition(
            q,
            _,
        ) && q == p),
    decreases actions.len() - k,
{
    if 0 <= k < actions.len() && !(actions[k] matches ActionV::Transition(q, _) && q == p) {
        lemma_find_transition(actions, p, k + 1);
    }
}

} // verus!

verus! {

/// Rewrites features by the rules of a prefix trie.
pub struct FeatureRewriter {
    /// The nodes; the root is node 0.
    pub nodes: Vec<Node>,
}

impl FeatureRewriter {
    /// The trie as values.
    pub open spec fn view_nodes(&self) -> Seq<Seq<ActionV>> {
        nodes_view(self.nodes@)
    }

    /// A rewriter with no rules.
    pub fn new() -> (r: Self)
        ensures
            r.view_nodes() == seq![Seq::<ActionV>::empty()],
            trie_wf(r.view_nodes()),
    {
        let b = FeatureRewriterBuilder::new();
        FeatureRewriter { nodes: b.nodes }
    }

    /// The rewriter of the rules a builder holds.
    pub fn from_builder(builder: FeatureRewriterBuilder) -> (r: Self)
        ensures
            r.view_nodes() == builder.view_nodes(),
    {
        FeatureRewriter { nodes: builder.nodes }
    }

    /// The features a rewrite yields.
    fn apply(rule: &Vec<Rewrite>, features: &[String]) -> (r: Vec<String>)
        ensures
            views_of(r@) == apply_rewrite(rule@.map_values(|x: Rewrite| x@), views_of(features@)),
    {
        let ghost target = apply_rewrite(rule@.map_values(|x: Rewrite| x@), views_of(features@));
        let mut out: Vec<String> = Vec::new();
        let mut i: usize = 0;
        while i < rule.len()
            invariant
                i <= rule@.len(),
                target == apply_rewrite(rule@.map_values(|x: Rewrite| x@), views_of(features@)),
                views_of(out@) == target.take(i as int),
            decreases rule@.len() - i,
        {
            let s = match &rule[i] {
                Rewrite::Reference(idx) => if *idx < features.len() {
                    features[*idx].clone()
                } else {
                    String::new()
                },
                Rewrite::Text(t) => t.clone(),
            };
            let ghost before = out@;
            out.push(s);
            proof {
                assert(views_of(out@) =~= views_of(before).push(s@));
                assert(s@ == target[i as int]) by {
                    assert(rule@.map_values(|x: Rewrite| x@)[i as int] == rule@[i as int]@);
                    if let Rewrite::Reference(idx) = rule@[i as int] {
                        if (idx as int) < features@.len() {
                            assert(views_of(features@)[idx as int] == features@[idx as int]@);
                        } else {
                            assert(s@ =~= Seq::<char>::empty());
                        }
                    }
                }
                assert(views_of(out@) =~= target.take(i + 1));
            }
            i += 1;
        }
        assert(target.take(rule@.len() as int) =~= target);
        out
    }

    /// The earliest registered rule that matches from node `node` on, with
    /// `depth` features consumed: its number, and the node and action that
    /// hold it.
    fn best(&self, node: usize, depth: usize, features: &[String]) -> (r: Option<(usize, usize, usize)>)
        requires
            trie_wf(self.view_nodes()),
            node < self.nodes@.len(),
            depth <= features@.len(),
        ensures
            located(self.view_nodes(), r, best_from(self.view_nodes(), node as int, 0, depth as int, views_of(features@))),
        decreases features@.len() - depth,
    {
        let ghost nv = self.view_nodes();
        let ghost fv = views_of(features@);
        let mut acc: Option<(usize, usize, usize)> = None;
        let mut i: usize = self.nodes[node].actions.len();
        assert(nv[node as int] == actions_view(self.nodes@[node as int].actions@));
        while i > 0
            invariant
                trie_wf(self.view_nodes()),
                nv == self.view_nodes(),
                fv == views_of(features@),
                node < self.nodes@.len(),
                depth <= features@.len(),
                i <= nv[node as int].len(),
                nv[node as int] == actions_view(self.nodes@[node as int].actions@),
                located(nv, acc, best_from(nv, node as int, i as int, depth as int, fv)),
            decreases i,
        {
            i -= 1;
            assert(nv[node as int][i as int] == self.nodes@[node as int].actions@[i as int]@);
            let here: Option<(usize, usize, usize)> = match &self.nodes[node].actions[i] {
                Action::Rewrite(_, id) => Some((*id, node, i)),
                Action::Transition(edge) => {
                    assert(edge.target < nv.len());
                    if depth < features.len() && pattern_matches_feature(&edge.pattern, features[depth].as_str()) {
                        assert(fv[depth as int] == features@[depth as int]@);
                        self.best(edge.target, depth + 1, features)
                    } else {
                        assert(depth < features@.len() ==> fv[depth as int] == features@[depth as int]@);
                        None
                    }
                },
            };
            acc = match (here, acc) {
                (None, _) => acc,
                (_, None) => here,
                (Some(x), Some(y)) => if x.0 <= y.0 {
                    here
                } else {
                    acc
                },
            };
        }
        acc
    }

    /// The rewritten features, or `None` when no rule matches: of the rules
    /// whose patterns match the leading features, the one registered first
    /// is applied (`$n` giving the `n`-th feature, empty when there is none).
    pub fn rewrite(&self, features: &[String]) -> (r: Option<Vec<String>>)
        requires
            trie_wf(self.view_nodes()),
        ensures
            match r {
                Some(v) => rewrite_spec(self.view_nodes(), views_of(features@)) == Some(views_of(v@)),
                None => rewrite_spec(self.view_nodes(), views_of(features@)) is None,
            },
    {
        match self.best(0, 0, features) {
            Some((_, n, a)) => {
                assert(self.view_nodes()[n as int][a as int] == self.nodes@[n as int].actions@[a as int]@);
                match &self.nodes[n].actions[a] {
                    Action::Rewrite(rule, _) => Some(Self::apply(rule, features)),
                    Action::Transition(_) => None,
                }
            },
            None => None,
        }
    }
}

} // verus!

verus! {

/// The rule a line of a rewrite file holds: skipped when blank or a `#`
/// comment; otherwise the pattern before the first tab and the rewrite
/// after it, both comma-separated, when there is a tab.
pub open spec fn rule_line(line: Seq<char>) -> Option<(Seq<Seq<char>>, Seq<Seq<char>>)> {
    if crate::text::is_blank_str(line) || (line.len() > 0 && line[0] == '#') {
        None
    } else {
        let parts = split_seq(line, '\t');
        if parts.len() >= 2 {
            Some((split_seq(parts[0], ','), split_seq(parts[1], ',')))
        } else {
            None
        }
    }
}

/// Whether every rewrite element of every rule line can be read.
pub open spec fn lines_readable(lines: Seq<Seq<char>>) -> bool {
    forall|k: int|
        0 <= k < lines.len() ==> match rule_line(#[trigger] lines[k]) {
            Some((_, rw)) => forall|j: int| 0 <= j < rw.len() ==> rewrite_readable(#[trigger] rw[j]),
            None => true,
        }
}

/// How many of the lines hold a rule.
pub open spec fn rule_count(lines: Seq<Seq<char>>) -> nat
    decreases lines.len(),
{
    if lines.len() == 0 {
        0
    } else {
        rule_count(lines.drop_last()) + if rule_line(lines.last()) is Some {
            1nat
        } else {
            0nat
        }
    }
}

/// The trie of the rules of the lines, added and numbered in order.
pub open spec fn trie_from_lines(lines: Seq<Seq<char>>) -> Seq<Seq<ActionV>>
    decreases lines.len(),
{
    if lines.len() == 0 {
        seq![Seq::empty()]
    } else {
        let prev = trie_from_lines(lines.drop_last());
        match rule_line(lines.last()) {
            Some((p, rw)) => add_path(
                prev,
                0,
                p.map_values(|x: Seq<char>| pattern_of(x)),
                rw.map_values(|x: Seq<char>| rewrite_of(x)),
                rule_count(lines.drop_last()) as usize,
            ),
            None => prev,
        }
    }
}

impl FeatureRewriter {
    /// A rewriter from the text of a rewrite file: one rule per line, the
    /// comma-separated pattern and the comma-separated rewrite separated by a
    /// tab; blank lines and `#` comments are skipped.
    pub fn from_reader(content: &str) -> (r: Self)
        requires
            lines_readable(crate::text::lines_spec(content@)),
        ensures
            trie_wf(r.view_nodes()),
            r.view_nodes() == trie_from_lines(crate::text::lines_spec(content@)),
    {
        let ghost ls = crate::text::lines_spec(content@);
        let lines = crate::text::lines_of(content);
        let mut builder = FeatureRewriterBuilder::new();
        let mut i: usize = 0;
        assert(ls.take(0) =~= Seq::<Seq<char>>::empty());
        while i < lines.len()
            invariant
                views_of(lines@) == ls,
                ls == crate::text::lines_spec(content@),
                lines_readable(ls),
                i <= lines@.len(),
                trie_wf(builder.view_nodes()),
                builder.view_nodes() == trie_from_lines(ls.take(i as int)),
                builder.rules == rule_count(ls.take(i as int)),
                builder.rules <= i,
            decreases lines@.len() - i,
        {
            let line = lines[i].as_str();
            let ghost t = ls.take(i + 1);
            assert(t.drop_last() =~= ls.take(i as int));
            assert(t.last() == line@);
            let blank = crate::text::trims_to_empty(line);
            let cs = chars_of(line);
            let comment = cs.len() > 0 && cs[0] == '#';
            if !blank && !comment {
                let parts = split_on(line, '\t');
                if parts.len() >= 2 {
                    let pattern = split_on(parts[0].as_str(), ',');
                    let rewrite = split_on(parts[1].as_str(), ',');
                    proof {
                        assert(views_of(parts@)[0] == parts@[0]@);
                        assert(views_of(parts@)[1] == parts@[1]@);
                        assert(rule_line(ls[i as int]) == Some((views_of(pattern@), views_of(rewrite@))));
                        assert forall|j: int| 0 <= j < rewrite@.len() implies rewrite_readable(
                            #[trigger] rewrite@[j]@,
                        ) by {
                            assert(views_of(rewrite@)[j] == rewrite@[j]@);
                            let rl = rule_line(ls[i as int]);
                            assert(rl matches Some((_, rw)) && rw == views_of(rewrite@));
                            assert(rewrite_readable(views_of(rewrite@)[j]));
                        }
                    }
                    builder.add_rule(pattern.as_slice(), rewrite.as_slice());
                }
            }
            i += 1;
        }
        assert(ls.take(lines@.len() as int) =~= ls);
        Self::from_builder(builder)
    }
}

} // verus!

verus! {

/// The first position from `k` on that holds a tab or a space.
pub open spec fn first_blank(t: Seq<char>, k: int) -> Option<int>
    decreases t.len() - k,
{
    if k < 0 || k >= t.len() {
        None
    } else if t[k] == '\t' || t[k] == ' ' {
        Some(k)
    } else {
        first_blank(t, k + 1)
    }
}

/// The rule a line of a sectioned rewrite file holds: none for a blank
/// line, a `#` comment or a section header; otherwise, split at its first
/// tab or space, the comma-separated pattern before and the comma-separated
/// trimmed rewrite after, when there is such a separator.
pub open spec fn section_rule_line(line: Seq<char>) -> Option<(Seq<Seq<char>>, Seq<Seq<char>>)> {
    let t = crate::text::trim_spec(line);
    if t.len() == 0 || t[0] == '#' || t == "[unigram rewrite]"@ || t == "[left rewrite]"@ || t
        == "[right rewrite]"@ {
        None
    } else {
        match first_blank(t, 0) {
            Some(k) => Some((split_seq(t.take(k), ','), split_seq(crate::text::trim_spec(t.skip(k + 1)), ','))),
            None => None,
        }
    }
}

/// The state of reading a sectioned rewrite file: the section (0 before
/// any, then 1 unigram, 2 left, 3 right), the three tries, and how many
/// rules each holds.
pub struct RewriteDefState {
    pub section: int,
    pub unigram: Seq<Seq<ActionV>>,
    pub left: Seq<Seq<ActionV>>,
    pub right: Seq<Seq<ActionV>>,
    pub unigram_rules: nat,
    pub left_rules: nat,
    pub right_rules: nat,
}

/// The state after one line: a header switches the section; a rule line
/// before any header counts as a right rewrite line, and its rule goes to
/// the trie of the section.
pub open spec fn rewrite_def_step(st: RewriteDefState, line: Seq<char>) -> RewriteDefState {
    let t = crate::text::trim_spec(line);
    if t.len() == 0 || t[0] == '#' {
        st
    } else if t == "[unigram rewrite]"@ {
        RewriteDefState { section: 1, ..st }
    } else if t == "[left rewrite]"@ {
        RewriteDefState { section: 2, ..st }
    } else if t == "[right rewrite]"@ {
        RewriteDefState { section: 3, ..st }
    } else {
        let sec = if st.section == 0 {
            3
        } else {
            st.section
        };
        match section_rule_line(line) {
            Some((p, rw)) => {
                let pats = p.map_values(|x: Seq<char>| pattern_of(x));
                let rws = rw.map_values(|x: Seq<char>| rewrite_of(x));
                if sec == 1 {
                    RewriteDefState {
                        section: sec,
                        unigram: add_path(st.unigram, 0, pats, rws, st.unigram_rules as usize),
                        unigram_rules: st.unigram_rules + 1,
                        ..st
                    }
                } else if sec == 2 {
                    RewriteDefState {
                        section: sec,
                        left: add_path(st.left, 0, pats, rws, st.left_rules as usize),
                        left_rules: st.left_rules + 1,
                        ..st
                    }
                } else {
                    RewriteDefState {
                        section: sec,
                        right: add_path(st.right, 0, pats, rws, st.right_rules as usize),
                        right_rules: st.right_rules + 1,
                        ..st
                    }
                }
            },
            None => RewriteDefState { section: sec, ..st },
        }
    }
}

/// The state after the lines, in order, from no section and empty tries.
pub open spec fn rewrite_def_state(lines: Seq<Seq<char>>) -> RewriteDefState
    decreases lines.len(),
{
    if lines.len() == 0 {
        RewriteDefState {
            section: 0,
            unigram: seq![Seq::empty()],
            left: seq![Seq::empty()],
            right: seq![Seq::empty()],
            unigram_rules: 0,
            left_rules: 0,
            right_rules: 0,
        }
    } else {
        rewrite_def_step(rewrite_def_state(lines.drop_last()), lines.last())
    }
}

/// Whether every rewrite element of every rule line can be read.
pub open spec fn rewrite_def_readable(lines: Seq<Seq<char>>) -> bool {
    forall|k: int|
        0 <= k < lines.len() ==> match section_rule_line(#[trigger] lines[k]) {
            Some((_, rw)) => forall|j: int| 0 <= j < rw.len() ==> rewrite_readable(#[trigger] rw[j]),
            None => true,
        }
}

/// What one rewriter makes of a feature string: the rewritten fields joined
/// with commas, or the string itself when no rule matches.
pub open spec fn rewrite_or_keep(nodes: Seq<Seq<ActionV>>, feature: Seq<char>) -> Seq<char> {
    match rewrite_spec(nodes, split_seq(feature, ',')) {
        Some(v) => crate::text::join_spec(v, ','),
        None => feature,
    }
}

/// A rewriter with the three sections of MeCab's rewrite definition: the
/// unigram, left and right rewrites of a feature string.
pub struct DictionaryRewriter {
    /// The unigram rewrite rules.
    pub unigram_rewriter: FeatureRewriter,
    /// The left rewrite rules.
    pub left_rewriter: FeatureRewriter,
    /// The right rewrite rules.
    pub right_rewriter: FeatureRewriter,
    /// Feature strings rewritten before, with their rewrites.
    pub cache: Vec<(String, (String, String, String))>,
}

impl DictionaryRewriter {
    /// The three rewrites of a feature string.
    pub open spec fn rewrite3(&self, feature: Seq<char>) -> (Seq<char>, Seq<char>, Seq<char>) {
        (
            rewrite_or_keep(self.unigram_rewriter.view_nodes(), feature),
            rewrite_or_keep(self.left_rewriter.view_nodes(), feature),
            rewrite_or_keep(self.right_rewriter.view_nodes(), feature),
        )
    }

    /// Whether the rewriter is well formed: its tries are, and every cached
    /// rewrite is the rewrite of its feature string.
    pub open spec fn wf(&self) -> bool {
        &&& trie_wf(self.unigram_rewriter.view_nodes())
        &&& trie_wf(self.left_rewriter.view_nodes())
        &&& trie_wf(self.right_rewriter.view_nodes())
        &&& forall|k: int|
            0 <= k < self.cache@.len() ==> {
                let e = #[trigger] self.cache@[k];
                self.rewrite3(e.0@) == (e.1.0@, e.1.1@, e.1.2@)
            }
    }

    /// A rewriter with no rules and an empty cache.
    pub fn new() -> (r: Self)
        ensures
            r.wf(),
            r.cache@.len() == 0,
            r.unigram_rewriter.view_nodes() == seq![Seq::<ActionV>::empty()],
            r.left_rewriter.view_nodes() == seq![Seq::<ActionV>::empty()],
            r.right_rewriter.view_nodes() == seq![Seq::<ActionV>::empty()],
    {
        DictionaryRewriter {
            unigram_rewriter: FeatureRewriter::new(),
            left_rewriter: FeatureRewriter::new(),
            right_rewriter: FeatureRewriter::new(),
            cache: Vec::new(),
        }
    }

    /// What one rewriter makes of a feature string.
    fn rewrite_one(rewriter: &FeatureRewriter, feature: &str, fields: &Vec<String>) -> (r: String)
        requires
            trie_wf(rewriter.view_nodes()),
            views_of(fields@) == split_seq(feature@, ','),
        ensures
            r@ == rewrite_or_keep(rewriter.view_nodes(), feature@),
    {
        match rewriter.rewrite(fields.as_slice()) {
            Some(v) => crate::text::join_with(v.as_slice(), ','),
            None => feature.to_owned(),
        }
    }

    /// The unigram, left and right rewrites of a feature string; a section
    /// with no matching rule passes the string through.
    pub fn rewrite(&self, feature: &str) -> (r: (String, String, String))
        requires
            self.wf(),
        ensures
            (r.0@, r.1@, r.2@) == self.rewrite3(feature@),
    {
        let fields = split_on(feature, ',');
        let u = Self::rewrite_one(&self.unigram_rewriter, feature, &fields);
        let l = Self::rewrite_one(&self.left_rewriter, feature, &fields);
        let r = Self::rewrite_one(&self.right_rewriter, feature, &fields);
        (u, l, r)
    }

    /// Whether the cache holds a rewrite of `feature`.
    pub open spec fn is_cached(&self, feature: Seq<char>) -> bool {
        exists|k: int| 0 <= k < self.cache@.len() && (#[trigger] self.cache@[k]).0@ == feature
    }

    /// The same rewrites, remembered: a feature string rewritten before is
    /// answered from the cache, which stays as it is; others are rewritten
    /// and added to the end of it.
    pub fn rewrite_cached(&mut self, feature: &str) -> (r: (String, String, String))
        requires
            old(self).wf(),
        ensures
            final(self).wf(),
            (r.0@, r.1@, r.2@) == old(self).rewrite3(feature@),
            final(self).is_cached(feature@),
            final(self).cache@.len() == old(self).cache@.len() + if old(self).is_cached(feature@) {
                0int
            } else {
                1int
            },
            final(self).cache@.take(old(self).cache@.len() as int) == old(self).cache@,
            final(self).unigram_rewriter == old(self).unigram_rewriter,
            final(self).left_rewriter == old(self).left_rewriter,
            final(self).right_rewriter == old(self).right_rewriter,
    {
        let mut k: usize = 0;
        while k < self.cache.len()
            invariant
                self.wf(),
                self == old(self),
                k <= self.cache@.len(),
                forall|q: int| 0 <= q < k ==> (#[trigger] self.cache@[q]).0@ != feature@,
            decreases self.cache@.len() - k,
        {
            if str_eq(self.cache[k].0.as_str(), feature) {
                let e = &self.cache[k];
                assert(self.rewrite3(e.0@) == (e.1.0@, e.1.1@, e.1.2@));
                assert(self.cache@[k as int].0@ == feature@);
                assert(self.cache@.take(self.cache@.len() as int) =~= self.cache@);
                return (e.1.0.clone(), e.1.1.clone(), e.1.2.clone());
            }
            k += 1;
        }
        assert(!self.is_cached(feature@));
        let result = self.rewrite(feature);
        let entry = (feature.to_owned(), (result.0.clone(), result.1.clone(), result.2.clone()));
        let ghost before = self.cache@;
        self.cache.push(entry);
        proof {
            assert forall|q: int| 0 <= q < self.cache@.len() implies {
                let e = #[trigger] self.cache@[q];
                self.rewrite3(e.0@) == (e.1.0@, e.1.1@, e.1.2@)
            } by {
                if q < before.len() {
                    assert(self.cache@[q] == before[q]);
                }
            }
            assert(self.cache@[before.len() as int].0@ == feature@);
            assert(self.cache@.take(before.len() as int) =~= before);
        }
        result
    }

    /// Forgets every cached rewrite.
    pub fn clear_cache(&mut self)
        requires
            old(self).wf(),
        ensures
            final(self).wf(),
            final(self).cache@.len() == 0,
            final(self).unigram_rewriter == old(self).unigram_rewriter,
            final(self).left_rewriter == old(self).left_rewriter,
            final(self).right_rewriter == old(self).right_rewriter,
    {
        self.cache.clear();
    }

    /// The unigram rewriter.
    pub fn unigram_rewriter(&self) -> (r: &FeatureRewriter)
        ensures
            r == &self.unigram_rewriter,
    {
        &self.unigram_rewriter
    }

    /// The left rewriter.
    pub fn left_rewriter(&self) -> (r: &FeatureRewriter)
        ensures
            r == &self.left_rewriter,
    {
        &self.left_rewriter
    }

    /// The right rewriter.
    pub fn right_rewriter(&self) -> (r: &FeatureRewriter)
        ensures
            r == &self.right_rewriter,
    {
        &self.right_rewriter
    }
}

} // verus!

verus! {

/// What `first_blank` finds is a tab or a space inside the text, at or
/// after where the search starts.
pub proof fn lemma_first_blank(t: Seq<char>, k: int)
    ensures
        first_blank(t, k) matches Some(i) ==> k <= i < t.len() && (t[i] == '\t' || t[i] == ' '),
    decreases t.len() - k,
{
    if 0 <= k < t.len() && !(t[k] == '\t' || t[k] == ' ') {
        lemma_first_blank(t, k + 1);
    }
}

/// The first position from `k` on of `cs` that holds a tab or a space.
fn find_blank(cs: &[char], k: usize) -> (r: Option<usize>)
    requires
        k <= cs@.len(),
    ensures
        match r {
            Some(i) => first_blank(cs@, k as int) == Some(i as int),
            None => first_blank(cs@, k as int) is None,
        },
    decreases cs@.len() - k,
{
    if k >= cs.len() {
        None
    } else if cs[k] == '\t' || cs[k] == ' ' {
        Some(k)
    } else {
        find_blank(cs, k + 1)
    }
}

impl DictionaryRewriter {
    /// A rewriter from the text of a rewrite definition: lines under
    /// `[unigram rewrite]`, `[left rewrite]` and `[right rewrite]` add rules
    /// to that section, rule lines before any header to the right rewrites;
    /// a rule line is the comma-separated pattern and, after the first tab
    /// or space, the comma-separated rewrite. Blank lines and `#` comments
    /// are skipped.
    pub fn from_reader(content: &str) -> (r: Self)
        requires
            rewrite_def_readable(crate::text::lines_spec(content@)),
        ensures
            r.wf(),
            r.cache@.len() == 0,
            r.unigram_rewriter.view_nodes() == rewrite_def_state(crate::text::lines_spec(content@)).unigram,
            r.left_rewriter.view_nodes() == rewrite_def_state(crate::text::lines_spec(content@)).left,
            r.right_rewriter.view_nodes() == rewrite_def_state(crate::text::lines_spec(content@)).right,
    {
        let ghost ls = crate::text::lines_spec(content@);
        let lines = crate::text::lines_of(content);
        let mut unigram = FeatureRewriterBuilder::new();
        let mut left = FeatureRewriterBuilder::new();
        let mut right = FeatureRewriterBuilder::new();
        let mut section: u8 = 0;
        let mut i: usize = 0;
        assert(ls.take(0) =~= Seq::<Seq<char>>::empty());
        while i < lines.len()
            invariant
                views_of(lines@) == ls,
                ls == crate::text::lines_spec(content@),
                rewrite_def_readable(ls),
                i <= lines@.len(),
                trie_wf(unigram.view_nodes()),
                trie_wf(left.view_nodes()),
                trie_wf(right.view_nodes()),
                section <= 3,
                unigram.rules <= i,
                left.rules <= i,
                right.rules <= i,
                rewrite_def_state(ls.take(i as int)) == (RewriteDefState {
                    section: section as int,
                    unigram: unigram.view_nodes(),
                    left: left.view_nodes(),
                    right: right.view_nodes(),
                    unigram_rules: unigram.rules as nat,
                    left_rules: left.rules as nat,
                    right_rules: right.rules as nat,
                }),
            decreases lines@.len() - i,
        {
            let line = lines[i].as_str();
            let ghost t = ls.take(i + 1);
            assert(t.drop_last() =~= ls.take(i as int));
            assert(t.last() == line@);
            let trimmed = crate::text::trim(line);
            let cs = chars_of(trimmed.as_str());
            if cs.len() == 0 || cs[0] == '#' {
                i += 1;
                continue;
            }
            if str_eq(trimmed.as_str(), "[unigram rewrite]") {
                section = 1;
                i += 1;
                continue;
            }
            if str_eq(trimmed.as_str(), "[left rewrite]") {
                section = 2;
                i += 1;
                continue;
            }
            if str_eq(trimmed.as_str(), "[right rewrite]") {
                section = 3;
                i += 1;
                continue;
            }
            if section == 0 {
                section = 3;
            }
            match find_blank(cs.as_slice(), 0) {
                Some(k) => {
                    proof {
                        lemma_first_blank(cs@, 0);
                    }
                    let head = string_from_chars(vstd::slice::slice_subrange(cs.as_slice(), 0, k));
                    let tail = string_from_chars(vstd::slice::slice_subrange(cs.as_slice(), k + 1, cs.len()));
                    let tail = crate::text::trim(tail.as_str());
                    let pattern = split_on(head.as_str(), ',');
                    let rewrite = split_on(tail.as_str(), ',');
                    proof {
                        assert(head@ =~= trimmed@.take(k as int));
                        assert(section_rule_line(ls[i as int]) == Some((views_of(pattern@), views_of(rewrite@))));
                        assert forall|j: int| 0 <= j < rewrite@.len() implies rewrite_readable(
                            #[trigger] rewrite@[j]@,
                        ) by {
                            assert(views_of(rewrite@)[j] == rewrite@[j]@);
                            let rl = section_rule_line(ls[i as int]);
                            assert(rl matches Some((_, rw)) && rw == views_of(rewrite@));
                            assert(rewrite_readable(views_of(rewrite@)[j]));
                        }
                    }
                    if section == 1 {
                        unigram.add_rule(pattern.as_slice(), rewrite.as_slice());
                    } else if section == 2 {
                        left.add_rule(pattern.as_slice(), rewrite.as_slice());
                    } else {
                        right.add_rule(pattern.as_slice(), rewrite.as_slice());
                    }
                },
                None => {},
            }
            i += 1;
        }
        assert(ls.take(lines@.len() as int) =~= ls);
        DictionaryRewriter {
            unigram_rewriter: FeatureRewriter::from_builder(unigram),
            left_rewriter: FeatureRewriter::from_builder(left),
            right_rewriter: FeatureRewriter::from_builder(right),
            cache: Vec::new(),
        }
    }
}

} // verus!
