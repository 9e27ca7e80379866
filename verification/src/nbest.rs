//! N-best search: the paths of a lattice from its end back to its start, in
//! order of their estimated cost, by backward A* search over the transitions
//! that the forward pass recorded.
use vstd::prelude::*;

use crate::viterbi::{WordEntry, WordId};

verus! {

/// An edge of the lattice, as the search reads it.
#[derive(Debug, Clone, Copy)]
pub struct LatticeEdge {
    /// Byte position where the word starts.
    pub start_index: u32,
    /// Byte position where the word ends.
    pub stop_index: u32,
    /// The lexicon entry of the word.
    pub word_entry: WordEntry,
    /// Cost of the best path from the start of the text to this edge.
    pub path_cost: i32,
    /// Index of the best predecessor; `u16::MAX` for the start edge.
    pub left_index: u16,
}

/// A transition recorded by the forward pass: from edge `left_index` ending
/// at `left_pos` into edge `edge_index` ending here.
#[derive(Debug, Clone, Copy)]
pub struct PathEntry {
    /// Index of the edge the transition goes into.
    pub edge_index: u16,
    /// Where the predecessor ends.
    pub left_pos: u32,
    /// Index of the predecessor among the edges ending there.
    pub left_index: u16,
    /// The predecessor's path cost plus the connection cost and penalty.
    pub cost: i32,
}

/// The lattice of a text after the forward pass.
pub struct Lattice {
    /// Byte length of the text; the end edge ends here.
    pub text_len: usize,
    /// The edges ending at each byte position; the end edge is the last one
    /// ending at `text_len`.
    pub ends_at: Vec<Vec<LatticeEdge>>,
    /// The transitions recorded at each byte position.
    pub paths: Vec<Vec<PathEntry>>,
}

/// The edges ending at `pos`; none past the table.
pub open spec fn edges_v(lat: Lattice, pos: int) -> Seq<LatticeEdge> {
    if 0 <= pos < lat.ends_at@.len() {
        lat.ends_at@[pos]@
    } else {
        Seq::empty()
    }
}

/// The transitions recorded at `pos`; none past the table.
pub open spec fn paths_v(lat: Lattice, pos: int) -> Seq<PathEntry> {
    if 0 <= pos < lat.paths@.len() {
        lat.paths@[pos]@
    } else {
        Seq::empty()
    }
}

impl Lattice {
    /// Byte length of the text.
    pub fn text_len(&self) -> (r: usize)
        ensures
            r == self.text_len,
    {
        self.text_len
    }
}

/// A partial path of the search, from the end edge back to one edge.
#[derive(Debug, Clone, Copy)]
pub struct QueueElement {
    /// Where the edge ends.
    pub byte_pos: u32,
    /// Index of the edge among those ending there.
    pub edge_index: u16,
    /// Estimated total cost: `gx` plus the edge's path cost.
    pub fx: i64,
    /// Cost accumulated from the end back to this edge.
    pub gx: i64,
    /// The element this one was reached from (toward the end).
    pub prev: Option<usize>,
}

/// The state of the search: the pending partial paths and the expanded
/// ones.
pub struct SearchState {
    pub queue: Seq<QueueElement>,
    pub elements: Seq<QueueElement>,
}

/// The first position of the pending paths with the least estimate.
pub open spec fn min_index(q: Seq<QueueElement>) -> int
    decreases q.len(),
{
    if q.len() <= 1 {
        0
    } else {
        let m = min_index(q.drop_last());
        if q.last().fx < q[m].fx {
            q.len() - 1
        } else {
            m
        }
    }
}

/// The words of the path that ends with expanded element `at`, from the
/// start of the text on (end edges, which span nothing, are left out).
pub open spec fn path_from(lat: Lattice, elements: Seq<QueueElement>, at: Option<usize>) -> Seq<(usize, WordId)>
    decreases (if at is Some {
        at->0 + 1
    } else {
        0
    }),
{
    match at {
        None => Seq::empty(),
        Some(i) => if i >= elements.len() {
            Seq::empty()
        } else {
            let e = elements[i as int];
            let edges = edges_v(lat, e.byte_pos as int);
            let here = if (e.edge_index as int) < edges.len() && edges[e.edge_index as int].start_index
                != edges[e.edge_index as int].stop_index {
                seq![(edges[e.edge_index as int].start_index as usize, edges[e.edge_index as int].word_entry.word_id)]
            } else {
                Seq::empty()
            };
            let rest = match e.prev {
                Some(j) => if j < i {
                    path_from(lat, elements, Some(j))
                } else {
                    Seq::empty()
                },
                None => Seq::empty(),
            };
            here + rest
        },
    }
}

/// The partial path one transition further back: its cost so far grows by
/// the transition's connection cost and penalty and by the word's cost (in
/// wrapping `i64` arithmetic), and its estimate is that plus the
/// predecessor's path cost.
pub open spec fn extended(cur: QueueElement, edge: LatticeEdge, p: PathEntry, left: LatticeEdge, idx: usize) -> QueueElement {
    let conn = (p.cost as i64 - left.path_cost as i64) as i64;
    let gx = cur.gx.wrapping_add(conn).wrapping_add(edge.word_entry.word_cost as i64);
    QueueElement {
        byte_pos: p.left_pos,
        edge_index: p.left_index,
        fx: (left.path_cost as i64).wrapping_add(gx),
        gx,
        prev: Some(idx),
    }
}

/// The partial paths that the transitions `ps` into the edge of `cur` add,
/// in order; a transition to a predecessor that is not there adds none.
pub open spec fn expansions(
    lat: Lattice,
    cur: QueueElement,
    edge: LatticeEdge,
    idx: usize,
    ps: Seq<PathEntry>,
) -> Seq<QueueElement>
    decreases ps.len(),
{
    if ps.len() == 0 {
        Seq::empty()
    } else {
        let before = expansions(lat, cur, edge, idx, ps.drop_last());
        let p = ps.last();
        let lefts = edges_v(lat, p.left_pos as int);
        if p.edge_index == cur.edge_index && (p.left_index as int) < lefts.len() {
            before.push(extended(cur, edge, p, lefts[p.left_index as int], idx))
        } else {
            before
        }
    }
}

/// One step of the search from a state with pending paths: the first one
/// with the least estimate is taken out; if its edge is not there it is
/// dropped; if its edge is the start edge its path is the answer, with its
/// estimate as cost; otherwise it is kept and the paths one transition
/// further back are added.
pub open spec fn step(lat: Lattice, st: SearchState) -> (SearchState, Option<(Seq<(usize, WordId)>, i64)>) {
    let m = min_index(st.queue);
    let cur = st.queue[m];
    let q = st.queue.remove(m);
    let edges = edges_v(lat, cur.byte_pos as int);
    if (cur.edge_index as int) >= edges.len() {
        (SearchState { queue: q, elements: st.elements }, None)
    } else {
        let edge = edges[cur.edge_index as int];
        if edge.left_index == u16::MAX {
            (SearchState { queue: q, elements: st.elements }, Some((path_from(lat, st.elements, cur.prev), cur.fx)))
        } else {
            let idx = st.elements.len() as usize;
            (
                SearchState {
                    queue: q + expansions(lat, cur, edge, idx, paths_v(lat, cur.byte_pos as int)),
                    elements: st.elements.push(cur),
                },
                None,
            )
        }
    }
}

/// The search run for at most `fuel` steps from `st` until a path is found
/// or nothing is pending: the state then and the path found, or `None`
/// when the steps do not suffice.
pub open spec fn run(lat: Lattice, st: SearchState, fuel: nat) -> Option<
    (SearchState, Option<(Seq<(usize, WordId)>, i64)>),
>
    decreases fuel,
{
    if st.queue.len() == 0 {
        Some((st, None))
    } else if fuel == 0 {
        None
    } else {
        let (s1, r) = step(lat, st);
        if r is Some {
            Some((s1, r))
        } else {
            run(lat, s1, (fuel - 1) as nat)
        }
    }
}

/// The state the search starts from: the end edge (the last edge ending at
/// the end of the text) with nothing accumulated, or nothing pending when
/// no edge ends there.
pub open spec fn initial_state(lat: Lattice) -> SearchState {
    let eos = edges_v(lat, lat.text_len as int);
    if eos.len() == 0 {
        SearchState { queue: Seq::empty(), elements: Seq::empty() }
    } else {
        let i = (eos.len() - 1) as u16;
        SearchState {
            queue: seq![
                QueueElement {
                    byte_pos: lat.text_len as u32,
                    edge_index: i,
                    fx: eos[i as int].path_cost as i64,
                    gx: 0,
                    prev: None,
                },
            ],
            elements: Seq::empty(),
        }
    }
}

/// Whether a state can be searched on: each expanded element was reached
/// from an earlier one and has its edge, and each pending one was reached
/// from an expanded one.
pub open spec fn state_wf(lat: Lattice, st: SearchState) -> bool {
    &&& forall|i: int|
        0 <= i < st.elements.len() ==> (#[trigger] st.elements[i]).edge_index < edges_v(
            lat,
            st.elements[i].byte_pos as int,
        ).len() && (st.elements[i].prev matches Some(j) ==> j < i)
    &&& forall|i: int|
        0 <= i < st.queue.len() ==> ((#[trigger] st.queue[i]).prev matches Some(j) ==> j < st.elements.len())
}

/// Whether a transition recorded at `pos` leads back: to an edge ending
/// earlier, or ending at `pos` and listed before the edge it leads into.
pub open spec fn leads_back(pos: int, p: PathEntry) -> bool {
    (p.left_pos as int) < pos || (p.left_pos as int == pos && p.left_index < p.edge_index)
}

/// Whether every recorded transition leads back, as those of a forward pass
/// over the text do.
pub open spec fn lattice_wf(lat: Lattice) -> bool {
    forall|pos: int, k: int|
        0 <= pos < lat.paths@.len() && 0 <= k < lat.paths@[pos]@.len() ==> leads_back(pos, #[trigger] lat.paths@[pos]@[k])
}

/// The number of partial paths that the search can still take out for the
/// edge `idx` ending at `pos`: itself and those of its predecessors.
pub open spec fn weight(lat: Lattice, pos: nat, idx: nat) -> nat
    decreases pos, idx, paths_v(lat, pos as int).len() + 1,
{
    1 + weight_list(lat, paths_v(lat, pos as int), pos, idx)
}

/// The weights of the predecessors that the transitions `ps` (recorded at
/// `pos`) give the edge `idx`.
pub open spec fn weight_list(lat: Lattice, ps: Seq<PathEntry>, pos: nat, idx: nat) -> nat
    decreases pos, idx, ps.len(),
{
    if ps.len() == 0 {
        0
    } else {
        let p = ps.last();
        let here = if p.edge_index as nat == idx && (p.left_index as int) < edges_v(lat, p.left_pos as int).len()
            && leads_back(pos as int, p) {
            weight(lat, p.left_pos as nat, p.left_index as nat)
        } else {
            0
        };
        weight_list(lat, ps.drop_last(), pos, idx) + here
    }
}

/// The weights of the pending partial paths, added up.
pub open spec fn queue_weight(lat: Lattice, q: Seq<QueueElement>) -> nat
    decreases q.len(),
{
    if q.len() == 0 {
        0
    } else {
        queue_weight(lat, q.drop_last()) + weight(lat, q.last().byte_pos as nat, q.last().edge_index as nat)
    }
}

proof fn lemma_queue_weight_concat(lat: Lattice, a: Seq<QueueElement>, b: Seq<QueueElement>)
    ensures
        queue_weight(lat, a + b) == queue_weight(lat, a) + queue_weight(lat, b),
    decreases b.len(),
{
    if b.len() == 0 {
        assert(a + b =~= a);
    } else {
        assert((a + b).drop_last() =~= a + b.drop_last());
        lemma_queue_weight_concat(lat, a, b.drop_last());
    }
}

proof fn lemma_queue_weight_remove(lat: Lattice, q: Seq<QueueElement>, m: int)
    requires
        0 <= m < q.len(),
    ensures
        queue_weight(lat, q) == queue_weight(lat, q.remove(m)) + weight(
            lat,
            q[m].byte_pos as nat,
            q[m].edge_index as nat,
        ),
{
    let a = q.take(m);
    let b = q.skip(m + 1);
    let one = seq![q[m]];
    assert(q =~= a + one + b);
    assert(q.remove(m) =~= a + b);
    lemma_queue_weight_concat(lat, a + one, b);
    lemma_queue_weight_concat(lat, a, one);
    lemma_queue_weight_concat(lat, a, b);
    assert(one.drop_last() =~= Seq::<QueueElement>::empty());
    assert(queue_weight(lat, Seq::<QueueElement>::empty()) == 0);
    assert(one.last() == q[m]);
    assert(queue_weight(lat, one) == weight(lat, q[m].byte_pos as nat, q[m].edge_index as nat));
}

proof fn lemma_expansions_weight(
    lat: Lattice,
    cur: QueueElement,
    edge: LatticeEdge,
    idx: usize,
    ps: Seq<PathEntry>,
)
    requires
        forall|k: int| 0 <= k < ps.len() ==> leads_back(cur.byte_pos as int, #[trigger] ps[k]),
    ensures
        queue_weight(lat, expansions(lat, cur, edge, idx, ps)) == weight_list(
            lat,
            ps,
            cur.byte_pos as nat,
            cur.edge_index as nat,
        ),
    decreases ps.len(),
{
    if ps.len() > 0 {
        lemma_expansions_weight(lat, cur, edge, idx, ps.drop_last());
        let before = expansions(lat, cur, edge, idx, ps.drop_last());
        let p = ps.last();
        assert(leads_back(cur.byte_pos as int, ps[ps.len() - 1]));
        let lefts = edges_v(lat, p.left_pos as int);
        if p.edge_index == cur.edge_index && (p.left_index as int) < lefts.len() {
            let e = extended(cur, edge, p, lefts[p.left_index as int], idx);
            assert(before.push(e).drop_last() =~= before);
        }
    }
}

proof fn lemma_exps_linked(lat: Lattice, cur: QueueElement, edge: LatticeEdge, idx: usize, ps: Seq<PathEntry>)
    ensures
        forall|i: int|
            0 <= i < expansions(lat, cur, edge, idx, ps).len() ==> (#[trigger] expansions(lat, cur, edge, idx, ps)[i]).prev
                == Some(idx),
    decreases ps.len(),
{
    if ps.len() > 0 {
        lemma_exps_linked(lat, cur, edge, idx, ps.drop_last());
    }
}

/// Whether the estimate of each pending partial path whose edge is there is
/// its edge's path cost plus what it accumulated.
pub open spec fn estimates_exact(lat: Lattice, q: Seq<QueueElement>) -> bool {
    forall|i: int|
        0 <= i < q.len() ==> {
            let e = #[trigger] q[i];
            let es = edges_v(lat, e.byte_pos as int);
            (e.edge_index as int) < es.len() ==> e.fx == es[e.edge_index as int].path_cost + e.gx
        }
}

/// Whether the path cost of each edge is at most what each transition
/// recorded into it and the word's cost add up to, as a forward pass
/// makes it.
pub open spec fn forward_consistent(lat: Lattice) -> bool {
    forall|pos: int, k: int|
        0 <= pos < lat.paths@.len() && 0 <= k < lat.paths@[pos]@.len() ==> {
            let p = #[trigger] lat.paths@[pos]@[k];
            let es = edges_v(lat, pos);
            (p.edge_index as int) < es.len() ==> es[p.edge_index as int].path_cost <= p.cost
                + es[p.edge_index as int].word_entry.word_cost
        }
}

/// Whether the sums of one extension stay within `i64`.
pub open spec fn extension_fits(cur: QueueElement, edge: LatticeEdge, p: PathEntry, left: LatticeEdge) -> bool {
    let g = cur.gx + (p.cost - left.path_cost);
    let g2 = g + edge.word_entry.word_cost;
    &&& i64::MIN <= g <= i64::MAX
    &&& i64::MIN <= g2 <= i64::MAX
    &&& i64::MIN <= left.path_cost + g2 <= i64::MAX
}

/// Whether the sums of the next step stay within `i64`.
pub open spec fn step_fits(lat: Lattice, st: SearchState) -> bool {
    let cur = st.queue[min_index(st.queue)];
    let ps = paths_v(lat, cur.byte_pos as int);
    let es = edges_v(lat, cur.byte_pos as int);
    forall|k: int|
        0 <= k < ps.len() ==> {
            let p = #[trigger] ps[k];
            let lefts = edges_v(lat, p.left_pos as int);
            ((cur.edge_index as int) < es.len() && p.edge_index == cur.edge_index && (p.left_index as int)
                < lefts.len()) ==> extension_fits(cur, es[cur.edge_index as int], p, lefts[p.left_index as int])
        }
}

/// Whether the sums of the search stay within `i64` for up to `fuel` steps.
pub open spec fn run_fits(lat: Lattice, st: SearchState, fuel: nat) -> bool
    decreases fuel,
{
    if st.queue.len() == 0 || fuel == 0 {
        true
    } else {
        step_fits(lat, st) && (step(lat, st).1 is None ==> run_fits(lat, step(lat, st).0, (fuel - 1) as nat))
    }
}

/// The position `min_index` picks holds the least estimate.
pub proof fn lemma_min_index(q: Seq<QueueElement>)
    requires
        q.len() > 0,
    ensures
        0 <= min_index(q) < q.len(),
        forall|i: int| 0 <= i < q.len() ==> q[min_index(q)].fx <= #[trigger] q[i].fx,
    decreases q.len(),
{
    if q.len() > 1 {
        lemma_min_index(q.drop_last());
        let m = min_index(q.drop_last());
        assert forall|i: int| 0 <= i < q.len() implies q[min_index(q)].fx <= #[trigger] q[i].fx by {
            if i < q.len() - 1 {
                assert(q.drop_last()[i] == q[i]);
            }
        }
    }
}

proof fn lemma_expansions_order(
    lat: Lattice,
    cur: QueueElement,
    edge: LatticeEdge,
    idx: usize,
    ps: Seq<PathEntry>,
)
    requires
        cur.fx == edge.path_cost + cur.gx,
        forall|k: int|
            0 <= k < ps.len() ==> {
                let p = #[trigger] ps[k];
                let lefts = edges_v(lat, p.left_pos as int);
                &&& p.edge_index == cur.edge_index ==> edge.path_cost <= p.cost + edge.word_entry.word_cost
                &&& (p.edge_index == cur.edge_index && (p.left_index as int) < lefts.len()) ==> extension_fits(
                    cur,
                    edge,
                    p,
                    lefts[p.left_index as int],
                )
            },
    ensures
        forall|i: int|
            0 <= i < expansions(lat, cur, edge, idx, ps).len() ==> cur.fx <= (#[trigger] expansions(
                lat,
                cur,
                edge,
                idx,
                ps,
            )[i]).fx,
        estimates_exact(lat, expansions(lat, cur, edge, idx, ps)),
    decreases ps.len(),
{
    if ps.len() > 0 {
        lemma_expansions_order(lat, cur, edge, idx, ps.drop_last());
        let before = expansions(lat, cur, edge, idx, ps.drop_last());
        let p = ps.last();
        let lefts = edges_v(lat, p.left_pos as int);
        assert(ps[ps.len() - 1] == p);
        if p.edge_index == cur.edge_index && (p.left_index as int) < lefts.len() {
            let left = lefts[p.left_index as int];
            let e = extended(cur, edge, p, left, idx);
            let conn = (p.cost as i64 - left.path_cost as i64) as i64;
            assert(conn == p.cost - left.path_cost);
            assert(cur.gx.wrapping_add(conn) == cur.gx + conn);
            let g1 = cur.gx.wrapping_add(conn);
            assert(g1.wrapping_add(edge.word_entry.word_cost as i64) == g1 + edge.word_entry.word_cost);
            assert(e.gx == cur.gx + conn + edge.word_entry.word_cost);
            assert(e.fx == left.path_cost + e.gx);
            let after = before.push(e);
            assert forall|i: int| 0 <= i < after.len() implies cur.fx <= (#[trigger] after[i]).fx by {
                if i < before.len() {
                    assert(after[i] == before[i]);
                }
            }
            assert forall|i: int| 0 <= i < after.len() implies {
                let x = #[trigger] after[i];
                let es = edges_v(lat, x.byte_pos as int);
                (x.edge_index as int) < es.len() ==> x.fx == es[x.edge_index as int].path_cost + x.gx
            } by {
                if i < before.len() {
                    assert(after[i] == before[i]);
                }
            }
        }
    }
}

/// One step keeps the order of the search: it takes out a pending path with
/// the least estimate, every path pending after it has at least that
/// estimate, and a path found costs that estimate; the estimates stay exact.
/// This holds where the forward pass is consistent and the step's sums stay
/// within `i64`.
pub proof fn lemma_step_order(lat: Lattice, st: SearchState)
    requires
        forward_consistent(lat),
        st.queue.len() > 0,
        estimates_exact(lat, st.queue),
        step_fits(lat, st),
    ensures
        ({
            let least = st.queue[min_index(st.queue)].fx;
            let (s1, r) = step(lat, st);
            &&& forall|i: int| 0 <= i < st.queue.len() ==> least <= #[trigger] st.queue[i].fx
            &&& estimates_exact(lat, s1.queue)
            &&& forall|i: int| 0 <= i < s1.queue.len() ==> least <= #[trigger] s1.queue[i].fx
            &&& r matches Some((_, cost)) ==> cost == least
        }),
{
    lemma_min_index(st.queue);
    let m = min_index(st.queue);
    let cur = st.queue[m];
    let q = st.queue.remove(m);
    assert forall|i: int| 0 <= i < q.len() implies cur.fx <= #[trigger] q[i].fx && {
        let e = q[i];
        let es = edges_v(lat, e.byte_pos as int);
        (e.edge_index as int) < es.len() ==> e.fx == es[e.edge_index as int].path_cost + e.gx
    } by {
        if i < m {
            assert(q[i] == st.queue[i]);
        } else {
            assert(q[i] == st.queue[i + 1]);
        }
    }
    let es = edges_v(lat, cur.byte_pos as int);
    if (cur.edge_index as int) < es.len() {
        let edge = es[cur.edge_index as int];
        if edge.left_index != u16::MAX {
            let ps = paths_v(lat, cur.byte_pos as int);
            let idx = st.elements.len() as usize;
            assert(st.queue[m] == cur);
            assert forall|k: int| 0 <= k < ps.len() implies {
                let p = #[trigger] ps[k];
                let lefts = edges_v(lat, p.left_pos as int);
                &&& p.edge_index == cur.edge_index ==> edge.path_cost <= p.cost + edge.word_entry.word_cost
                &&& (p.edge_index == cur.edge_index && (p.left_index as int) < lefts.len()) ==> extension_fits(
                    cur,
                    edge,
                    p,
                    lefts[p.left_index as int],
                )
            } by {
                assert(lat.paths@[cur.byte_pos as int]@[k] == ps[k]);
            }
            lemma_expansions_order(lat, cur, edge, idx, ps);
            let exps = expansions(lat, cur, edge, idx, ps);
            let q2 = q + exps;
            assert forall|i: int| 0 <= i < q2.len() implies cur.fx <= #[trigger] q2[i].fx && {
                let e = q2[i];
                let es2 = edges_v(lat, e.byte_pos as int);
                (e.edge_index as int) < es2.len() ==> e.fx == es2[e.edge_index as int].path_cost + e.gx
            } by {
                if i < q.len() {
                    assert(q2[i] == q[i]);
                } else {
                    assert(q2[i] == exps[i - q.len()]);
                }
            }
        }
    }
}

/// The search gives its paths in order of cost: the cost of a path found is
/// at least the bound that every pending estimate had, and every path
/// pending afterwards has at least that cost, so the path the search finds
/// next costs no less. This holds where the forward pass is consistent, the
/// estimates are exact and the search's sums stay within `i64`.
pub proof fn lemma_run_order(lat: Lattice, st: SearchState, fuel: nat, bound: int)
    requires
        forward_consistent(lat),
        estimates_exact(lat, st.queue),
        forall|i: int| 0 <= i < st.queue.len() ==> bound <= #[trigger] st.queue[i].fx,
        run_fits(lat, st, fuel),
    ensures
        run(lat, st, fuel) matches Some((s1, r)) ==> {
            &&& estimates_exact(lat, s1.queue)
            &&& r matches Some((_, cost)) ==> bound <= cost && forall|i: int|
                0 <= i < s1.queue.len() ==> cost <= #[trigger] s1.queue[i].fx
        },
    decreases fuel,
{
    if st.queue.len() > 0 && fuel > 0 {
        lemma_step_order(lat, st);
        let least = st.queue[min_index(st.queue)].fx;
        let (s1, r) = step(lat, st);
        lemma_min_index(st.queue);
        if r is None {
            lemma_run_order(lat, s1, (fuel - 1) as nat, least as int);
        }
    }
}

/// Successive paths of the search cost no less than the ones before, where
/// the forward pass is consistent, the estimates are exact at the start and
/// the sums stay within `i64`.
pub proof fn lemma_successive_paths(
    lat: Lattice,
    st: SearchState,
    f1: nat,
    f2: nat,
    s1: SearchState,
    s2: SearchState,
    p1: Seq<(usize, WordId)>,
    p2: Seq<(usize, WordId)>,
    c1: i64,
    c2: i64,
)
    requires
        forward_consistent(lat),
        estimates_exact(lat, st.queue),
        run_fits(lat, st, f1),
        run_fits(lat, s1, f2),
        run(lat, st, f1) == Some((s1, Some((p1, c1)))),
        run(lat, s1, f2) == Some((s2, Some((p2, c2)))),
    ensures
        c1 <= c2,
{
    lemma_run_order(lat, st, f1, i64::MIN as int);
    lemma_run_order(lat, s1, f2, c1 as int);
}

/// The search starts with exact estimates, for a text whose length fits
/// the `u32` positions of the search.
pub proof fn lemma_initial_exact(lat: Lattice)
    requires
        lat.text_len <= u32::MAX,
    ensures
        estimates_exact(lat, initial_state(lat).queue),
{
    let eos = edges_v(lat, lat.text_len as int);
    if eos.len() > 0 {
        let q = initial_state(lat).queue;
        assert((lat.text_len as u32) as int == lat.text_len as int);
        assert(q[0].fx == eos[q[0].edge_index as int].path_cost + q[0].gx);
    }
}

/// Once nothing is pending the search gives `None` and stays where it is:
/// a run that ends without a path ends with nothing pending, and every run
/// from there gives `None` again.
pub proof fn lemma_none_repeats(lat: Lattice, st: SearchState, fuel: nat)
    ensures
        run(lat, st, fuel) matches Some((s1, r)) ==> (r is None ==> s1.queue.len() == 0 && forall|f: nat|
            #[trigger] run(lat, s1, f) == Some((s1, None::<(Seq<(usize, WordId)>, i64)>))),
    decreases fuel,
{
    if st.queue.len() > 0 && fuel > 0 {
        let (s1, r) = step(lat, st);
        if r is None {
            lemma_none_repeats(lat, s1, (fuel - 1) as nat);
        }
    }
}

/// Whether the start edge is reached back from edge `idx` ending at `pos`
/// over recorded transitions that attain the path cost: the edge is there,
/// and it is the start edge or such a transition leads to an edge from
/// which the start edge is reached.
pub open spec fn reaches_start(lat: Lattice, pos: nat, idx: nat) -> bool
    decreases pos, idx, paths_v(lat, pos as int).len() + 1,
{
    let es = edges_v(lat, pos as int);
    (idx as int) < es.len() && (es[idx as int].left_index == u16::MAX || reaches_list(
        lat,
        paths_v(lat, pos as int),
        pos,
        idx,
    ))
}

/// Whether one of the transitions `ps` (recorded at `pos`) into edge `idx`
/// leads back, attains the edge's path cost and leads to an edge from
/// which the start edge is reached.
pub open spec fn reaches_list(lat: Lattice, ps: Seq<PathEntry>, pos: nat, idx: nat) -> bool
    decreases pos, idx, ps.len(),
{
    if ps.len() == 0 {
        false
    } else {
        let p = ps.last();
        let es = edges_v(lat, pos as int);
        let lefts = edges_v(lat, p.left_pos as int);
        reaches_list(lat, ps.drop_last(), pos, idx) || (p.edge_index as nat == idx && (idx as int) < es.len()
            && (p.left_index as int) < lefts.len() && leads_back(pos as int, p) && p.cost
            + es[idx as int].word_entry.word_cost == es[idx as int].path_cost && reaches_start(
            lat,
            p.left_pos as nat,
            p.left_index as nat,
        ))
    }
}

proof fn lemma_reaches_list(lat: Lattice, ps: Seq<PathEntry>, pos: nat, idx: nat)
    requires
        reaches_list(lat, ps, pos, idx),
    ensures
        exists|k: int|
            0 <= k < ps.len() && {
                let p = #[trigger] ps[k];
                let es = edges_v(lat, pos as int);
                let lefts = edges_v(lat, p.left_pos as int);
                &&& p.edge_index as nat == idx
                &&& (idx as int) < es.len()
                &&& (p.left_index as int) < lefts.len()
                &&& p.cost + es[idx as int].word_entry.word_cost == es[idx as int].path_cost
                &&& reaches_start(lat, p.left_pos as nat, p.left_index as nat)
            },
    decreases ps.len(),
{
    if reaches_list(lat, ps.drop_last(), pos, idx) {
        lemma_reaches_list(lat, ps.drop_last(), pos, idx);
        let k = choose|k: int|
            0 <= k < ps.drop_last().len() && {
                let p = #[trigger] ps.drop_last()[k];
                let es = edges_v(lat, pos as int);
                let lefts = edges_v(lat, p.left_pos as int);
                &&& p.edge_index as nat == idx
                &&& (idx as int) < es.len()
                &&& (p.left_index as int) < lefts.len()
                &&& p.cost + es[idx as int].word_entry.word_cost == es[idx as int].path_cost
                &&& reaches_start(lat, p.left_pos as nat, p.left_index as nat)
            };
        assert(ps[k] == ps.drop_last()[k]);
    } else {
        assert(ps[ps.len() - 1] == ps.last());
    }
}

proof fn lemma_expansions_has(lat: Lattice, cur: QueueElement, edge: LatticeEdge, idx: usize, ps: Seq<PathEntry>, k: int)
    requires
        0 <= k < ps.len(),
        ps[k].edge_index == cur.edge_index,
        (ps[k].left_index as int) < edges_v(lat, ps[k].left_pos as int).len(),
    ensures
        exists|t: int|
            0 <= t < expansions(lat, cur, edge, idx, ps).len() && #[trigger] expansions(lat, cur, edge, idx, ps)[t]
                == extended(cur, edge, ps[k], edges_v(lat, ps[k].left_pos as int)[ps[k].left_index as int], idx),
    decreases ps.len(),
{
    let before = expansions(lat, cur, edge, idx, ps.drop_last());
    if k == ps.len() - 1 {
        assert(ps.last() == ps[k]);
        let e = extended(cur, edge, ps[k], edges_v(lat, ps[k].left_pos as int)[ps[k].left_index as int], idx);
        assert(expansions(lat, cur, edge, idx, ps)[before.len() as int] == e);
    } else {
        assert(ps.drop_last()[k] == ps[k]);
        lemma_expansions_has(lat, cur, edge, idx, ps.drop_last(), k);
        let t = choose|t: int|
            0 <= t < before.len() && #[trigger] before[t] == extended(
                cur,
                edge,
                ps[k],
                edges_v(lat, ps[k].left_pos as int)[ps[k].left_index as int],
                idx,
            );
        assert(expansions(lat, cur, edge, idx, ps)[t] == before[t]);
    }
}

/// Whether some pending partial path has estimate `least` and an edge from
/// which the start edge is reached.
pub open spec fn tight_pending(lat: Lattice, q: Seq<QueueElement>, least: int) -> bool {
    exists|i: int|
        0 <= i < q.len() && (#[trigger] q[i]).fx == least && reaches_start(lat, q[i].byte_pos as nat, q[i].edge_index as nat)
}

/// While a partial path with the least possible estimate is pending and its
/// edge reaches the start edge, the search keeps something pending and the
/// path it finds costs exactly that estimate.
pub proof fn lemma_found_cost_is_least(lat: Lattice, st: SearchState, fuel: nat, least: int)
    requires
        forward_consistent(lat),
        estimates_exact(lat, st.queue),
        forall|i: int| 0 <= i < st.queue.len() ==> least <= #[trigger] st.queue[i].fx,
        tight_pending(lat, st.queue, least),
        run_fits(lat, st, fuel),
    ensures
        run(lat, st, fuel) matches Some((_, r)) ==> r matches Some((_, c)) && c == least,
    decreases fuel,
{
    let j = choose|i: int|
        0 <= i < st.queue.len() && (#[trigger] st.queue[i]).fx == least && reaches_start(
            lat,
            st.queue[i].byte_pos as nat,
            st.queue[i].edge_index as nat,
        );
    if fuel > 0 {
        lemma_step_order(lat, st);
        lemma_min_index(st.queue);
        let m = min_index(st.queue);
        let cur = st.queue[m];
        assert(cur.fx <= st.queue[j].fx);
        assert(cur.fx == least);
        let (s1, r) = step(lat, st);
        if r is None {
            let q = st.queue.remove(m);
            if j != m {
                let jj = if j < m {
                    j
                } else {
                    j - 1
                };
                assert(q[jj] == st.queue[j]);
                assert(s1.queue[jj] == q[jj]);
                assert(tight_pending(lat, s1.queue, least));
            } else {
                let es = edges_v(lat, cur.byte_pos as int);
                let edge = es[cur.edge_index as int];
                let ps = paths_v(lat, cur.byte_pos as int);
                let idx = st.elements.len() as usize;
                assert(reaches_start(lat, cur.byte_pos as nat, cur.edge_index as nat));
                lemma_reaches_list(lat, ps, cur.byte_pos as nat, cur.edge_index as nat);
                let k = choose|k: int|
                    0 <= k < ps.len() && {
                        let p = #[trigger] ps[k];
                        let es2 = edges_v(lat, cur.byte_pos as int);
                        let lefts = edges_v(lat, p.left_pos as int);
                        &&& p.edge_index as nat == cur.edge_index as nat
                        &&& (cur.edge_index as int) < es2.len()
                        &&& (p.left_index as int) < lefts.len()
                        &&& p.cost + es2[cur.edge_index as int].word_entry.word_cost == es2[cur.edge_index as int].path_cost
                        &&& reaches_start(lat, p.left_pos as nat, p.left_index as nat)
                    };
                let p = ps[k];
                let left = edges_v(lat, p.left_pos as int)[p.left_index as int];
                lemma_expansions_has(lat, cur, edge, idx, ps, k);
                let exps = expansions(lat, cur, edge, idx, ps);
                let t = choose|t: int| 0 <= t < exps.len() && #[trigger] exps[t] == extended(cur, edge, p, left, idx);
                assert(extension_fits(cur, edge, p, left));
                let e = extended(cur, edge, p, left, idx);
                let conn = (p.cost as i64 - left.path_cost as i64) as i64;
                assert(conn == p.cost - left.path_cost);
                assert(cur.gx.wrapping_add(conn) == cur.gx + conn);
                let g1 = cur.gx.wrapping_add(conn);
                assert(g1.wrapping_add(edge.word_entry.word_cost as i64) == g1 + edge.word_entry.word_cost);
                assert(e.fx == least);
                assert(s1.queue[q.len() + t] == e);
                assert(tight_pending(lat, s1.queue, least));
            }
            lemma_found_cost_is_least(lat, s1, (fuel - 1) as nat, least);
        }
    }
}

/// The first path the search finds costs the path cost of the end edge,
/// which the forward pass makes the least cost of a path through the
/// lattice. This holds where the forward pass is consistent, the end edge
/// reaches the start edge over transitions that attain the path costs, the
/// text's length fits `u32` and the search's sums stay within `i64`.
pub proof fn lemma_first_path_least(lat: Lattice, fuel: nat)
    requires
        forward_consistent(lat),
        lat.text_len <= u32::MAX,
        edges_v(lat, lat.text_len as int).len() > 0,
        reaches_start(
            lat,
            lat.text_len as nat,
            ((edges_v(lat, lat.text_len as int).len() - 1) as u16) as nat,
        ),
        run_fits(lat, initial_state(lat), fuel),
    ensures
        run(lat, initial_state(lat), fuel) matches Some((_, r)) ==> r matches Some((_, c)) && c == edges_v(
            lat,
            lat.text_len as int,
        )[((edges_v(lat, lat.text_len as int).len() - 1) as u16) as int].path_cost,
{
    let st = initial_state(lat);
    lemma_initial_exact(lat);
    let e0 = st.queue[0];
    assert((lat.text_len as u32) as int == lat.text_len as int);
    assert(e0.byte_pos as nat == lat.text_len as nat);
    assert(tight_pending(lat, st.queue, e0.fx as int));
    lemma_found_cost_is_least(lat, st, fuel, e0.fx as int);
}

/// The result of the search, as values.
pub open spec fn result_view(r: Option<(Vec<(usize, WordId)>, i64)>) -> Option<(Seq<(usize, WordId)>, i64)> {
    match r {
        Some((p, c)) => Some((p@, c)),
        None => None,
    }
}

/// Generates the paths through a lattice by backward A* search.
pub struct NBestGenerator<'a> {
    /// The lattice searched.
    pub lattice: &'a Lattice,
    /// The pending partial paths.
    pub queue: Vec<QueueElement>,
    /// The expanded partial paths, which the pending ones link back to.
    pub elements: Vec<QueueElement>,
}

impl<'a> NBestGenerator<'a> {
    /// The state of the search.
    pub open spec fn state(&self) -> SearchState {
        SearchState { queue: self.queue@, elements: self.elements@ }
    }

    /// Whether the search can go on.
    pub open spec fn wf(&self) -> bool {
        state_wf(*self.lattice, self.state())
    }

    /// A generator that starts from the end edge of the lattice.
    pub fn new(lattice: &'a Lattice) -> (r: Self)
        ensures
            r.lattice == lattice,
            r.state() == initial_state(*lattice),
            r.wf(),
    {
        let mut generator = NBestGenerator { lattice, queue: Vec::new(), elements: Vec::new() };
        generator.init();
        generator
    }

    /// Puts the end edge on the queue.
    fn init(&mut self)
        requires
            old(self).queue@.len() == 0,
            old(self).elements@.len() == 0,
        ensures
            final(self).lattice == old(self).lattice,
            final(self).state() == initial_state(*old(self).lattice),
    {
        let ghost lat = *self.lattice;
        let text_len = self.lattice.text_len();
        if text_len >= self.lattice.ends_at.len() {
            assert(self.queue@ =~= initial_state(lat).queue);
            assert(self.elements@ =~= initial_state(lat).elements);
            return;
        }
        let eos_edges = &self.lattice.ends_at[text_len];
        if eos_edges.len() == 0 {
            assert(self.queue@ =~= initial_state(lat).queue);
            assert(self.elements@ =~= initial_state(lat).elements);
            return;
        }
        let eos_index = (eos_edges.len() - 1) as u16;
        let eos_edge = eos_edges[eos_index as usize];
        let elem = QueueElement {
            byte_pos: text_len as u32,
            edge_index: eos_index,
            fx: eos_edge.path_cost as i64,
            gx: 0,
            prev: None,
        };
        self.queue.push(elem);
        assert(eos_edges@ == edges_v(lat, text_len as int));
        assert(self.queue@ =~= initial_state(lat).queue);
        assert(self.elements@ =~= initial_state(lat).elements);
    }

    /// The first position of the queue with the least estimate.
    fn min_position(&self) -> (r: usize)
        requires
            self.queue@.len() > 0,
        ensures
            r as int == min_index(self.queue@),
            r < self.queue@.len(),
    {
        let mut best: usize = 0;
        let mut i: usize = 1;
        assert(self.queue@.take(1).drop_last() =~= Seq::<QueueElement>::empty());
        while i < self.queue.len()
            invariant
                1 <= i <= self.queue@.len(),
                best < i,
                best as int == min_index(self.queue@.take(i as int)),
            decreases self.queue@.len() - i,
        {
            let ghost t = self.queue@.take(i + 1);
            assert(t.drop_last() =~= self.queue@.take(i as int));
            if self.queue[i].fx < self.queue[best].fx {
                best = i;
            }
            i += 1;
        }
        assert(self.queue@.take(self.queue@.len() as int) =~= self.queue@);
        best
    }

    /// The words of the path that ends with the start element `bos`.
    fn reconstruct_path(&self, bos: &QueueElement) -> (r: Vec<(usize, WordId)>)
        requires
            self.wf(),
            bos.prev matches Some(j) ==> j < self.elements@.len(),
        ensures
            r@ == path_from(*self.lattice, self.elements@, bos.prev),
    {
        let ghost lat = *self.lattice;
        let mut path: Vec<(usize, WordId)> = Vec::new();
        let mut maybe_idx = bos.prev;
        while maybe_idx.is_some()
            invariant
                self.wf(),
                lat == *self.lattice,
                maybe_idx matches Some(j) ==> j < self.elements@.len(),
                path@ + path_from(lat, self.elements@, maybe_idx) == path_from(lat, self.elements@, bos.prev),
            decreases (if maybe_idx is Some {
                maybe_idx->0 + 1
            } else {
                0
            }),
        {
            let idx = match maybe_idx {
                Some(i) => i,
                None => 0,
            };
            let elem = self.elements[idx];
            assert(self.elements@[idx as int] == elem);
            let pos = elem.byte_pos as usize;
            let ghost edges = edges_v(lat, pos as int);
            let edge = self.lattice.ends_at[pos][elem.edge_index as usize];
            let ghost before = path@;
            if edge.start_index != edge.stop_index {
                path.push((edge.start_index as usize, edge.word_entry.word_id));
            }
            proof {
                assert(edges[elem.edge_index as int] == edge);
                let rest = match elem.prev {
                    Some(j) => path_from(lat, self.elements@, Some(j)),
                    None => Seq::empty(),
                };
                assert(path_from(lat, self.elements@, elem.prev) == rest);
                if edge.start_index != edge.stop_index {
                    assert(path@ + rest =~= before + (seq![(edge.start_index as usize, edge.word_entry.word_id)]
                        + rest));
                } else {
                    assert(path@ + rest =~= before + (Seq::<(usize, WordId)>::empty() + rest));
                }
            }
            maybe_idx = elem.prev;
        }
        assert(path@ + Seq::<(usize, WordId)>::empty() =~= path@);
        path
    }

    /// The next path, with its cost, or `None` when no path is left: the
    /// search is run, one step at a time (see `step`), until a partial path
    /// reaches the start edge or nothing is pending.
    pub fn next(&mut self) -> (r: Option<(Vec<(usize, WordId)>, i64)>)
        requires
            old(self).wf(),
            lattice_wf(*old(self).lattice),
        ensures
            final(self).lattice == old(self).lattice,
            final(self).wf(),
            exists|fuel: nat|
                run(*old(self).lattice, old(self).state(), fuel) == Some((final(self).state(), result_view(r))),
    {
        let ghost lat = *self.lattice;
        let ghost s0 = self.state();
        let ghost mut steps: nat = 0;
        assert(forall|f: nat| #[trigger] run(lat, self.state(), f) == run(lat, s0, f + steps));
        while self.queue.len() > 0
            invariant
                lat == *self.lattice,
                lattice_wf(lat),
                self.lattice == old(self).lattice,
                s0 == old(self).state(),
                self.wf(),
                forall|f: nat| #[trigger] run(lat, self.state(), f) == run(lat, s0, f + steps),
            decreases queue_weight(lat, self.queue@),
        {
            let ghost cur_st = self.state();
            let m = self.min_position();
            let current = self.queue.remove(m);
            let ghost q1 = self.queue@;
            proof {
                lemma_queue_weight_remove(lat, cur_st.queue, m as int);
                assert(cur_st.queue[m as int] == current);
                assert forall|i: int| 0 <= i < q1.len() implies ((#[trigger] q1[i]).prev matches Some(j) ==> j
                    < self.elements@.len()) by {
                    if i < m {
                        assert(q1[i] == cur_st.queue[i]);
                    } else {
                        assert(q1[i] == cur_st.queue[i + 1]);
                    }
                }
            }
            let byte_pos = current.byte_pos as usize;
            let edge_index = current.edge_index as usize;
            if byte_pos >= self.lattice.ends_at.len() || edge_index >= self.lattice.ends_at[byte_pos].len() {
                proof {
                    assert(step(lat, cur_st) == (self.state(), None::<(Seq<(usize, WordId)>, i64)>));
                    assert forall|f: nat| #[trigger] run(lat, self.state(), f) == run(lat, s0, f + (steps + 1)) by {
                        assert(run(lat, cur_st, f + 1) == run(lat, self.state(), f));
                        assert(run(lat, cur_st, (f + 1) as nat) == run(lat, s0, (f + 1) + steps));
                    }
                    steps = steps + 1;
                }
                continue;
            }
            let edge = self.lattice.ends_at[byte_pos][edge_index];
            assert(edges_v(lat, byte_pos as int)[edge_index as int] == edge);
            if edge.left_index == u16::MAX {
                let path = self.reconstruct_path(&current);
                proof {
                    assert(step(lat, cur_st) == (self.state(), Some((path@, current.fx))));
                    assert(run(lat, cur_st, 1) == Some((self.state(), Some((path@, current.fx)))));
                    assert(run(lat, cur_st, 1) == run(lat, s0, 1 + steps));
                }
                return Some((path, current.fx));
            }
            let current_idx = self.elements.len();
            let ghost e0 = self.elements@;
            self.elements.push(current);
            let ghost ps = paths_v(lat, byte_pos as int);
            if byte_pos < self.lattice.paths.len() {
                let n = self.lattice.paths[byte_pos].len();
                let mut k: usize = 0;
                assert(ps.take(0) =~= Seq::<PathEntry>::empty());
                assert(q1 + Seq::<QueueElement>::empty() =~= q1);
                while k < n
                    invariant
                        lat == *self.lattice,
                        byte_pos < lat.paths@.len(),
                        ps == lat.paths@[byte_pos as int]@,
                        n == ps.len(),
                        k <= n,
                        current.byte_pos as int == byte_pos as int,
                        self.elements@ == e0.push(current),
                        current_idx == e0.len(),
                        self.queue@ == q1 + expansions(lat, current, edge, current_idx, ps.take(k as int)),
                    decreases n - k,
                {
                    let pe = self.lattice.paths[byte_pos][k];
                    let ghost before = self.queue@;
                    let ghost t = ps.take(k + 1);
                    assert(t.drop_last() =~= ps.take(k as int));
                    assert(t.last() == pe);
                    if pe.edge_index == current.edge_index {
                        let lp = pe.left_pos as usize;
                        let li = pe.left_index as usize;
                        if lp < self.lattice.ends_at.len() && li < self.lattice.ends_at[lp].len() {
                            let left = self.lattice.ends_at[lp][li];
                            assert(edges_v(lat, lp as int)[li as int] == left);
                            let conn = pe.cost as i64 - left.path_cost as i64;
                            let new_gx = current.gx.wrapping_add(conn).wrapping_add(edge.word_entry.word_cost as i64);
                            let new_fx = (left.path_cost as i64).wrapping_add(new_gx);
                            let elem = QueueElement {
                                byte_pos: pe.left_pos,
                                edge_index: pe.left_index,
                                fx: new_fx,
                                gx: new_gx,
                                prev: Some(current_idx),
                            };
                            assert(elem == extended(current, edge, pe, left, current_idx));
                            self.queue.push(elem);
                            assert(self.queue@ =~= q1 + expansions(lat, current, edge, current_idx, t));
                        }
                    }
                    k += 1;
                }
                assert(ps.take(n as int) =~= ps);
            } else {
                assert(ps =~= Seq::<PathEntry>::empty());
                assert(self.queue@ =~= q1 + expansions(lat, current, edge, current_idx, ps));
            }
            proof {
                let exps = expansions(lat, current, edge, current_idx, ps);
                assert(self.queue@ == q1 + exps);
                assert(step(lat, cur_st) == (self.state(), None::<(Seq<(usize, WordId)>, i64)>));
                assert forall|f: nat| #[trigger] run(lat, self.state(), f) == run(lat, s0, f + (steps + 1)) by {
                    assert(run(lat, cur_st, f + 1) == run(lat, self.state(), f));
                    assert(run(lat, cur_st, (f + 1) as nat) == run(lat, s0, (f + 1) + steps));
                }
                steps = steps + 1;
                assert forall|k: int| 0 <= k < ps.len() implies leads_back(current.byte_pos as int, #[trigger] ps[k]) by {
                    assert(lat.paths@[byte_pos as int]@[k] == ps[k]);
                }
                lemma_expansions_weight(lat, current, edge, current_idx, ps);
                lemma_queue_weight_concat(lat, q1, exps);
                lemma_exps_linked(lat, current, edge, current_idx, ps);
                assert forall|i: int| 0 <= i < self.queue@.len() implies ((#[trigger] self.queue@[i]).prev matches Some(
                    j,
                ) ==> j < self.elements@.len()) by {
                    if i < q1.len() {
                        assert(self.queue@[i] == q1[i]);
                    } else {
                        assert(self.queue@[i] == exps[i - q1.len()]);
                    }
                }
                assert forall|i: int| 0 <= i < self.elements@.len() implies (#[trigger] self.elements@[i]).edge_index
                    < edges_v(lat, self.elements@[i].byte_pos as int).len() && (self.elements@[i].prev matches Some(
                    j,
                ) ==> j < i) by {
                    if i < e0.len() {
                        assert(self.elements@[i] == e0[i]);
                    }
                }
            }
        }
        proof {
            assert(run(lat, self.state(), 0) == Some((self.state(), None::<(Seq<(usize, WordId)>, i64)>)));
        }
        None
    }
}

} // verus!
