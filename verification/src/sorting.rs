//! Stable sorting by text keys.
use vstd::prelude::*;
use crate::text::{seq_lt, views_of};

verus! {

/// Whether `perm` lists each of the indices `0..n` exactly once.
pub open spec fn is_index_perm(perm: Seq<usize>, n: int) -> bool {
    &&& perm.len() == n
    &&& forall|i: int| 0 <= i < n ==> (#[trigger] perm[i]) < n
    &&& forall|i: int, j: int| 0 <= i < j < n ==> #[trigger] perm[i] != #[trigger] perm[j]
}

/// Whether the indices in `perm` come in ascending order of their keys,
/// indices with equal keys in ascending order.
pub open spec fn stably_sorted_by(keys: Seq<Seq<char>>, perm: Seq<usize>) -> bool {
    forall|i: int, j: int|
        0 <= i < j < perm.len() ==> seq_lt(keys[#[trigger] perm[i] as int], keys[#[trigger] perm[j] as int])
            || (keys[perm[i] as int] == keys[perm[j] as int] && perm[i] < perm[j])
}

/// The items in the order of `perm`.
pub open spec fn permuted<T>(items: Seq<T>, perm: Seq<usize>) -> Seq<T> {
    perm.map_values(|i: usize| items[i as int])
}

/// Whether `sorted` is `items` sorted stably by `keys` (one key per item).
pub open spec fn stable_sort_of<T>(sorted: Seq<T>, items: Seq<T>, keys: Seq<Seq<char>>) -> bool {
    exists|perm: Seq<usize>|
        is_index_perm(perm, items.len() as int) && stably_sorted_by(keys, perm) && sorted == permuted(
            items,
            perm,
        )
}

/// The key of index `i`.
fn key_at(keys: &Vec<String>, i: usize) -> (r: String)
    requires
        i < keys@.len(),
    ensures
        r@ == keys@[i as int]@,
{
    keys[i].clone()
}

/// Sorts the indices `0..keys.len()` by their keys.
///
/// Calls `slice::sort_by_cached_key` with `key_at` as the key function. The
/// contract claims what the standard library documents: the result holds the
/// same indices, in ascending order of their keys (strings compare
/// lexicographically), and the sort is stable, so indices with equal keys
/// stay in ascending order.
#[verifier::external_body]
fn sort_indices_by_key(keys: &Vec<String>, idx: &mut Vec<usize>)
    requires
        old(idx)@ == Seq::new(keys@.len(), |i: int| i as usize),
    ensures
        is_index_perm(final(idx)@, keys@.len() as int),
        stably_sorted_by(views_of(keys@), final(idx)@),
{
    idx.sort_by_cached_key(|i| key_at(keys, *i));
}

/// The stable sorting order of the keys: the indices `0..keys.len()`, in
/// ascending order of their keys, equal keys in ascending index order.
pub fn stable_order(keys: &Vec<String>) -> (r: Vec<usize>)
    ensures
        is_index_perm(r@, keys@.len() as int),
        stably_sorted_by(views_of(keys@), r@),
{
    let mut idx: Vec<usize> = Vec::new();
    let mut i: usize = 0;
    while i < keys.len()
        invariant
            i <= keys@.len(),
            idx@ == Seq::new(i as nat, |k: int| k as usize),
        decreases keys@.len() - i,
    {
        idx.push(i);
        assert(idx@ =~= Seq::new((i + 1) as nat, |k: int| k as usize));
        i += 1;
    }
    sort_indices_by_key(keys, &mut idx);
    idx
}

/// The rows in the order of `perm`, moved out of `rows`.
pub fn take_in_order(rows: Vec<Vec<String>>, perm: &Vec<usize>) -> (r: Vec<Vec<String>>)
    requires
        is_index_perm(perm@, rows@.len() as int),
    ensures
        r@ == permuted(rows@, perm@),
{
    let ghost orig = rows@;
    let mut rows = rows;
    let mut out: Vec<Vec<String>> = Vec::new();
    let mut k: usize = 0;
    while k < perm.len()
        invariant
            is_index_perm(perm@, orig.len() as int),
            rows@.len() == orig.len(),
            k <= perm@.len(),
            out@ == permuted(orig, perm@).take(k as int),
            forall|q: int| k <= q < perm@.len() ==> rows@[#[trigger] perm@[q] as int] == orig[perm@[q] as int],
        decreases perm@.len() - k,
    {
        let p = perm[k];
        let mut tmp: Vec<String> = Vec::new();
        std::mem::swap(&mut tmp, &mut rows[p]);
        out.push(tmp);
        proof {
            assert(out@ =~= permuted(orig, perm@).take(k + 1));
            assert forall|q: int| k + 1 <= q < perm@.len() implies rows@[#[trigger] perm@[q] as int]
                == orig[perm@[q] as int] by {
                assert(perm@[q] != perm@[k as int]);
            }
        }
        k += 1;
    }
    assert(permuted(orig, perm@).take(perm@.len() as int) =~= permuted(orig, perm@));
    out
}

/// Sorts the rows stably by their keys (one key per row).
pub fn sort_rows_by_keys(rows: &mut Vec<Vec<String>>, keys: &Vec<String>)
    requires
        keys@.len() == old(rows)@.len(),
    ensures
        stable_sort_of(final(rows)@, old(rows)@, views_of(keys@)),
{
    let order = stable_order(keys);
    let mut taken: Vec<Vec<String>> = Vec::new();
    std::mem::swap(&mut taken, rows);
    let sorted = take_in_order(taken, &order);
    *rows = sorted;
}

} // verus!
