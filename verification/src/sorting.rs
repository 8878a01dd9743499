//! Stable sorting by collated string keys.

use crate::collate::{collates_before, collation_rank};
use crate::text::string_views;
use vstd::prelude::*;

verus! {

/// `p` lists each of `0..n` exactly once.
pub open spec fn is_permutation(p: Seq<usize>, n: nat) -> bool {
    &&& p.len() == n
    &&& forall|i: int| 0 <= i < n ==> #[trigger] p[i] < n
    &&& forall|i: int, j: int| 0 <= i < j < n ==> p[i] != p[j]
}


/// The collation order of two keys, reversed when `desc`.
pub open spec fn dir_rank(a: Seq<char>, b: Seq<char>, desc: bool) -> int {
    if desc {
        collation_rank(b, a)
    } else {
        collation_rank(a, b)
    }
}

/// Reading `keys` in the order `p` never steps backwards in the collation
/// (forwards, when `desc`), and neighbours that collate level keep their
/// order in the input.
pub open spec fn ordered_dir(keys: Seq<Seq<char>>, p: Seq<usize>, desc: bool) -> bool {
    &&& forall|i: int|
        0 <= i < p.len() - 1 ==> dir_rank(#[trigger] keys[p[i] as int], keys[p[i + 1] as int], desc)
            <= 0
    &&& forall|i: int|
        0 <= i < p.len() - 1 && dir_rank(#[trigger] keys[p[i] as int], keys[p[i + 1] as int], desc)
            == 0 && dir_rank(keys[p[i + 1] as int], keys[p[i] as int], desc) == 0 ==> p[i] < p[i
            + 1]
}

/// Ascending collation order, stable.
pub open spec fn ordered_by(keys: Seq<Seq<char>>, p: Seq<usize>) -> bool {
    ordered_dir(keys, p, false)
}

/// Descending collation order, stable.
pub open spec fn ordered_desc(keys: Seq<Seq<char>>, p: Seq<usize>) -> bool {
    ordered_dir(keys, p, true)
}

fn goes_before(a: &str, b: &str, desc: bool) -> (r: bool)
    ensures
        r == (dir_rank(a@, b@, desc) < 0),
        !r ==> dir_rank(b@, a@, desc) <= 0,
{
    if desc {
        collates_before(b, a)
    } else {
        collates_before(a, b)
    }
}

/// The stable order that sorts `keys` by collation, descending when `desc`.
pub fn sort_order(keys: &Vec<String>, desc: bool) -> (p: Vec<usize>)
    ensures
        is_permutation(p@, keys@.len()),
        ordered_dir(string_views(keys@), p@, desc),
{
    let n = keys.len();
    let ghost kv = string_views(keys@);
    let mut p: Vec<usize> = Vec::new();
    let mut j: usize = 0;
    while j < n
        invariant
            j <= n == keys.len(),
            kv == string_views(keys@),
            is_permutation(p@, j as nat),
            ordered_dir(kv, p@, desc),
        decreases n - j,
    {
        let mut pos: usize = j;
        while pos > 0 && goes_before(keys[j].as_str(), keys[p[pos - 1]].as_str(), desc)
            invariant
                pos <= j < n == keys.len(),
                kv == string_views(keys@),
                is_permutation(p@, j as nat),
                forall|k: int| pos <= k < j ==> dir_rank(kv[j as int], #[trigger] kv[p@[k] as int], desc) < 0,
            decreases pos,
        {
            pos = pos - 1;
        }
        proof {
            assert(kv[j as int] == keys@[j as int]@);
            if pos > 0 {
                assert(kv[p@[pos - 1] as int] == keys@[p@[pos - 1] as int]@);
            }
        }
        let ghost old_p = p@;
        p.insert(pos, j);
        proof {
            let np = p@;
            assert(np == old_p.insert(pos as int, j));
            assert forall|i: int| 0 <= i < j + 1 implies #[trigger] np[i] < j + 1 by {
                if i < pos {
                    assert(np[i] == old_p[i]);
                } else if i > pos {
                    assert(np[i] == old_p[i - 1]);
                }
            }
            assert forall|a: int, b: int| 0 <= a < b < j + 1 implies np[a] != np[b] by {
                if a < pos {
                    assert(np[a] == old_p[a]);
                } else if a > pos {
                    assert(np[a] == old_p[a - 1]);
                }
                if b < pos {
                    assert(np[b] == old_p[b]);
                } else if b > pos {
                    assert(np[b] == old_p[b - 1]);
                }
            }
            assert forall|i: int| 0 <= i < np.len() - 1 implies dir_rank(
                #[trigger] kv[np[i] as int],
                kv[np[i + 1] as int],
                desc,
            ) <= 0 by {
                if i + 1 < pos {
                    assert(np[i] == old_p[i] && np[i + 1] == old_p[i + 1]);
                } else if i + 1 == pos {
                    assert(np[i] == old_p[i] && np[i + 1] == j);
                } else if i == pos {
                    assert(np[i] == j && np[i + 1] == old_p[i]);
                } else {
                    assert(np[i] == old_p[i - 1] && np[i + 1] == old_p[i]);
                }
            }
            assert forall|i: int|
                0 <= i < np.len() - 1 && dir_rank(#[trigger] kv[np[i] as int], kv[np[i + 1] as int], desc)
                    == 0 && dir_rank(kv[np[i + 1] as int], kv[np[i] as int], desc) == 0 implies np[i]
                < np[i + 1] by {
                if i + 1 < pos {
                    assert(np[i] == old_p[i] && np[i + 1] == old_p[i + 1]);
                } else if i + 1 == pos {
                    assert(np[i] == old_p[i] && np[i + 1] == j);
                } else if i == pos {
                    assert(np[i] == j && np[i + 1] == old_p[i]);
                } else {
                    assert(np[i] == old_p[i - 1] && np[i + 1] == old_p[i]);
                }
            }
        }
        j = j + 1;
    }
    p
}

/// The items at the positions `order` lists, in that order; no position is
/// listed twice.
pub fn select<T>(items: Vec<T>, order: &Vec<usize>) -> (r: Vec<T>)
    requires
        forall|i: int| 0 <= i < order@.len() ==> #[trigger] order@[i] < items@.len(),
        forall|i: int, j: int| 0 <= i < j < order@.len() ==> order@[i] != order@[j],
    ensures
        r@.len() == order@.len(),
        forall|i: int| 0 <= i < r@.len() ==> r@[i] == items@[order@[i] as int],
{
    let n = items.len();
    let m = order.len();
    let ghost orig = items@;
    let mut slots: Vec<Option<T>> = Vec::new();
    for x in it: items
        invariant
            it.seq() == orig,
            slots@.len() == it.index(),
            forall|k: int| 0 <= k < it.index() ==> slots@[k] == Some(#[trigger] orig[k]),
    {
        slots.push(Some(x));
    }
    let mut out: Vec<T> = Vec::new();
    let mut i: usize = 0;
    while i < m
        invariant
            i <= m == order@.len(),
            n == orig.len() == slots@.len(),
            forall|k: int| 0 <= k < m ==> #[trigger] order@[k] < n,
            forall|a: int, b: int| 0 <= a < b < m ==> order@[a] != order@[b],
            out@.len() == i,
            forall|k: int| 0 <= k < i ==> out@[k] == orig[order@[k] as int],
            forall|k: int|
                0 <= k < n && (forall|a: int| 0 <= a < i ==> order@[a] != k) ==> #[trigger] slots@[k]
                    == Some(orig[k]),
        decreases m - i,
    {
        let at = order[i];
        assert(forall|a: int| 0 <= a < i ==> order@[a] != at);
        let mut taken: Option<T> = None;
        std::mem::swap(&mut slots[at], &mut taken);
        match taken {
            Some(x) => {
                out.push(x);
            },
            None => {
                assert(false);
            },
        }
        i = i + 1;
        assert forall|k: int|
            0 <= k < n && (forall|a: int| 0 <= a < i ==> order@[a] != k) implies #[trigger] slots@[k]
                == Some(orig[k]) by {
            assert(order@[i - 1] != k);
        }
    }
    out
}

/// `items` rearranged so that position `i` holds `items[order[i]]`.
pub fn permute<T>(items: Vec<T>, order: &Vec<usize>) -> (r: Vec<T>)
    requires
        is_permutation(order@, items@.len()),
    ensures
        r@.len() == items@.len(),
        forall|i: int| 0 <= i < r@.len() ==> r@[i] == items@[order@[i] as int],
{
    select(items, order)
}

/// `items` stably sorted by the collation of their `keys`, descending when
/// `desc`.
pub fn sorted_by<T>(items: Vec<T>, keys: &Vec<String>, desc: bool) -> (r: Vec<T>)
    requires
        items@.len() == keys@.len(),
    ensures
        exists|p: Seq<usize>|
            {
                &&& is_permutation(p, items@.len())
                &&& ordered_dir(string_views(keys@), p, desc)
                &&& r@.len() == items@.len()
                &&& forall|i: int| 0 <= i < r@.len() ==> r@[i] == items@[#[trigger] p[i] as int]
            },
{
    let order = sort_order(keys, desc);
    let ghost orig = items@;
    let r = permute(items, &order);
    assert(forall|i: int| 0 <= i < r@.len() ==> r@[i] == orig[#[trigger] order@[i] as int]);
    r
}

/// `r` is `items` rearranged stably so that their keys ascend in collation
/// order.
pub open spec fn sorted_on<T>(items: Seq<T>, keys: Seq<Seq<char>>, r: Seq<T>) -> bool {
    exists|p: Seq<usize>|
        {
            &&& #[trigger] is_permutation(p, items.len())
            &&& ordered_by(keys, p)
            &&& r.len() == items.len()
            &&& forall|i: int| 0 <= i < r.len() ==> r[i] == items[#[trigger] p[i] as int]
        }
}

/// `items` stably sorted by the collation of their `keys`, ascending.
pub fn sorted_on_keys<T>(items: Vec<T>, keys: &Vec<String>) -> (r: Vec<T>)
    requires
        items@.len() == keys@.len(),
    ensures
        sorted_on(items@, string_views(keys@), r@),
{
    let ghost orig = items@;
    let r = sorted_by(items, keys, false);
    proof {
        let p = choose|p: Seq<usize>|
            {
                &&& is_permutation(p, orig.len())
                &&& ordered_dir(string_views(keys@), p, false)
                &&& r@.len() == orig.len()
                &&& forall|i: int| 0 <= i < r@.len() ==> r@[i] == orig[#[trigger] p[i] as int]
            };
        assert(ordered_by(string_views(keys@), p));
    }
    r
}

} // verus!
