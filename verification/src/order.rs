//! Stable ordering of items by integer keys.
//!
//! An ordering is a list of positions, so that one proof serves every item type: the
//! sorted items are the items read off in that order.
use vstd::prelude::*;

verus! {

/// Lexicographic order on key pairs.
pub open spec fn key_lt(a: (u64, u64), b: (u64, u64)) -> bool {
    a.0 < b.0 || (a.0 == b.0 && a.1 < b.1)
}

/// Position `i` comes before position `j`: by key, and by position among equal keys.
pub open spec fn comes_before(keys: Seq<(u64, u64)>, i: int, j: int) -> bool {
    key_lt(keys[i], keys[j]) || (keys[i] == keys[j] && i < j)
}

/// The positions of `keys`, each once, in stable key order.
pub open spec fn is_stable_order(keys: Seq<(u64, u64)>, perm: Seq<usize>) -> bool {
    &&& perm.len() == keys.len()
    &&& forall|i: int| 0 <= i < perm.len() ==> #[trigger] perm[i] < keys.len()
    &&& forall|i: int, j: int|
        0 <= i < j < perm.len() ==> comes_before(keys, #[trigger] perm[i] as int, #[trigger] perm[j] as int)
    &&& forall|k: usize| k < keys.len() ==> #[trigger] perm.contains(k)
}

/// The items read off in the order of `perm`.
pub open spec fn arranged<T>(items: Seq<T>, perm: Seq<usize>) -> Seq<T> {
    Seq::new(perm.len(), |i: int| items[perm[i] as int])
}

/// The positions `lo..hi` in stable key order.
spec fn orders_range(keys: Seq<(u64, u64)>, lo: int, hi: int, perm: Seq<usize>) -> bool {
    &&& perm.len() == hi - lo
    &&& forall|i: int| 0 <= i < perm.len() ==> lo <= #[trigger] perm[i] < hi
    &&& forall|i: int, j: int|
        0 <= i < j < perm.len() ==> comes_before(keys, #[trigger] perm[i] as int, #[trigger] perm[j] as int)
    &&& forall|k: usize| lo <= k < hi ==> #[trigger] perm.contains(k)
}

fn key_less(a: (u64, u64), b: (u64, u64)) -> (r: bool)
    ensures
        r == key_lt(a, b),
{
    a.0 < b.0 || (a.0 == b.0 && a.1 < b.1)
}

/// Merges the orders of two neighbouring ranges.
fn merge(
    keys: &Vec<(u64, u64)>,
    left: &Vec<usize>,
    right: &Vec<usize>,
    Ghost(lo): Ghost<int>,
    Ghost(mid): Ghost<int>,
    Ghost(hi): Ghost<int>,
) -> (out: Vec<usize>)
    requires
        0 <= lo <= mid <= hi <= keys@.len(),
        orders_range(keys@, lo, mid, left@),
        orders_range(keys@, mid, hi, right@),
    ensures
        orders_range(keys@, lo, hi, out@),
{
    let mut out: Vec<usize> = Vec::new();
    let mut i: usize = 0;
    let mut j: usize = 0;
    while i < left.len() || j < right.len()
        invariant
            0 <= lo <= mid <= hi <= keys@.len(),
            orders_range(keys@, lo, mid, left@),
            orders_range(keys@, mid, hi, right@),
            i <= left@.len(),
            j <= right@.len(),
            out@.len() == i + j,
            forall|a: int| 0 <= a < out@.len() ==> lo <= #[trigger] out@[a] < hi,
            forall|a: int, b: int|
                0 <= a < b < out@.len() ==> comes_before(
                    keys@,
                    #[trigger] out@[a] as int,
                    #[trigger] out@[b] as int,
                ),
            forall|a: int, b: int|
                0 <= a < out@.len() && i <= b < left@.len() ==> comes_before(
                    keys@,
                    #[trigger] out@[a] as int,
                    #[trigger] left@[b] as int,
                ),
            forall|a: int, b: int|
                0 <= a < out@.len() && j <= b < right@.len() ==> comes_before(
                    keys@,
                    #[trigger] out@[a] as int,
                    #[trigger] right@[b] as int,
                ),
            forall|b: int| 0 <= b < i ==> out@.contains(#[trigger] left@[b]),
            forall|b: int| 0 <= b < j ==> out@.contains(#[trigger] right@[b]),
        decreases left@.len() + right@.len() - i - j,
    {
        let ghost before = out@;
        let take_left: bool = if i >= left.len() {
            false
        } else if j >= right.len() {
            true
        } else {
            !key_less(keys[right[j]], keys[left[i]])
        };
        if take_left {
            out.push(left[i]);
            proof {
                assert(out@[before.len() as int] == left@[i as int]);
                assert forall|b: int| 0 <= b < j implies out@.contains(#[trigger] right@[b]) by {
                    let w = choose|w: int| 0 <= w < before.len() && before[w] == right@[b];
                    assert(out@[w] == right@[b]);
                }
                assert forall|b: int| 0 <= b < i + 1 implies out@.contains(#[trigger] left@[b]) by {
                    if b < i {
                        let w = choose|w: int| 0 <= w < before.len() && before[w] == left@[b];
                        assert(out@[w] == left@[b]);
                    }
                }
                assert forall|a: int, b: int|
                    0 <= a < out@.len() && j <= b < right@.len() implies comes_before(
                    keys@,
                    #[trigger] out@[a] as int,
                    #[trigger] right@[b] as int,
                ) by {
                    if a == before.len() && b > j {
                        assert(comes_before(keys@, right@[j as int] as int, right@[b] as int));
                    }
                }
            }
            i += 1;
        } else {
            out.push(right[j]);
            proof {
                assert(out@[before.len() as int] == right@[j as int]);
                assert forall|b: int| 0 <= b < i implies out@.contains(#[trigger] left@[b]) by {
                    let w = choose|w: int| 0 <= w < before.len() && before[w] == left@[b];
                    assert(out@[w] == left@[b]);
                }
                assert forall|b: int| 0 <= b < j + 1 implies out@.contains(
                    #[trigger] right@[b],
                ) by {
                    if b < j {
                        let w = choose|w: int| 0 <= w < before.len() && before[w] == right@[b];
                        assert(out@[w] == right@[b]);
                    }
                }
                assert forall|a: int, b: int|
                    0 <= a < out@.len() && i <= b < left@.len() implies comes_before(
                    keys@,
                    #[trigger] out@[a] as int,
                    #[trigger] left@[b] as int,
                ) by {
                    if a == before.len() && b > i {
                        assert(comes_before(keys@, left@[i as int] as int, left@[b] as int));
                    }
                }
            }
            j += 1;
        }
    }
    proof {
        assert forall|k: usize| lo <= k < hi implies #[trigger] out@.contains(k) by {
            if k < mid {
                assert(left@.contains(k));
                let b = choose|b: int| 0 <= b < left@.len() && #[trigger] left@[b] == k;
                assert(out@.contains(left@[b]));
            } else {
                assert(right@.contains(k));
                let b = choose|b: int| 0 <= b < right@.len() && #[trigger] right@[b] == k;
                assert(out@.contains(right@[b]));
            }
        }
    }
    out
}

fn order_range(keys: &Vec<(u64, u64)>, lo: usize, hi: usize) -> (perm: Vec<usize>)
    requires
        lo <= hi <= keys@.len(),
    ensures
        orders_range(keys@, lo as int, hi as int, perm@),
    decreases hi - lo,
{
    if hi - lo == 0 {
        Vec::new()
    } else if hi - lo == 1 {
        let mut perm: Vec<usize> = Vec::new();
        perm.push(lo);
        assert(perm@[0] == lo);
        perm
    } else {
        let mid: usize = lo + (hi - lo) / 2;
        let left = order_range(keys, lo, mid);
        let right = order_range(keys, mid, hi);
        merge(keys, &left, &right, Ghost(lo as int), Ghost(mid as int), Ghost(hi as int))
    }
}

/// The positions of `keys` in stable key order.
pub fn stable_order(keys: &Vec<(u64, u64)>) -> (perm: Vec<usize>)
    ensures
        is_stable_order(keys@, perm@),
{
    order_range(keys, 0, keys.len())
}

/// Reads the items off in the order of `perm`.
pub fn arrange<T: Copy>(items: &Vec<T>, perm: &Vec<usize>) -> (r: Vec<T>)
    requires
        forall|i: int| 0 <= i < perm@.len() ==> #[trigger] perm@[i] < items@.len(),
    ensures
        r@ == arranged(items@, perm@),
{
    let mut r: Vec<T> = Vec::new();
    let mut i: usize = 0;
    while i < perm.len()
        invariant
            i <= perm@.len(),
            forall|i: int| 0 <= i < perm@.len() ==> #[trigger] perm@[i] < items@.len(),
            r@.len() == i,
            forall|j: int| 0 <= j < i ==> #[trigger] r@[j] == items@[perm@[j] as int],
        decreases perm@.len() - i,
    {
        r.push(items[perm[i]]);
        i += 1;
    }
    assert(r@ =~= arranged(items@, perm@));
    r
}

/// Two stable orders of the same keys are the same order.
pub proof fn law_stable_order_is_unique(keys: Seq<(u64, u64)>, a: Seq<usize>, b: Seq<usize>)
    requires
        is_stable_order(keys, a),
        is_stable_order(keys, b),
    ensures
        a == b,
{
    assert forall|i: int| 0 <= i < a.len() implies a[i] == b[i] by {
        lemma_same_prefix(keys, a, b, i + 1);
    }
    assert(a =~= b);
}

proof fn lemma_same_prefix(keys: Seq<(u64, u64)>, a: Seq<usize>, b: Seq<usize>, n: int)
    requires
        is_stable_order(keys, a),
        is_stable_order(keys, b),
        0 <= n <= a.len(),
    ensures
        forall|i: int| 0 <= i < n ==> #[trigger] a[i] == b[i],
    decreases n,
{
    if n > 0 {
        lemma_same_prefix(keys, a, b, n - 1);
        let x = a[n - 1];
        let y = b[n - 1];
        if x != y {
            assert(b.contains(x) && a.contains(y));
            let jx = choose|j: int| 0 <= j < b.len() && #[trigger] b[j] == x;
            let jy = choose|j: int| 0 <= j < a.len() && #[trigger] a[j] == y;
            assert(comes_before(keys, x as int, y as int) || comes_before(keys, y as int, x as int));
            if jx < n - 1 {
                assert(a[jx] == x);
                assert(comes_before(keys, a[jx] as int, a[n - 1] as int));
            }
            if jy < n - 1 {
                assert(b[jy] == y);
                assert(comes_before(keys, b[jy] as int, b[n - 1] as int));
            }
            assert(comes_before(keys, b[n - 1] as int, b[jx] as int));
            assert(comes_before(keys, a[n - 1] as int, a[jy] as int));
        }
    }
}

/// Arranging keeps every item as often as it was there.
pub proof fn law_arranged_keeps_items<T>(keys: Seq<(u64, u64)>, items: Seq<T>, perm: Seq<usize>)
    requires
        items.len() == keys.len() <= usize::MAX,
        is_stable_order(keys, perm),
    ensures
        arranged(items, perm).to_multiset() == items.to_multiset(),
{
    assert forall|i: int, j: int| 0 <= i < j < perm.len() implies perm[i] != perm[j] by {
        assert(comes_before(keys, perm[i] as int, perm[j] as int));
    }
    lemma_permuted_multiset(items, perm);
}

proof fn lemma_permuted_multiset<T>(items: Seq<T>, perm: Seq<usize>)
    requires
        perm.len() == items.len() <= usize::MAX,
        forall|i: int| 0 <= i < perm.len() ==> #[trigger] perm[i] < items.len(),
        forall|k: usize| k < items.len() ==> #[trigger] perm.contains(k),
        forall|i: int, j: int| 0 <= i < j < perm.len() ==> perm[i] != perm[j],
    ensures
        arranged(items, perm).to_multiset() == items.to_multiset(),
    decreases items.len(),
{
    broadcast use vstd::seq_lib::group_to_multiset_ensures;

    if items.len() == 0 {
        assert(arranged(items, perm) =~= items);
    } else {
        let n = items.len() - 1;
        assert(perm[0] < items.len());
        assert(perm.contains(n as usize));
        let p = choose|p: int| 0 <= p < perm.len() && #[trigger] perm[p] == n as usize;
        let items2 = items.drop_last();
        let perm2 = perm.remove(p);
        assert forall|i: int| 0 <= i < perm2.len() implies #[trigger] perm2[i] < items2.len() by {
            let src = if i < p { i } else { i + 1 };
            assert(perm2[i] == perm[src]);
            assert(perm[src] != perm[p]);
        }
        assert forall|k: usize| k < items2.len() implies #[trigger] perm2.contains(k) by {
            assert(perm.contains(k));
            let i0 = choose|i0: int| 0 <= i0 < perm.len() && #[trigger] perm[i0] == k;
            let dst = if i0 < p { i0 } else { i0 - 1 };
            assert(perm2[dst] == perm[i0]);
        }
        assert forall|i: int, j: int| 0 <= i < j < perm2.len() implies perm2[i] != perm2[j] by {
            let si = if i < p { i } else { i + 1 };
            let sj = if j < p { j } else { j + 1 };
            assert(perm[si] != perm[sj]);
        }
        lemma_permuted_multiset(items2, perm2);
        let whole = arranged(items, perm);
        assert(whole.remove(p) =~= arranged(items2, perm2));
        assert(items2.push(items[n]) =~= items);
        assert(whole.remove(p).to_multiset() =~= whole.to_multiset().remove(whole[p]));
        assert(whole.to_multiset() =~= whole.remove(p).to_multiset().insert(whole[p])) by {
            assert(whole.contains(whole[p]));
        }
    }
}

} // verus!
