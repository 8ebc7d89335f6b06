//! Sums over the streams of an index.
use vstd::prelude::*;

use crate::collections::{ascending, lemma_sorted_keys, lists_keys, sorted_keys};
use crate::index::sparse::{index_bytes, SparseModel};

verus! {

/// Bytes that the indexes of some streams count for.
pub open spec fn sum_bytes(m: Map<u64, SparseModel>, keys: Seq<u64>) -> int
    decreases keys.len(),
{
    if keys.len() == 0 {
        0
    } else {
        sum_bytes(m, keys.drop_last()) + index_bytes(m[keys.last()])
    }
}

/// Bytes that the indexes of all streams count for.
pub open spec fn total_bytes(m: Map<u64, SparseModel>) -> int {
    sum_bytes(m, sorted_keys(m))
}

/// The streams can be listed.
pub open spec fn is_listed(m: Map<u64, SparseModel>) -> bool {
    lists_keys(m, sorted_keys(m)) && ascending(sorted_keys(m))
}

pub proof fn lemma_sum_congruent(
    a: Map<u64, SparseModel>,
    b: Map<u64, SparseModel>,
    keys: Seq<u64>,
)
    requires
        forall|i: int| 0 <= i < keys.len() ==> a[#[trigger] keys[i]] == b[keys[i]],
    ensures
        sum_bytes(a, keys) == sum_bytes(b, keys),
    decreases keys.len(),
{
    if keys.len() > 0 {
        assert(a[keys[keys.len() - 1]] == b[keys[keys.len() - 1]]);
        assert forall|i: int| 0 <= i < keys.drop_last().len() implies a[
            #[trigger] keys.drop_last()[i]
        ] == b[keys.drop_last()[i]] by {
            assert(a[keys[i]] == b[keys[i]]);
        }
        lemma_sum_congruent(a, b, keys.drop_last());
    }
}

pub proof fn lemma_sum_insert(m: Map<u64, SparseModel>, keys: Seq<u64>, p: int, k: u64)
    requires
        0 <= p <= keys.len(),
    ensures
        sum_bytes(m, keys.insert(p, k)) == sum_bytes(m, keys) + index_bytes(m[k]),
    decreases keys.len(),
{
    let all = keys.insert(p, k);
    if p == keys.len() {
        assert(all.drop_last() =~= keys);
    } else {
        assert(all.drop_last() =~= keys.drop_last().insert(p, k));
        assert(all.last() == keys.last());
        lemma_sum_insert(m, keys.drop_last(), p, k);
    }
}

pub proof fn lemma_sum_positive(m: Map<u64, SparseModel>, keys: Seq<u64>)
    ensures
        sum_bytes(m, keys) >= 0,
    decreases keys.len(),
{
    if keys.len() > 0 {
        lemma_sum_positive(m, keys.drop_last());
    }
}

/// How many keys are below a key.
pub open spec fn below(keys: Seq<u64>, k: u64) -> int
    decreases keys.len(),
{
    if keys.len() == 0 {
        0
    } else if keys.last() < k {
        keys.len() as int
    } else {
        below(keys.drop_last(), k)
    }
}

proof fn lemma_below(keys: Seq<u64>, k: u64)
    requires
        ascending(keys),
    ensures
        0 <= below(keys, k) <= keys.len(),
        forall|i: int| 0 <= i < below(keys, k) ==> #[trigger] keys[i] < k,
        forall|i: int| below(keys, k) <= i < keys.len() ==> #[trigger] keys[i] >= k,
    decreases keys.len(),
{
    if keys.len() > 0 {
        if keys.last() < k {
            assert forall|i: int| 0 <= i < keys.len() implies #[trigger] keys[i] < k by {
                if i < keys.len() - 1 {
                    assert(keys[i] < keys[keys.len() - 1]);
                }
            }
        } else {
            let front = keys.drop_last();
            assert(ascending(front));
            lemma_below(front, k);
            assert forall|i: int| 0 <= i < below(keys, k) implies #[trigger] keys[i] < k by {
                assert(front[i] < k);
            }
            assert forall|i: int| below(keys, k) <= i < keys.len() implies #[trigger] keys[i]
                >= k by {
                if i < keys.len() - 1 {
                    assert(front[i] >= k);
                }
            }
        }
    }
}

/// A stream that the index knows is changed.
pub proof fn lemma_total_update(m: Map<u64, SparseModel>, k: u64, v: SparseModel)
    requires
        is_listed(m),
        m.contains_key(k),
    ensures
        is_listed(m.insert(k, v)),
        sorted_keys(m.insert(k, v)) == sorted_keys(m),
        total_bytes(m.insert(k, v)) == total_bytes(m) - index_bytes(m[k]) + index_bytes(v),
        total_bytes(m) >= index_bytes(m[k]),
{
    let keys = sorted_keys(m);
    let n = m.insert(k, v);
    assert(lists_keys(n, keys)) by {
        assert forall|x: u64| #[trigger] keys.contains(x) <==> n.dom().contains(x) by {
            assert(keys.contains(x) <==> m.dom().contains(x));
        }
    }
    lemma_sorted_keys(n, keys);
    assert(keys.contains(k));
    let p = choose|p: int| 0 <= p < keys.len() && keys[p] == k;
    let rest = keys.remove(p);
    assert(rest.insert(p, k) =~= keys);
    lemma_sum_insert(m, rest, p, k);
    lemma_sum_insert(n, rest, p, k);
    assert forall|i: int| 0 <= i < rest.len() implies m[#[trigger] rest[i]] == n[rest[i]] by {
        let x = if i < p {
            i
        } else {
            i + 1
        };
        assert(rest[i] == keys[x]);
        assert(keys[x] != keys[p]);
    }
    lemma_sum_congruent(m, n, rest);
    lemma_sum_positive(m, rest);
}

/// A stream is added.
pub proof fn lemma_total_add(m: Map<u64, SparseModel>, k: u64, v: SparseModel)
    requires
        is_listed(m),
        !m.contains_key(k),
    ensures
        is_listed(m.insert(k, v)),
        total_bytes(m.insert(k, v)) == total_bytes(m) + index_bytes(v),
        sorted_keys(m.insert(k, v)).len() == sorted_keys(m).len() + 1,
{
    let keys = sorted_keys(m);
    let n = m.insert(k, v);
    lemma_below(keys, k);
    let p = below(keys, k);
    let all = keys.insert(p, k);
    assert(!keys.contains(k));
    assert forall|i: int, j: int| 0 <= i < j < all.len() implies all[i] < all[j] by {
        if i < p {
            assert(all[i] == keys[i]);
        } else if i > p {
            assert(all[i] == keys[i - 1]);
        }
        if j < p {
            assert(all[j] == keys[j]);
        } else if j > p {
            assert(all[j] == keys[j - 1]);
            assert(keys.contains(keys[j - 1]));
        }
    }
    assert forall|x: u64| #[trigger] all.contains(x) <==> n.dom().contains(x) by {
        if all.contains(x) {
            let i = choose|i: int| 0 <= i < all.len() && all[i] == x;
            if i < p {
                assert(keys[i] == x);
                assert(keys.contains(x));
            } else if i > p {
                assert(keys[i - 1] == x);
                assert(keys.contains(x));
            }
        }
        if n.dom().contains(x) {
            if x == k {
                assert(all[p] == x);
            } else {
                assert(keys.contains(x));
                let i = choose|i: int| 0 <= i < keys.len() && keys[i] == x;
                if i < p {
                    assert(all[i] == x);
                } else {
                    assert(all[i + 1] == x);
                }
            }
        }
    }
    assert(lists_keys(n, all));
    lemma_sorted_keys(n, all);
    lemma_sum_insert(n, keys, p, k);
    assert forall|i: int| 0 <= i < keys.len() implies m[#[trigger] keys[i]] == n[keys[i]] by {
        assert(keys.contains(keys[i]));
    }
    lemma_sum_congruent(m, n, keys);
}

/// A stream is removed.
pub proof fn lemma_total_remove(m: Map<u64, SparseModel>, k: u64)
    requires
        is_listed(m),
        m.contains_key(k),
    ensures
        is_listed(m.remove(k)),
        total_bytes(m.remove(k)) == total_bytes(m) - index_bytes(m[k]),
        sorted_keys(m.remove(k)).len() == sorted_keys(m).len() - 1,
{
    let keys = sorted_keys(m);
    let n = m.remove(k);
    assert(keys.contains(k));
    let p = choose|p: int| 0 <= p < keys.len() && keys[p] == k;
    let rest = keys.remove(p);
    assert forall|i: int, j: int| 0 <= i < j < rest.len() implies rest[i] < rest[j] by {
        let x = if i < p {
            i
        } else {
            i + 1
        };
        let y = if j < p {
            j
        } else {
            j + 1
        };
        assert(rest[i] == keys[x] && rest[j] == keys[y]);
    }
    assert forall|x: u64| #[trigger] rest.contains(x) <==> n.dom().contains(x) by {
        if rest.contains(x) {
            let i = choose|i: int| 0 <= i < rest.len() && rest[i] == x;
            let y = if i < p {
                i
            } else {
                i + 1
            };
            assert(keys[y] == x);
            assert(keys.contains(x));
            assert(keys[y] != keys[p]);
        }
        if n.dom().contains(x) {
            assert(keys.contains(x));
            let i = choose|i: int| 0 <= i < keys.len() && keys[i] == x;
            if i < p {
                assert(rest[i] == x);
            } else {
                assert(rest[i - 1] == x);
            }
        }
    }
    assert(lists_keys(n, rest));
    lemma_sorted_keys(n, rest);
    assert(rest.insert(p, k) =~= keys);
    lemma_sum_insert(m, rest, p, k);
    assert forall|i: int| 0 <= i < rest.len() implies m[#[trigger] rest[i]] == n[rest[i]] by {
        assert(rest.contains(rest[i]));
    }
    lemma_sum_congruent(m, n, rest);
}

/// An index of no streams.
pub proof fn lemma_total_empty()
    ensures
        is_listed(Map::<u64, SparseModel>::empty()),
        total_bytes(Map::<u64, SparseModel>::empty()) == 0,
        sorted_keys(Map::<u64, SparseModel>::empty()).len() == 0,
{
    let m = Map::<u64, SparseModel>::empty();
    assert(lists_keys(m, Seq::empty()));
    assert(ascending(Seq::<u64>::empty()));
    lemma_sorted_keys(m, Seq::empty());
}

/// What a listed stream counts for is part of the total.
pub proof fn lemma_total_covers(m: Map<u64, SparseModel>, k: u64)
    requires
        is_listed(m),
        m.contains_key(k),
    ensures
        total_bytes(m) >= index_bytes(m[k]),
{
    lemma_total_update(m, k, m[k]);
}

/// Where something is counted, some stream has ranges.
pub proof fn lemma_total_some(m: Map<u64, SparseModel>, keys: Seq<u64>)
    requires
        sum_bytes(m, keys) > 0,
    ensures
        exists|i: int| 0 <= i < keys.len() && m[#[trigger] keys[i]].ranges.len() > 0,
    decreases keys.len(),
{
    if keys.len() > 0 {
        let n = keys.len() - 1;
        if m[keys[n]].ranges.len() == 0 {
            lemma_total_some(m, keys.drop_last());
            let i = choose|i: int|
                0 <= i < keys.drop_last().len() && m[#[trigger] keys.drop_last()[i]].ranges.len()
                    > 0;
            assert(m[keys[i]].ranges.len() > 0);
        }
    }
}

/// A key is added to a map whose keys are listed.
pub proof fn lemma_keys_insert<V>(m: Map<u64, V>, k: u64, v: V)
    requires
        lists_keys(m, sorted_keys(m)),
        ascending(sorted_keys(m)),
    ensures
        lists_keys(m.insert(k, v), sorted_keys(m.insert(k, v))),
        ascending(sorted_keys(m.insert(k, v))),
        sorted_keys(m.insert(k, v)).len() == sorted_keys(m).len() + (if m.contains_key(k) {
            0int
        } else {
            1
        }),
{
    let keys = sorted_keys(m);
    let n = m.insert(k, v);
    if m.contains_key(k) {
        assert forall|x: u64| #[trigger] keys.contains(x) <==> n.dom().contains(x) by {
            assert(keys.contains(x) <==> m.dom().contains(x));
        }
        lemma_sorted_keys(n, keys);
    } else {
        lemma_below(keys, k);
        let p = below(keys, k);
        let all = keys.insert(p, k);
        assert(!keys.contains(k));
        assert forall|i: int, j: int| 0 <= i < j < all.len() implies all[i] < all[j] by {
            if i < p {
                assert(all[i] == keys[i]);
            } else if i > p {
                assert(all[i] == keys[i - 1]);
            }
            if j < p {
                assert(all[j] == keys[j]);
            } else if j > p {
                assert(all[j] == keys[j - 1]);
                assert(keys.contains(keys[j - 1]));
            }
        }
        assert forall|x: u64| #[trigger] all.contains(x) <==> n.dom().contains(x) by {
            if all.contains(x) {
                let i = choose|i: int| 0 <= i < all.len() && all[i] == x;
                if i < p {
                    assert(keys[i] == x);
                    assert(keys.contains(x));
                } else if i > p {
                    assert(keys[i - 1] == x);
                    assert(keys.contains(x));
                }
            }
            if n.dom().contains(x) {
                if x == k {
                    assert(all[p] == x);
                } else {
                    assert(keys.contains(x));
                    let i = choose|i: int| 0 <= i < keys.len() && keys[i] == x;
                    if i < p {
                        assert(all[i] == x);
                    } else {
                        assert(all[i + 1] == x);
                    }
                }
            }
        }
        assert(lists_keys(n, all));
        lemma_sorted_keys(n, all);
    }
}

} // verus!
