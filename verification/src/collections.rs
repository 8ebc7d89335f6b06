//! Reading maps key by key.
use std::collections::{BTreeMap, HashMap};
use vstd::prelude::*;
use vstd::std_specs::cmp::OrdSpec;
use vstd::std_specs::iter::IteratorSpec;

verus! {

/// The keys of a map, each once.
pub open spec fn lists_keys<V>(m: Map<u64, V>, keys: Seq<u64>) -> bool {
    &&& keys.no_duplicates()
    &&& forall|k: u64| #[trigger] keys.contains(k) <==> m.dom().contains(k)
}

/// Strictly ascending keys.
pub open spec fn ascending(keys: Seq<u64>) -> bool {
    forall|i: int, j: int| 0 <= i < j < keys.len() ==> keys[i] < keys[j]
}

/// The keys of a hash map, in the order in which it is walked.
pub fn hash_keys<V>(m: &HashMap<u64, V>) -> (r: Vec<u64>)
    ensures
        lists_keys(m@, r@),
{
    broadcast use vstd::std_specs::hash::group_hash_axioms;

    let mut r: Vec<u64> = Vec::new();
    for k in it: m.keys()
        invariant
            r@ == it.seq().unref().subrange(0, it.index() as int),
    {
        r.push(*k);
        assert(r@ =~= it.seq().unref().subrange(0, it.index() + 1));
    }
    proof {
        let all = m.keys().remaining().unref();
        assert(r@ =~= all);
        assert forall|k: u64| #[trigger] r@.contains(k) <==> m@.dom().contains(k) by {
            assert(all.to_set().contains(k) <==> m@.dom().contains(k));
        }
    }
    r
}

proof fn lemma_increasing_is_ascending(keys: Seq<u64>)
    requires
        vstd::std_specs::btree::increasing_seq(keys),
    ensures
        ascending(keys),
{
    broadcast use vstd::std_specs::btree::group_btree_axioms;

    assert forall|i: int, j: int| 0 <= i < j < keys.len() implies keys[i] < keys[j] by {
        assert(keys[i].cmp_spec(&keys[j]) is Less);
    }
}

/// The keys of an ordered map, ascending.
pub fn tree_keys<V>(m: &BTreeMap<u64, V>) -> (r: Vec<u64>)
    ensures
        lists_keys(m@, r@),
        ascending(r@),
        r@ == sorted_keys(m@),
{
    broadcast use vstd::std_specs::btree::group_btree_axioms;

    let mut r: Vec<u64> = Vec::new();
    let entries = m.iter();
    let ghost all = entries.remaining();
    let ghost keys = all.map_values(|kv: (&u64, &V)| *kv.0);
    for kv in it: entries
        invariant
            it.seq() == all,
            keys == all.map_values(|kv: (&u64, &V)| *kv.0),
            r@ == keys.subrange(0, it.index() as int),
    {
        r.push(*kv.0);
        assert(r@ =~= keys.subrange(0, it.index() + 1));
    }
    proof {
        assert(r@ =~= keys);
        assert forall|k: u64| #[trigger] r@.contains(k) <==> m@.dom().contains(k) by {
            if m@.dom().contains(k) {
                assert(all.contains((&k, &m@[k])));
                let i = choose|i: int| 0 <= i < all.len() && all[i] == (&k, &m@[k]);
                assert(keys[i] == k);
            }
            if r@.contains(k) {
                let i = choose|i: int| 0 <= i < r@.len() && r@[i] == k;
                assert(m@.contains_key(*all[i].0));
            }
        }
        lemma_increasing_is_ascending(keys);
        lemma_sorted_keys(m@, r@);
    }
    r
}

/// The keys of a map, ascending.
pub open spec fn sorted_keys<V>(m: Map<u64, V>) -> Seq<u64> {
    choose|keys: Seq<u64>| lists_keys(m, keys) && ascending(keys)
}

/// There is one ascending list of the keys of a map.
pub proof fn lemma_sorted_keys<V>(m: Map<u64, V>, keys: Seq<u64>)
    requires
        lists_keys(m, keys),
        ascending(keys),
    ensures
        keys == sorted_keys(m),
{
    let other = sorted_keys(m);
    assert(lists_keys(m, other) && ascending(other));
    lemma_same_keys(m, keys, other, keys.len() as int);
    lemma_same_keys(m, other, keys, other.len() as int);
    assert(keys =~= other);
}

/// The keys of a finite map can be listed in ascending order.
pub proof fn lemma_keys_are_listed<V>(m: Map<u64, V>)
    requires
        m.dom().finite(),
    ensures
        lists_keys(m, sorted_keys(m)),
        ascending(sorted_keys(m)),
    decreases m.dom().len(),
{
    if m.dom().len() == 0 {
        let none = Seq::<u64>::empty();
        assert(m.dom() =~= Set::empty());
        assert(lists_keys(m, none) && ascending(none));
        lemma_sorted_keys(m, none);
    } else {
        let k = m.dom().choose();
        let rest = m.remove(k);
        assert(rest.dom() =~= m.dom().remove(k));
        lemma_keys_are_listed(rest);
        let front = sorted_keys(rest);
        let n = lemma_place_for(front, k);
        let all = front.insert(n, k);
        assert(!front.contains(k)) by {
            if front.contains(k) {
                assert(rest.dom().contains(k));
            }
        }
        assert forall|i: int, j: int| 0 <= i < j < all.len() implies all[i] < all[j] by {
            let a = if i < n {
                i
            } else {
                i - 1
            };
            let b = if j < n {
                j
            } else {
                j - 1
            };
            if i != n {
                assert(all[i] == front[a]);
                assert(front.contains(front[a]));
            }
            if j != n {
                assert(all[j] == front[b]);
                assert(front.contains(front[b]));
            }
        }
        assert forall|x: u64| #[trigger] all.contains(x) <==> m.dom().contains(x) by {
            if m.dom().contains(x) {
                if x == k {
                    assert(all[n] == x);
                } else {
                    assert(rest.dom().contains(x));
                    assert(front.contains(x));
                    let a = choose|a: int| 0 <= a < front.len() && front[a] == x;
                    if a < n {
                        assert(all[a] == x);
                    } else {
                        assert(all[a + 1] == x);
                    }
                }
            }
            if all.contains(x) {
                let a = choose|a: int| 0 <= a < all.len() && all[a] == x;
                if a < n {
                    assert(front[a] == x);
                    assert(front.contains(x));
                } else if a > n {
                    assert(front[a - 1] == x);
                    assert(front.contains(x));
                }
            }
        }
        assert(lists_keys(m, all));
        lemma_sorted_keys(m, all);
    }
}

/// Where a key goes in an ascending list.
proof fn lemma_place_for(keys: Seq<u64>, k: u64) -> (n: int)
    requires
        ascending(keys),
    ensures
        0 <= n <= keys.len(),
        forall|i: int| 0 <= i < n ==> #[trigger] keys[i] < k,
        forall|i: int| n <= i < keys.len() ==> #[trigger] keys[i] >= k,
    decreases keys.len(),
{
    if keys.len() == 0 {
        0
    } else if keys.last() < k {
        keys.len() as int
    } else {
        let front = keys.drop_last();
        let n = lemma_place_for(front, k);
        assert forall|i: int| 0 <= i < n implies #[trigger] keys[i] < k by {
            assert(front[i] == keys[i]);
        }
        assert forall|i: int| n <= i < keys.len() implies #[trigger] keys[i] >= k by {
            if i < front.len() {
                assert(front[i] == keys[i]);
            }
        }
        n
    }
}

proof fn lemma_same_keys<V>(m: Map<u64, V>, a: Seq<u64>, b: Seq<u64>, n: int)
    requires
        lists_keys(m, a),
        ascending(a),
        lists_keys(m, b),
        ascending(b),
        0 <= n <= a.len(),
    ensures
        n <= b.len(),
        forall|i: int| 0 <= i < n ==> a[i] == b[i],
    decreases n,
{
    if n > 0 {
        lemma_same_keys(m, a, b, n - 1);
        let x = a[n - 1];
        assert(a.contains(x));
        assert(b.contains(x));
        let j = choose|j: int| 0 <= j < b.len() && b[j] == x;
        if j < n - 1 {
            assert(a[j] == b[j]);
            assert(a[j] < a[n - 1]);
        }
        if j > n - 1 {
            let y = b[n - 1];
            assert(y < x);
            assert(b.contains(y));
            assert(a.contains(y));
            let k = choose|k: int| 0 <= k < a.len() && a[k] == y;
            if k < n - 1 {
                assert(b[k] == y);
                assert(b[k] < b[n - 1]);
            } else if k > n - 1 {
                assert(a[n - 1] < a[k]);
            }
        }
    }
}

/// A filtered list holds exactly the items of the list that pass.
pub proof fn lemma_filter_members<T>(s: Seq<T>, f: spec_fn(T) -> bool, x: T)
    ensures
        s.filter(f).contains(x) <==> s.contains(x) && f(x),
    decreases s.len(),
{
    reveal(Seq::filter);
    if s.len() > 0 {
        let rest = s.drop_last();
        lemma_filter_members(rest, f, x);
        let kept = rest.filter(f);
        if s.filter(f).contains(x) {
            let i = choose|i: int| 0 <= i < s.filter(f).len() && s.filter(f)[i] == x;
            if i < kept.len() {
                assert(kept[i] == x);
                assert(kept.contains(x));
                let j = choose|j: int| 0 <= j < rest.len() && rest[j] == x;
                assert(s[j] == x);
            } else {
                assert(s[s.len() - 1] == x);
            }
        }
        if s.contains(x) && f(x) {
            let j = choose|j: int| 0 <= j < s.len() && s[j] == x;
            if j < rest.len() {
                assert(rest[j] == x);
                assert(kept.contains(x));
                let i = choose|i: int| 0 <= i < kept.len() && kept[i] == x;
                assert(s.filter(f)[i] == x);
            } else {
                assert(s.filter(f) == kept.push(x));
                assert(s.filter(f)[kept.len() as int] == x);
            }
        }
    }
}

} // verus!
