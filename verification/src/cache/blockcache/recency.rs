//! Entries in the order of their last use, kept by [`lru::LruCache`].
//!
//! A key is a list of integers, and a value an integer. The order runs from the most
//! recently used entry to the least recently used one.
use lru::LruCache;
use vstd::prelude::*;

verus! {

/// [`lru::LruCache`].
#[verifier::external_type_specification]
#[verifier::external_body]
#[verifier::reject_recursive_types(K)]
#[verifier::reject_recursive_types(V)]
#[verifier::reject_recursive_types(S)]
pub struct ExLruCache<K, V, S>(lru::LruCache<K, V, S>);

/// [`lru::DefaultHasher`], the hasher of a cache that names none.
#[verifier::external_type_specification]
#[verifier::external_body]
pub struct ExLruHasher(lru::DefaultHasher);

/// The entries of a cache, most recently used first.
pub uninterp spec fn lru_entries(c: LruCache<Vec<u64>, u64>) -> Seq<(Seq<u64>, u64)>;

/// How many entries a cache holds at most.
pub uninterp spec fn lru_cap(c: LruCache<Vec<u64>, u64>) -> nat;

/// The value under a key.
pub open spec fn find_value(entries: Seq<(Seq<u64>, u64)>, key: Seq<u64>) -> Option<u64>
    decreases entries.len(),
{
    if entries.len() == 0 {
        None
    } else if entries[0].0 == key {
        Some(entries[0].1)
    } else {
        find_value(entries.skip(1), key)
    }
}

/// The entries but for those under a key.
pub open spec fn without_key(entries: Seq<(Seq<u64>, u64)>, key: Seq<u64>) -> Seq<
    (Seq<u64>, u64),
> {
    entries.filter(|e: (Seq<u64>, u64)| e.0 != key)
}

/// The entries with one of them in front.
pub open spec fn fronted(entries: Seq<(Seq<u64>, u64)>, key: Seq<u64>, value: u64) -> Seq<
    (Seq<u64>, u64),
> {
    seq![(key, value)] + without_key(entries, key)
}

/// The entries after a push: a full cache gives up its least recently used one for a key
/// that it does not hold.
pub open spec fn pushed(entries: Seq<(Seq<u64>, u64)>, cap: nat, key: Seq<u64>, value: u64) -> Seq<
    (Seq<u64>, u64),
> {
    if find_value(entries, key) is None && entries.len() == cap {
        fronted(entries.drop_last(), key, value)
    } else {
        fronted(entries, key, value)
    }
}

/// The entry that a push takes out of the cache.
pub open spec fn push_replaces(entries: Seq<(Seq<u64>, u64)>, cap: nat, key: Seq<u64>) -> Option<
    (Seq<u64>, u64),
> {
    match find_value(entries, key) {
        Some(v) => Some((key, v)),
        None => if entries.len() == cap {
            Some(entries.last())
        } else {
            None
        },
    }
}

/// [`LruCache::unbounded`]: an empty cache, whose limit is the largest `usize`.
#[verifier::external_body]
pub(crate) fn lru_unbounded() -> (r: LruCache<Vec<u64>, u64>)
    ensures
        lru_entries(r) == Seq::<(Seq<u64>, u64)>::empty(),
        lru_cap(r) == usize::MAX,
{
    LruCache::unbounded()
}

/// [`LruCache::get`]: the value under a key, whose entry moves to the front.
#[verifier::external_body]
pub(crate) fn lru_get(c: &mut LruCache<Vec<u64>, u64>, key: &Vec<u64>) -> (r: Option<u64>)
    ensures
        lru_cap(*final(c)) == lru_cap(*old(c)),
        r == find_value(lru_entries(*old(c)), key@),
        lru_entries(*final(c)) == (match r {
            Some(v) => fronted(lru_entries(*old(c)), key@, v),
            None => lru_entries(*old(c)),
        }),
{
    c.get(key).copied()
}

/// [`LruCache::push`]: puts an entry in front. Returns the entry that it replaces: the one
/// under the same key, or the least recently used one of a full cache.
#[verifier::external_body]
pub(crate) fn lru_push(c: &mut LruCache<Vec<u64>, u64>, key: Vec<u64>, value: u64) -> (r: Option<
    (Vec<u64>, u64),
>)
    requires
        lru_cap(*old(c)) > 0,
    ensures
        lru_cap(*final(c)) == lru_cap(*old(c)),
        lru_entries(*final(c)) == pushed(lru_entries(*old(c)), lru_cap(*old(c)), key@, value),
        match push_replaces(lru_entries(*old(c)), lru_cap(*old(c)), key@) {
            Some(e) => r matches Some(p) && p.0@ == e.0 && p.1 == e.1,
            None => r is None,
        },
{
    c.push(key, value)
}

/// [`LruCache::promote`]: moves the entry under a key to the front, and tells whether there
/// is one.
#[verifier::external_body]
pub(crate) fn lru_promote(c: &mut LruCache<Vec<u64>, u64>, key: &Vec<u64>) -> (r: bool)
    ensures
        lru_cap(*final(c)) == lru_cap(*old(c)),
        r == (find_value(lru_entries(*old(c)), key@) is Some),
        lru_entries(*final(c)) == (match find_value(lru_entries(*old(c)), key@) {
            Some(v) => fronted(lru_entries(*old(c)), key@, v),
            None => lru_entries(*old(c)),
        }),
{
    c.promote(key)
}

/// [`LruCache::pop`]: takes the entry under a key out.
#[verifier::external_body]
pub(crate) fn lru_pop(c: &mut LruCache<Vec<u64>, u64>, key: &Vec<u64>) -> (r: Option<u64>)
    ensures
        lru_cap(*final(c)) == lru_cap(*old(c)),
        r == find_value(lru_entries(*old(c)), key@),
        lru_entries(*final(c)) == without_key(lru_entries(*old(c)), key@),
{
    c.pop(key)
}

/// [`LruCache::pop_lru`]: takes the least recently used entry out.
#[verifier::external_body]
pub(crate) fn lru_pop_last(c: &mut LruCache<Vec<u64>, u64>) -> (r: Option<(Vec<u64>, u64)>)
    ensures
        lru_cap(*final(c)) == lru_cap(*old(c)),
        if lru_entries(*old(c)).len() == 0 {
            r is None && lru_entries(*final(c)) == lru_entries(*old(c))
        } else {
            &&& r matches Some(p) && p.0@ == lru_entries(*old(c)).last().0 && p.1 == lru_entries(
                *old(c),
            ).last().1
            &&& lru_entries(*final(c)) == lru_entries(*old(c)).drop_last()
        },
{
    c.pop_lru()
}

/// [`LruCache::peek_lru`]: the key of the least recently used entry, which stays where it
/// is.
#[verifier::external_body]
pub(crate) fn lru_peek_last(c: &LruCache<Vec<u64>, u64>) -> (r: Option<Vec<u64>>)
    ensures
        if lru_entries(*c).len() == 0 {
            r is None
        } else {
            r matches Some(k) && k@ == lru_entries(*c).last().0
        },
{
    c.peek_lru().map(|e| e.0.clone())
}

/// [`LruCache::len`]: the number of entries.
#[verifier::external_body]
pub(crate) fn lru_len(c: &LruCache<Vec<u64>, u64>) -> (r: usize)
    ensures
        r == lru_entries(*c).len(),
{
    c.len()
}

/// [`LruCache::iter`]: the values, most recently used first.
#[verifier::external_body]
pub(crate) fn lru_values(c: &LruCache<Vec<u64>, u64>) -> (r: Vec<u64>)
    ensures
        r@ == lru_entries(*c).map_values(|e: (Seq<u64>, u64)| e.1),
{
    c.iter().map(|e| *e.1).collect()
}

} // verus!
