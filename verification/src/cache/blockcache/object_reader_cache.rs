//! Open object readers (parsed index blocks), the least recently used evicted first.
//!
//! Repeated reads of one object parse its footer and index once. The cache is bounded by
//! the bytes of the loaded indexes; a reader counts 0 until its index is loaded.
use lru::LruCache;
use std::collections::HashMap;
use vstd::prelude::*;

use crate::cache::blockcache::recency::{
    find_value, fronted, lru_cap, lru_entries, lru_get, lru_len, lru_pop_last, lru_push,
    lru_unbounded, lru_values, pushed,
};

verus! {

/// Bytes of loaded indexes that are kept.
pub const MAX_OBJECT_READER_SIZE: usize = 100 * 1024 * 1024;

/// The reader of an object.
#[derive(Debug)]
pub struct ReaderLookup {
    pub reader: u64,
    /// The reader is new, and is to be opened.
    pub open: bool,
    /// Readers that left the cache, the least recently used first.
    pub evicted: Vec<u64>,
}

/// Bytes of a reader's loaded index.
pub open spec fn loaded_bytes(index_bytes: Map<u64, usize>, reader: u64) -> int {
    if index_bytes.contains_key(reader) {
        index_bytes[reader] as int
    } else {
        0
    }
}

/// Bytes of the loaded indexes of all readers.
pub open spec fn total_loaded(readers: Seq<u64>, index_bytes: Map<u64, usize>) -> int
    decreases readers.len(),
{
    if readers.len() == 0 {
        0
    } else {
        total_loaded(readers.drop_last(), index_bytes) + loaded_bytes(index_bytes, readers.last())
    }
}

/// The readers of some entries.
pub open spec fn readers_of(entries: Seq<(Seq<u64>, u64)>) -> Seq<u64> {
    entries.map_values(|e: (Seq<u64>, u64)| e.1)
}

/// How many entries stay: the least recently used go while too much is loaded, but never
/// the newest.
pub open spec fn kept_count(
    entries: Seq<(Seq<u64>, u64)>,
    index_bytes: Map<u64, usize>,
    max_bytes: int,
) -> int
    decreases entries.len(),
{
    if entries.len() <= 1 || total_loaded(readers_of(entries), index_bytes) <= max_bytes {
        entries.len() as int
    } else {
        kept_count(entries.drop_last(), index_bytes, max_bytes)
    }
}

fn is_over(readers: &Vec<u64>, index_bytes: &HashMap<u64, usize>, max_bytes: usize) -> (r: bool)
    ensures
        r == (total_loaded(readers@, index_bytes@) > max_bytes),
{
    broadcast use vstd::std_specs::hash::group_hash_axioms;

    let mut left: usize = max_bytes;
    let mut i: usize = 0;
    assert(readers@.take(0) =~= Seq::empty());
    while i < readers.len()
        invariant
            i <= readers@.len(),
            left == max_bytes - total_loaded(readers@.take(i as int), index_bytes@),
        decreases readers@.len() - i,
    {
        broadcast use vstd::std_specs::hash::group_hash_axioms;

        let size: usize = match index_bytes.get(&readers[i]) {
            Some(b) => *b,
            None => 0,
        };
        proof {
            assert(readers@.take(i + 1).drop_last() =~= readers@.take(i as int));
            assert(size == loaded_bytes(index_bytes@, readers@[i as int]));
        }
        if size > left {
            proof {
                lemma_total_prefix(readers@, i + 1, index_bytes@);
            }
            return true;
        }
        left = left - size;
        i += 1;
    }
    assert(readers@.take(i as int) =~= readers@);
    false
}

proof fn lemma_total_prefix(readers: Seq<u64>, n: int, index_bytes: Map<u64, usize>)
    requires
        0 <= n <= readers.len(),
    ensures
        total_loaded(readers.take(n), index_bytes) <= total_loaded(readers, index_bytes),
    decreases readers.len(),
{
    if n < readers.len() {
        assert(readers.drop_last().take(n) =~= readers.take(n));
        lemma_total_prefix(readers.drop_last(), n, index_bytes);
    } else {
        assert(readers.take(n) =~= readers);
    }
}

/// The cache of object readers, which are named by numbers.
#[derive(Debug)]
pub struct ObjectReaderCache {
    max_index_bytes: usize,
    lru: LruCache<Vec<u64>, u64>,
    next_reader: u64,
}

impl ObjectReaderCache {
    /// Readers by object, most recently used first.
    pub closed spec fn entries(&self) -> Seq<(Seq<u64>, u64)> {
        lru_entries(self.lru)
    }

    pub closed spec fn max_bytes(&self) -> usize {
        self.max_index_bytes
    }

    pub closed spec fn next(&self) -> u64 {
        self.next_reader
    }

    pub closed spec fn wf(&self) -> bool {
        lru_cap(self.lru) == usize::MAX
    }

    pub fn new() -> (r: Self)
        ensures
            r.wf(),
            r.entries() == Seq::<(Seq<u64>, u64)>::empty(),
            r.max_bytes() == MAX_OBJECT_READER_SIZE,
            r.next() == 0,
    {
        Self::with_capacity(MAX_OBJECT_READER_SIZE)
    }

    pub fn with_capacity(max_index_bytes: usize) -> (r: Self)
        ensures
            r.wf(),
            r.entries() == Seq::<(Seq<u64>, u64)>::empty(),
            r.max_bytes() == max_index_bytes,
            r.next() == 0,
    {
        ObjectReaderCache { max_index_bytes, lru: lru_unbounded(), next_reader: 0 }
    }

    /// Get or open the reader of an object. `index_bytes` says how much of an index each
    /// reader has loaded.
    pub fn get(&mut self, object_id: u64, index_bytes: &HashMap<u64, usize>) -> (r: ReaderLookup)
        requires
            old(self).wf(),
            old(self).next() < u64::MAX,
        ensures
            final(self).wf(),
            final(self).max_bytes() == old(self).max_bytes(),
            match find_value(old(self).entries(), seq![object_id]) {
                Some(reader) => {
                    &&& r.reader == reader
                    &&& !r.open
                    &&& r.evicted@.len() == 0
                    &&& final(self).entries() == fronted(
                        old(self).entries(),
                        seq![object_id],
                        reader,
                    )
                    &&& final(self).next() == old(self).next()
                },
                None => {
                    let all = pushed(
                        old(self).entries(),
                        usize::MAX as nat,
                        seq![object_id],
                        old(self).next(),
                    );
                    let n = kept_count(all, index_bytes@, old(self).max_bytes() as int);
                    &&& r.reader == old(self).next()
                    &&& r.open
                    &&& final(self).next() == old(self).next() + 1
                    &&& final(self).entries() == all.take(n)
                    &&& r.evicted@.len() == all.len() - n
                    &&& forall|k: int|
                        0 <= k < r.evicted@.len() ==> #[trigger] r.evicted@[k] == all[all.len() - 1
                            - k].1
                },
            },
    {
        let mut key: Vec<u64> = Vec::new();
        key.push(object_id);
        assert(key@ =~= seq![object_id]);
        match lru_get(&mut self.lru, &key) {
            Some(reader) => {
                return ReaderLookup { reader, open: false, evicted: Vec::new() };
            },
            None => {},
        }
        let reader: u64 = self.next_reader;
        self.next_reader = reader + 1;
        let _ = lru_push(&mut self.lru, key, reader);
        let ghost all = lru_entries(self.lru);
        let ghost n = kept_count(all, index_bytes@, self.max_index_bytes as int);
        let mut evicted: Vec<u64> = Vec::new();
        assert(all.take(all.len() as int) =~= all);
        while lru_len(&self.lru) > 1
            invariant_except_break
                n == kept_count(
                    lru_entries(self.lru),
                    index_bytes@,
                    self.max_index_bytes as int,
                ),
            invariant
                lru_cap(self.lru) == usize::MAX,
                self.max_index_bytes == old(self).max_index_bytes,
                self.next_reader == old(self).next_reader + 1,
                lru_entries(self.lru).len() <= all.len(),
                lru_entries(self.lru) == all.take(lru_entries(self.lru).len() as int),
                evicted@.len() == all.len() - lru_entries(self.lru).len(),
                forall|k: int|
                    0 <= k < evicted@.len() ==> #[trigger] evicted@[k] == all[all.len() - 1 - k].1,
            ensures
                n == lru_entries(self.lru).len(),
            decreases lru_entries(self.lru).len(),
        {
            let readers = lru_values(&self.lru);
            assert(readers@ == readers_of(lru_entries(self.lru)));
            if !is_over(&readers, index_bytes, self.max_index_bytes) {
                break ;
            }
            let ghost held = lru_entries(self.lru);
            match lru_pop_last(&mut self.lru) {
                Some(e) => {
                    evicted.push(e.1);
                    assert(held.last() == all[held.len() - 1]);
                    assert(held.drop_last() =~= all.take(held.len() - 1));
                },
                None => {},
            }
        }
        ReaderLookup { reader, open: true, evicted }
    }

    pub fn len(&self) -> (r: usize)
        ensures
            r == self.entries().len(),
    {
        lru_len(&self.lru)
    }
}

/// The reader of an object that was just looked up is the one that the next lookup of the
/// same object finds.
pub proof fn law_readers_are_shared(entries: Seq<(Seq<u64>, u64)>, object_id: u64, reader: u64)
    ensures
        find_value(fronted(entries, seq![object_id], reader), seq![object_id]) == Some(reader),
{
    let f = fronted(entries, seq![object_id], reader);
    assert(f[0].0 =~= seq![object_id]);
}

} // verus!
