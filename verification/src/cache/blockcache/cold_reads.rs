//! Cold reads in flight, for availability signals.
use std::collections::HashMap;
use vstd::prelude::*;

use crate::collections::hash_keys;

verus! {

/// Tracks in-flight cold reads. Times are milliseconds of one clock.
#[derive(Debug)]
pub struct ColdReadInflightRegistry {
    inflight: HashMap<u64, u64>,
    next_id: u64,
}

/// A tracked cold read, to be handed back when it ends.
#[derive(Debug)]
pub struct ColdReadGuard {
    pub id: u64,
}

impl Default for ColdReadInflightRegistry {
    fn default() -> (r: Self)
        ensures
            r.reads() == Map::<u64, u64>::empty(),
            r.next() == 0,
    {
        Self::new()
    }
}

impl ColdReadInflightRegistry {
    /// When each read in flight began.
    pub closed spec fn reads(&self) -> Map<u64, u64> {
        self.inflight@
    }

    /// The next id.
    pub closed spec fn next(&self) -> u64 {
        self.next_id
    }

    pub fn new() -> (r: Self)
        ensures
            r.reads() == Map::<u64, u64>::empty(),
            r.next() == 0,
    {
        ColdReadInflightRegistry { inflight: HashMap::new(), next_id: 0 }
    }

    /// A cold read begins.
    pub fn track(&mut self, now_ms: u64) -> (r: ColdReadGuard)
        ensures
            r.id == old(self).next(),
            final(self).next() == (r.id + 1) % 0x1_0000_0000_0000_0000,
            final(self).reads() == old(self).reads().insert(r.id, now_ms),
    {
        broadcast use vstd::std_specs::hash::group_hash_axioms;

        let id: u64 = self.next_id;
        self.next_id = id.wrapping_add(1);
        self.inflight.insert(id, now_ms);
        ColdReadGuard { id }
    }

    /// A cold read ended.
    pub fn untrack(&mut self, guard: ColdReadGuard)
        ensures
            final(self).next() == old(self).next(),
            final(self).reads() == old(self).reads().remove(guard.id),
    {
        broadcast use vstd::std_specs::hash::group_hash_axioms;

        self.inflight.remove(&guard.id);
        assert(self.inflight@ =~= old(self).inflight@.remove(guard.id));
    }

    /// Is a read in flight since `threshold_ms` or longer?
    pub fn has_pending_older_than(&self, threshold_ms: u64, now_ms: u64) -> (r: bool)
        ensures
            r <==> exists|id: u64|
                #[trigger] self.reads().contains_key(id) && pending_ms(
                    self.reads()[id],
                    now_ms,
                ) >= threshold_ms,
    {
        broadcast use vstd::std_specs::hash::group_hash_axioms;

        let keys = hash_keys(&self.inflight);
        assert forall|j: int| 0 <= j < keys@.len() implies self.inflight@.contains_key(
            #[trigger] keys@[j],
        ) by {
            assert(keys@.contains(keys@[j]));
        }
        let mut i: usize = 0;
        while i < keys.len()
            invariant
                i <= keys@.len(),
                forall|k: u64| #[trigger] self.inflight@.contains_key(k) ==> keys@.contains(k),
                forall|j: int|
                    0 <= j < keys@.len() ==> self.inflight@.contains_key(#[trigger] keys@[j]),
                forall|j: int|
                    0 <= j < i ==> pending_ms(self.inflight@[#[trigger] keys@[j]], now_ms)
                        < threshold_ms,
            decreases keys@.len() - i,
        {
            broadcast use vstd::std_specs::hash::group_hash_axioms;

            let key: u64 = keys[i];
            match self.inflight.get(&key) {
                Some(start) => {
                    let pending: u64 = if now_ms > *start {
                        now_ms - *start
                    } else {
                        0
                    };
                    if pending >= threshold_ms {
                        assert(self.reads().contains_key(key));
                        return true;
                    }
                },
                None => {
                    assert(false);
                },
            }
            i += 1;
        }
        assert forall|id: u64| #[trigger] self.reads().contains_key(id) implies pending_ms(
            self.reads()[id],
            now_ms,
        ) < threshold_ms by {
            assert(keys@.contains(id));
            let j = choose|j: int| 0 <= j < keys@.len() && keys@[j] == id;
            assert(keys@[j] == id);
        }
        false
    }

    pub fn clear(&mut self)
        ensures
            final(self).next() == old(self).next(),
            final(self).reads() == Map::<u64, u64>::empty(),
    {
        self.inflight.clear();
    }
}

/// How long a read is in flight.
pub open spec fn pending_ms(start: u64, now_ms: u64) -> int {
    if now_ms > start {
        now_ms - start
    } else {
        0
    }
}

} // verus!
