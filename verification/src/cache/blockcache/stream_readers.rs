//! Registry of idle stream readers, by stream and next offset.
//!
//! A reader leaves the registry while it reads, and comes back under its next offset. Two
//! readers at the same progress collapse onto one. Idle readers expire.
use vstd::prelude::*;

verus! {

/// How long a reader may be idle.
pub const STREAM_READER_EXPIRED_MS: u64 = 60_000;

/// How often expired readers are looked for.
pub const STREAM_READER_EXPIRED_CHECK_INTERVAL_MS: u64 = 60_000;

/// An idle reader.
#[derive(Debug, Clone, Copy, PartialEq, Eq, Structural)]
pub struct ReaderEntry {
    pub stream_id: u64,
    pub next_read_offset: u64,
    pub reader: u64,
    pub last_access_ms: u64,
}

/// The idle readers of some streams.
#[verifier::ext_equal]
pub struct ReaderShardModel {
    pub readers: Seq<ReaderEntry>,
    pub last_expired_check_ms: u64,
}

/// The reader has been idle for too long.
pub open spec fn is_idle(e: ReaderEntry, now_ms: u64, expired_ms: u64) -> bool {
    now_ms > e.last_access_ms + expired_ms
}

/// Readers that have been idle for too long.
pub open spec fn idle_readers(readers: Seq<ReaderEntry>, now_ms: u64, expired_ms: u64) -> Seq<
    ReaderEntry,
> {
    readers.filter(|e: ReaderEntry| is_idle(e, now_ms, expired_ms))
}

/// Readers that have not.
pub open spec fn fresh_readers(readers: Seq<ReaderEntry>, now_ms: u64, expired_ms: u64) -> Seq<
    ReaderEntry,
> {
    readers.filter(|e: ReaderEntry| !is_idle(e, now_ms, expired_ms))
}

/// Readers as numbers.
pub open spec fn reader_ids(readers: Seq<ReaderEntry>) -> Seq<u64> {
    readers.map_values(|e: ReaderEntry| e.reader)
}

/// The reader of a stream at an offset.
pub open spec fn reader_at(readers: Seq<ReaderEntry>, stream_id: u64, offset: u64) -> Option<int>
    decreases readers.len(),
{
    if readers.len() == 0 {
        None
    } else {
        let e = readers.last();
        if e.stream_id == stream_id && e.next_read_offset == offset {
            Some(readers.len() - 1)
        } else {
            reader_at(readers.drop_last(), stream_id, offset)
        }
    }
}

/// At most one reader for a stream and an offset.
pub open spec fn one_per_offset(readers: Seq<ReaderEntry>) -> bool {
    forall|i: int, j: int|
        #![trigger readers[i], readers[j]]
        0 <= i < j < readers.len() ==> readers[i].stream_id != readers[j].stream_id
            || readers[i].next_read_offset != readers[j].next_read_offset
}

proof fn lemma_reader_at(readers: Seq<ReaderEntry>, stream_id: u64, offset: u64)
    ensures
        match reader_at(readers, stream_id, offset) {
            Some(i) => 0 <= i < readers.len() && readers[i].stream_id == stream_id
                && readers[i].next_read_offset == offset,
            None => forall|i: int|
                0 <= i < readers.len() ==> (#[trigger] readers[i]).stream_id != stream_id
                    || readers[i].next_read_offset != offset,
        },
    decreases readers.len(),
{
    if readers.len() > 0 {
        lemma_reader_at(readers.drop_last(), stream_id, offset);
        let e = readers.last();
        if !(e.stream_id == stream_id && e.next_read_offset == offset) {
            if reader_at(readers.drop_last(), stream_id, offset) is None {
                assert forall|i: int| 0 <= i < readers.len() implies (
                #[trigger] readers[i]).stream_id != stream_id || readers[i].next_read_offset
                    != offset by {
                    if i < readers.len() - 1 {
                        assert(readers[i] == readers.drop_last()[i]);
                    }
                }
            }
        }
    }
}

/// Filtering keeps at most one reader for a stream and an offset.
proof fn lemma_filter_one_per_offset(
    readers: Seq<ReaderEntry>,
    p: spec_fn(ReaderEntry) -> bool,
)
    requires
        one_per_offset(readers),
    ensures
        one_per_offset(readers.filter(p)),
    decreases readers.len(),
{
    reveal(Seq::filter);
    if readers.len() > 0 {
        let front = readers.drop_last();
        assert forall|i: int, j: int|
            #![trigger front[i], front[j]]
            0 <= i < j < front.len() implies front[i].stream_id != front[j].stream_id
            || front[i].next_read_offset != front[j].next_read_offset by {
            assert(front[i] == readers[i] && front[j] == readers[j]);
        }
        lemma_filter_one_per_offset(front, p);
        let kept = front.filter(p);
        if p(readers.last()) {
            let all = kept.push(readers.last());
            assert forall|i: int, j: int|
                #![trigger all[i], all[j]]
                0 <= i < j < all.len() implies all[i].stream_id != all[j].stream_id
                || all[i].next_read_offset != all[j].next_read_offset by {
                if j == kept.len() {
                    assert(kept.contains(kept[i]));
                    front.lemma_filter_contains_rev(p, kept[i]);
                    let k = choose|k: int| 0 <= k < front.len() && front[k] == kept[i];
                    assert(readers[k] == kept[i]);
                    assert(readers[readers.len() - 1] == all[j]);
                } else {
                    assert(all[i] == kept[i] && all[j] == kept[j]);
                }
            }
        }
    }
}

/// One shard of the registry.
#[derive(Debug)]
struct ReaderShard {
    readers: Vec<ReaderEntry>,
    last_expired_check_ms: u64,
}

impl View for ReaderShard {
    type V = ReaderShardModel;

    closed spec fn view(&self) -> ReaderShardModel {
        ReaderShardModel {
            readers: self.readers@,
            last_expired_check_ms: self.last_expired_check_ms,
        }
    }
}

fn is_past(now_ms: u64, since_ms: u64, wait_ms: u64) -> (r: bool)
    ensures
        r == (now_ms > since_ms + wait_ms),
{
    now_ms > since_ms && now_ms - since_ms > wait_ms
}

impl ReaderShard {
    fn take_expired(&mut self, now_ms: u64, expired_ms: u64) -> (r: Vec<u64>)
        requires
            one_per_offset(old(self)@.readers),
        ensures
            one_per_offset(final(self)@.readers),
            final(self)@ == (ReaderShardModel {
                readers: fresh_readers(old(self)@.readers, now_ms, expired_ms),
                ..old(self)@
            }),
            r@ == reader_ids(idle_readers(old(self)@.readers, now_ms, expired_ms)),
    {
        let ghost all = self.readers@;
        let ghost idle = |e: ReaderEntry| is_idle(e, now_ms, expired_ms);
        let ghost fresh = |e: ReaderEntry| !is_idle(e, now_ms, expired_ms);
        let mut kept: Vec<ReaderEntry> = Vec::new();
        let mut out: Vec<u64> = Vec::new();
        let mut i: usize = 0;
        proof {
            assert(all.take(0).filter(idle) =~= Seq::empty());
            assert(all.take(0).filter(fresh) =~= Seq::empty());
            assert(reader_ids(all.take(0).filter(idle)) =~= Seq::empty());
        }
        while i < self.readers.len()
            invariant
                i <= self.readers@.len(),
                *self == *old(self),
                all == self.readers@,
                idle == (|e: ReaderEntry| is_idle(e, now_ms, expired_ms)),
                fresh == (|e: ReaderEntry| !is_idle(e, now_ms, expired_ms)),
                kept@ == all.take(i as int).filter(fresh),
                out@ == reader_ids(all.take(i as int).filter(idle)),
            decreases self.readers@.len() - i,
        {
            let e = self.readers[i];
            proof {
                assert(all.take(i + 1) =~= all.take(i as int).push(e));
                all.take(i as int).lemma_filter_push(e, idle);
                all.take(i as int).lemma_filter_push(e, fresh);
            }
            let ghost before = all.take(i as int).filter(idle);
            if is_past(now_ms, e.last_access_ms, expired_ms) {
                out.push(e.reader);
                assert(out@ =~= reader_ids(before.push(e)));
            } else {
                kept.push(e);
            }
            i += 1;
        }
        proof {
            assert(all.take(i as int) =~= all);
            lemma_filter_one_per_offset(all, fresh);
        }
        self.readers = kept;
        out
    }

    fn find(&self, stream_id: u64, offset: u64) -> (r: Option<usize>)
        ensures
            match reader_at(self@.readers, stream_id, offset) {
                Some(i) => r matches Some(k) && k == i && k < self@.readers.len(),
                None => r is None,
            },
    {
        let ghost all = self.readers@;
        let mut k: usize = self.readers.len();
        assert(all.take(k as int) =~= all);
        while k > 0
            invariant
                k <= self.readers@.len(),
                all == self.readers@,
                reader_at(all.take(k as int), stream_id, offset) == reader_at(
                    all,
                    stream_id,
                    offset,
                ),
            decreases k,
        {
            assert(all.take(k as int).drop_last() =~= all.take(k - 1));
            assert(all.take(k as int).last() == all[k - 1]);
            let e = self.readers[k - 1];
            if e.stream_id == stream_id && e.next_read_offset == offset {
                return Some(k - 1);
            }
            k -= 1;
        }
        None
    }

    fn take(&mut self, stream_id: u64, offset: u64) -> (r: Option<u64>)
        requires
            one_per_offset(old(self)@.readers),
        ensures
            one_per_offset(final(self)@.readers),
            final(self)@ == taken_out(old(self)@, stream_id, offset),
            r == reader_of(old(self)@.readers, stream_id, offset),
    {
        let ghost all = self.readers@;
        match self.find(stream_id, offset) {
            Some(i) => {
                let e = self.readers.remove(i);
                proof {
                    let rest = self.readers@;
                    assert forall|a: int, b: int|
                        #![trigger rest[a], rest[b]]
                        0 <= a < b < rest.len() implies rest[a].stream_id != rest[b].stream_id
                        || rest[a].next_read_offset != rest[b].next_read_offset by {
                        let x = if a < i {
                            a
                        } else {
                            a + 1
                        };
                        let y = if b < i {
                            b
                        } else {
                            b + 1
                        };
                        assert(rest[a] == all[x] && rest[b] == all[y]);
                    }
                }
                Some(e.reader)
            },
            None => None,
        }
    }
}

/// The reader of a stream at an offset, as a number.
pub open spec fn reader_of(readers: Seq<ReaderEntry>, stream_id: u64, offset: u64) -> Option<u64> {
    match reader_at(readers, stream_id, offset) {
        Some(i) => Some(readers[i].reader),
        None => None,
    }
}

/// The shard after a reader left it.
pub open spec fn taken_out(s: ReaderShardModel, stream_id: u64, offset: u64) -> ReaderShardModel {
    match reader_at(s.readers, stream_id, offset) {
        Some(i) => ReaderShardModel { readers: s.readers.remove(i), ..s },
        None => s,
    }
}

/// The shard after the look for expired readers that is due with a read.
pub open spec fn swept(
    s: ReaderShardModel,
    now_ms: u64,
    check_interval_ms: u64,
    expired_ms: u64,
) -> (ReaderShardModel, Seq<u64>) {
    if now_ms > s.last_expired_check_ms + check_interval_ms {
        (
            ReaderShardModel {
                readers: fresh_readers(s.readers, now_ms, expired_ms),
                last_expired_check_ms: now_ms,
            },
            reader_ids(idle_readers(s.readers, now_ms, expired_ms)),
        )
    } else {
        (s, Seq::empty())
    }
}

/// A reader for a read.
#[derive(Debug)]
pub struct ReaderTake {
    /// The reader at the offset; `None` where a new one is to be made.
    pub reader: Option<u64>,
    /// Readers that expired, and are to be closed.
    pub expired: Vec<u64>,
}

/// The registry.
#[derive(Debug)]
pub struct StreamReaders {
    shards: Vec<ReaderShard>,
    expired_ms: u64,
    check_interval_ms: u64,
}

/// What the registry holds.
#[verifier::ext_equal]
pub struct RegistryModel {
    pub shards: Seq<ReaderShardModel>,
    pub expired_ms: u64,
    pub check_interval_ms: u64,
}

impl View for StreamReaders {
    type V = RegistryModel;

    closed spec fn view(&self) -> RegistryModel {
        RegistryModel {
            shards: self.shards@.map_values(|s: ReaderShard| s@),
            expired_ms: self.expired_ms,
            check_interval_ms: self.check_interval_ms,
        }
    }
}

/// The shard of a stream.
pub open spec fn reader_shard(m: RegistryModel, stream_id: u64) -> int {
    stream_id as int % m.shards.len() as int
}

/// Idle readers in all shards.
pub open spec fn total_readers(shards: Seq<ReaderShardModel>) -> int
    decreases shards.len(),
{
    if shards.len() == 0 {
        0
    } else {
        total_readers(shards.drop_last()) + shards.last().readers.len()
    }
}

/// Every reader that has been idle for too long, shard by shard.
pub open spec fn all_idle(shards: Seq<ReaderShardModel>, now_ms: u64, expired_ms: u64) -> Seq<u64>
    decreases shards.len(),
{
    if shards.len() == 0 {
        Seq::empty()
    } else {
        all_idle(shards.drop_last(), now_ms, expired_ms) + reader_ids(
            idle_readers(shards.last().readers, now_ms, expired_ms),
        )
    }
}

impl StreamReaders {
    pub open spec fn wf(&self) -> bool {
        &&& self@.shards.len() > 0
        &&& forall|i: int|
            0 <= i < self@.shards.len() ==> one_per_offset((#[trigger] self@.shards[i]).readers)
    }

    pub fn new(concurrency: usize, now_ms: u64) -> (r: Self)
        ensures
            r.wf(),
            r@.expired_ms == STREAM_READER_EXPIRED_MS,
            r@.check_interval_ms == STREAM_READER_EXPIRED_CHECK_INTERVAL_MS,
            r@.shards.len() == (if concurrency > 1 {
                concurrency as int
            } else {
                1
            }),
            forall|i: int|
                0 <= i < r@.shards.len() ==> (#[trigger] r@.shards[i]) == (ReaderShardModel {
                    readers: Seq::empty(),
                    last_expired_check_ms: now_ms,
                }),
    {
        Self::with_config(
            concurrency,
            STREAM_READER_EXPIRED_MS,
            STREAM_READER_EXPIRED_CHECK_INTERVAL_MS,
            now_ms,
        )
    }

    pub fn with_config(
        concurrency: usize,
        expired_ms: u64,
        check_interval_ms: u64,
        now_ms: u64,
    ) -> (r: Self)
        ensures
            r.wf(),
            r@.expired_ms == expired_ms,
            r@.check_interval_ms == check_interval_ms,
            r@.shards.len() == (if concurrency > 1 {
                concurrency as int
            } else {
                1
            }),
            forall|i: int|
                0 <= i < r@.shards.len() ==> (#[trigger] r@.shards[i]) == (ReaderShardModel {
                    readers: Seq::empty(),
                    last_expired_check_ms: now_ms,
                }),
    {
        let n: usize = if concurrency > 1 {
            concurrency
        } else {
            1
        };
        let mut shards: Vec<ReaderShard> = Vec::new();
        let mut i: usize = 0;
        while i < n
            invariant
                i <= n,
                shards@.len() == i,
                forall|j: int|
                    0 <= j < i ==> (#[trigger] shards@[j])@ == (ReaderShardModel {
                        readers: Seq::empty(),
                        last_expired_check_ms: now_ms,
                    }),
            decreases n - i,
        {
            shards.push(ReaderShard { readers: Vec::new(), last_expired_check_ms: now_ms });
            i += 1;
        }
        StreamReaders { shards, expired_ms, check_interval_ms }
    }

    fn shard_index(&self, stream_id: u64) -> (r: usize)
        requires
            self.wf(),
        ensures
            r == reader_shard(self@, stream_id),
            r < self@.shards.len(),
            r < self.shards@.len(),
    {
        let n: u64 = self.shards.len() as u64;
        let r: u64 = stream_id % n;
        assert(r < self.shards@.len());
        r as usize
    }

    /// Takes the reader for a read out of the registry.
    pub fn take(&mut self, stream_id: u64, start_offset: u64, now_ms: u64) -> (r: ReaderTake)
        requires
            old(self).wf(),
        ensures
            final(self).wf(),
            ({
                let i = reader_shard(old(self)@, stream_id);
                let (s, expired) = swept(
                    old(self)@.shards[i],
                    now_ms,
                    old(self)@.check_interval_ms,
                    old(self)@.expired_ms,
                );
                &&& r.expired@ == expired
                &&& r.reader == reader_of(s.readers, stream_id, start_offset)
                &&& final(self)@ == (RegistryModel {
                    shards: old(self)@.shards.update(i, taken_out(s, stream_id, start_offset)),
                    ..old(self)@
                })
            }),
    {
        let ghost before = self@;
        let i: usize = self.shard_index(stream_id);
        assert(before.shards[i as int] == self.shards@[i as int]@);
        let last: u64 = self.shards[i].last_expired_check_ms;
        let mut expired: Vec<u64> = Vec::new();
        if is_past(now_ms, last, self.check_interval_ms) {
            self.shards[i].last_expired_check_ms = now_ms;
            expired = self.shards[i].take_expired(now_ms, self.expired_ms);
        }
        let reader = self.shards[i].take(stream_id, start_offset);
        proof {
            assert(self@.shards =~= before.shards.update(i as int, self.shards@[i as int]@));
            assert forall|k: int| 0 <= k < self@.shards.len() implies one_per_offset(
                (#[trigger] self@.shards[k]).readers,
            ) by {
                if k != i {
                    assert(self@.shards[k] == before.shards[k]);
                }
            }
        }
        ReaderTake { reader, expired }
    }

    /// A read succeeded: its reader comes back under its next offset. Returns the reader
    /// that was there, which is to be closed.
    pub fn put_back(&mut self, entry: ReaderEntry) -> (r: Option<u64>)
        requires
            old(self).wf(),
        ensures
            final(self).wf(),
            ({
                let i = reader_shard(old(self)@, entry.stream_id);
                let s = old(self)@.shards[i];
                let rest = taken_out(s, entry.stream_id, entry.next_read_offset);
                &&& r == reader_of(s.readers, entry.stream_id, entry.next_read_offset)
                &&& final(self)@ == (RegistryModel {
                    shards: old(self)@.shards.update(
                        i,
                        ReaderShardModel { readers: rest.readers.push(entry), ..rest },
                    ),
                    ..old(self)@
                })
            }),
    {
        let ghost before = self@;
        let i: usize = self.shard_index(entry.stream_id);
        assert(before.shards[i as int] == self.shards@[i as int]@);
        let displaced = self.shards[i].take(entry.stream_id, entry.next_read_offset);
        let ghost rest = self.shards@[i as int]@.readers;
        proof {
            lemma_taken_out_free(
                before.shards[i as int],
                entry.stream_id,
                entry.next_read_offset,
            );
        }
        self.shards[i].readers.push(entry);
        proof {
            let s = self.shards@[i as int]@;
            assert(self@.shards =~= before.shards.update(i as int, s));
            assert(one_per_offset(s.readers)) by {
                assert forall|a: int, b: int|
                    #![trigger s.readers[a], s.readers[b]]
                    0 <= a < b < s.readers.len() implies s.readers[a].stream_id
                    != s.readers[b].stream_id || s.readers[a].next_read_offset
                    != s.readers[b].next_read_offset by {
                    assert(s.readers[a] == rest[a]);
                    if b < rest.len() {
                        assert(s.readers[b] == rest[b]);
                    }
                }
            }
            assert forall|k: int| 0 <= k < self@.shards.len() implies one_per_offset(
                (#[trigger] self@.shards[k]).readers,
            ) by {
                if k != i {
                    assert(self@.shards[k] == before.shards[k]);
                }
            }
        }
        displaced
    }

    /// Takes every reader that has been idle for too long.
    pub fn sweep(&mut self, now_ms: u64) -> (r: Vec<u64>)
        requires
            old(self).wf(),
        ensures
            final(self).wf(),
            r@ == all_idle(old(self)@.shards, now_ms, old(self)@.expired_ms),
            final(self)@.expired_ms == old(self)@.expired_ms,
            final(self)@.check_interval_ms == old(self)@.check_interval_ms,
            final(self)@.shards == old(self)@.shards.map_values(
                |s: ReaderShardModel|
                    ReaderShardModel {
                        readers: fresh_readers(s.readers, now_ms, old(self)@.expired_ms),
                        ..s
                    },
            ),
    {
        let ghost before = self@;
        let mut out: Vec<u64> = Vec::new();
        let mut i: usize = 0;
        assert(before.shards.take(0) =~= Seq::empty());
        while i < self.shards.len()
            invariant
                i <= self.shards@.len(),
                self.shards@.len() == before.shards.len(),
                before == old(self)@,
                self.expired_ms == before.expired_ms,
                self.check_interval_ms == before.check_interval_ms,
                forall|k: int|
                    0 <= k < before.shards.len() ==> one_per_offset(
                        (#[trigger] before.shards[k]).readers,
                    ),
                forall|k: int|
                    0 <= k < i ==> (#[trigger] self.shards@[k])@ == (ReaderShardModel {
                        readers: fresh_readers(
                            before.shards[k].readers,
                            now_ms,
                            before.expired_ms,
                        ),
                        ..before.shards[k]
                    }) && one_per_offset(self.shards@[k]@.readers),
                forall|k: int|
                    i <= k < before.shards.len() ==> (#[trigger] self.shards@[k])@
                        == before.shards[k],
                out@ == all_idle(before.shards.take(i as int), now_ms, before.expired_ms),
            decreases self.shards@.len() - i,
        {
            proof {
                assert(self.shards@[i as int]@ == before.shards[i as int]);
                assert(before.shards.take(i + 1).drop_last() =~= before.shards.take(i as int));
                assert(before.shards.take(i + 1).last() == before.shards[i as int]);
            }
            let mut expired = self.shards[i].take_expired(now_ms, self.expired_ms);
            out.append(&mut expired);
            i += 1;
        }
        proof {
            assert(before.shards.take(i as int) =~= before.shards);
            assert(self@.shards =~= before.shards.map_values(
                |s: ReaderShardModel|
                    ReaderShardModel {
                        readers: fresh_readers(s.readers, now_ms, before.expired_ms),
                        ..s
                    },
            ));
            assert forall|k: int| 0 <= k < self@.shards.len() implies one_per_offset(
                (#[trigger] self@.shards[k]).readers,
            ) by {
                assert(one_per_offset(self.shards@[k]@.readers));
            }
        }
        out
    }

    pub fn active_reader_count(&self) -> (r: usize)
        requires
            total_readers(self@.shards) <= usize::MAX,
        ensures
            r == total_readers(self@.shards),
    {
        let ghost all = self@.shards;
        let mut total: usize = 0;
        let mut i: usize = 0;
        assert(all.take(0) =~= Seq::empty());
        while i < self.shards.len()
            invariant
                i <= self.shards@.len(),
                all == self@.shards,
                total_readers(all) <= usize::MAX,
                total == total_readers(all.take(i as int)),
            decreases self.shards@.len() - i,
        {
            proof {
                assert(all.take(i + 1).drop_last() =~= all.take(i as int));
                assert(all.take(i + 1).last() == self.shards@[i as int]@);
                lemma_total_prefix(all, i + 1);
            }
            total = total + self.shards[i].readers.len();
            i += 1;
        }
        assert(all.take(i as int) =~= all);
        total
    }
}

proof fn lemma_total_prefix(shards: Seq<ReaderShardModel>, n: int)
    requires
        0 <= n <= shards.len(),
    ensures
        total_readers(shards.take(n)) <= total_readers(shards),
    decreases shards.len(),
{
    if n < shards.len() {
        assert(shards.drop_last().take(n) =~= shards.take(n));
        lemma_total_prefix(shards.drop_last(), n);
    } else {
        assert(shards.take(n) =~= shards);
    }
}

/// After a reader left a shard, none is there at its offset.
proof fn lemma_taken_out_free(s: ReaderShardModel, stream_id: u64, offset: u64)
    requires
        one_per_offset(s.readers),
    ensures
        forall|i: int|
            0 <= i < taken_out(s, stream_id, offset).readers.len() ==> (
            #[trigger] taken_out(s, stream_id, offset).readers[i]).stream_id != stream_id
                || taken_out(s, stream_id, offset).readers[i].next_read_offset != offset,
{
    lemma_reader_at(s.readers, stream_id, offset);
    let rest = taken_out(s, stream_id, offset).readers;
    if reader_at(s.readers, stream_id, offset) is Some {
        let k = reader_at(s.readers, stream_id, offset)->0;
        assert forall|i: int| 0 <= i < rest.len() implies (#[trigger] rest[i]).stream_id
            != stream_id || rest[i].next_read_offset != offset by {
            if i < k {
                assert(rest[i] == s.readers[i]);
            } else {
                assert(rest[i] == s.readers[i + 1]);
            }
        }
    }
}

/// A reader that came back is the one that the next read at its offset finds.
pub proof fn law_reader_is_found_again(readers: Seq<ReaderEntry>, entry: ReaderEntry)
    ensures
        reader_of(readers.push(entry), entry.stream_id, entry.next_read_offset) == Some(
            entry.reader,
        ),
{
    assert(readers.push(entry).last() == entry);
}

} // verus!
