//! Snapshot-read cache: this node serves tail reads for streams that it does not own.
//!
//! Confirmed WAL ranges and committed objects are replayed into a log cache of their own.
//! Loads run side by side; what they give is put in the order in which they were asked for.
use std::collections::{BTreeMap, HashMap, VecDeque};
use vstd::prelude::*;

use crate::cache::log_block::{block_takes, StreamRangeBound};
use crate::cache::log_cache::{
    archived, cache_put, cleared, freed_views, is_cached, is_chained_in, is_continuous_in,
    is_log_read, log_get, marked, merged_from, reads_from, released, stream_in_order, unmerged,
    FreedBlock, LogCache, LogCacheModel,
};
use crate::cache::stream_cache::record_views;
use crate::codec::record::{
    is_batch, rec_base_offset, rec_count, rec_last_offset, rec_stream_id, StreamRecordBatch,
};
use crate::collections::{sorted_keys, tree_keys};
use crate::manager::StreamMetadata;
use crate::numbers::{as_signed, as_signed32, signed, signed32};

verus! {

/// How long a stream may go without records.
pub const ACTIVE_EXPIRE_MS: u64 = 600_000;

/// Bytes of objects that are loaded at a time.
pub const MAX_INFLIGHT_LOAD_BYTES: u64 = 100 * 1024 * 1024;

/// How long a WAL replay may wait before replay counts as overloaded.
pub const TASK_WAITING_TIMEOUT_MS: u64 = 5_000;

/// How many WAL replays may wait.
pub const MAX_WAITING_LOAD_TASK_COUNT: usize = 4096;

/// Told of what the snapshot-read cache asks of other nodes.
pub trait EventListener {
    fn on_event(&self, event: RequestCommitEvent);
}

/// Ask the owner node to commit its WAL so snapshot-read cache pressure can drain.
#[derive(Debug, Clone, Copy, PartialEq, Eq, Structural)]
pub struct RequestCommitEvent {
    pub node_id: i32,
}

/// What is cached: the records, where each stream goes on, and when it was last active.
#[verifier::ext_equal]
pub struct TailModel {
    pub log: LogCacheModel,
    pub next_offsets: Map<u64, u64>,
    pub active: Map<u64, u64>,
}

/// The log cache after a record was put: a full block is sealed and freed at once, as
/// nothing is uploaded from here.
pub open spec fn log_put(m: LogCacheModel, record: Seq<u8>) -> LogCacheModel {
    let first = cache_put(m, record);
    if block_takes(released(m).blocks.last(), record) {
        first
    } else {
        let sealed = archived(first);
        let freed = merged_from(
            released(
                LogCacheModel { blocks: marked(sealed.blocks, first.blocks.last().id), ..sealed },
            ),
            0,
        );
        cache_put(freed, record)
    }
}

/// A stream whose records come next.
pub open spec fn entered(m: TailModel, record: Seq<u8>, now_ms: u64) -> TailModel {
    let id = rec_stream_id(record);
    TailModel {
        next_offsets: if m.next_offsets.contains_key(id) {
            m.next_offsets
        } else {
            m.next_offsets.insert(id, rec_base_offset(record))
        },
        active: m.active.insert(id, now_ms),
        ..m
    }
}

/// A record of a stream: dropped where it is older than what the stream goes on with; where
/// it is newer, what is cached of the stream is dropped first.
pub open spec fn took(m: TailModel, record: Seq<u8>) -> TailModel {
    let id = rec_stream_id(record);
    let expected = m.next_offsets[id];
    if rec_base_offset(record) < expected {
        m
    } else {
        let log = if rec_base_offset(record) > expected {
            cleared(m.log, id)
        } else {
            m.log
        };
        TailModel {
            log: log_put(log, record),
            next_offsets: m.next_offsets.insert(id, rec_last_offset(record)),
            ..m
        }
    }
}

/// The records of a list, put one after the other; a stream is entered where it changes.
pub open spec fn put_records(m: TailModel, records: Seq<Seq<u8>>, now_ms: u64) -> TailModel
    decreases records.len(),
{
    if records.len() == 0 {
        m
    } else {
        let before = put_records(m, records.drop_last(), now_ms);
        let r = records.last();
        let n = records.len();
        let ready = if n == 1 || rec_stream_id(records[n - 2]) != rec_stream_id(r) {
            entered(before, r, now_ms)
        } else {
            before
        };
        took(ready, r)
    }
}

/// Streams that went without records for too long.
pub open spec fn idle_streams(m: TailModel, keys: Seq<u64>, now_ms: u64) -> Seq<u64> {
    keys.filter(|s: u64| now_ms - m.active[s] >= ACTIVE_EXPIRE_MS)
}

/// The cache without some streams.
pub open spec fn forgot(m: TailModel, streams: Seq<u64>) -> TailModel
    decreases streams.len(),
{
    if streams.len() == 0 {
        m
    } else {
        let before = forgot(m, streams.drop_last());
        let s = streams.last();
        TailModel {
            log: cleared(before.log, s),
            next_offsets: before.next_offsets.remove(s),
            active: before.active.remove(s),
        }
    }
}

/// The cache after streams that went without records for too long were dropped.
pub open spec fn expired(m: TailModel, now_ms: u64) -> TailModel {
    forgot(m, idle_streams(m, sorted_keys(m.active), now_ms))
}

/// The cached tails of streams.
#[derive(Debug)]
pub struct TailCache {
    cache: LogCache,
    stream_next_offsets: HashMap<u64, u64>,
    active_streams: BTreeMap<u64, u64>,
}

impl View for TailCache {
    type V = TailModel;

    closed spec fn view(&self) -> TailModel {
        TailModel {
            log: self.cache@,
            next_offsets: self.stream_next_offsets@,
            active: self.active_streams@,
        }
    }
}

impl TailCache {
    pub closed spec fn wf(&self) -> bool {
        self.cache.wf()
    }

    pub fn new(cache: LogCache) -> (r: Self)
        requires
            cache.wf(),
        ensures
            r.wf(),
            r@ == (TailModel { log: cache@, next_offsets: Map::empty(), active: Map::empty() }),
    {
        TailCache { cache, stream_next_offsets: HashMap::new(), active_streams: BTreeMap::new() }
    }

    /// Reads the cached tail of a stream.
    pub fn get(
        &mut self,
        stream_id: u64,
        start_offset: u64,
        end_offset: u64,
        max_bytes: usize,
    ) -> (r: Vec<StreamRecordBatch>)
        requires
            old(self).wf(),
        ensures
            final(self).wf(),
            final(self)@ == old(self)@,
            forall|k: int|
                0 <= k < r@.len() ==> is_cached(
                    old(self)@.log.blocks,
                    stream_id,
                    (#[trigger] r@[k])@,
                ),
            is_chained_in(old(self)@.log.blocks, stream_id) ==> is_log_read(
                old(self)@.log.blocks,
                stream_id,
                start_offset,
                end_offset,
                max_bytes as int,
                record_views(r@),
            ),
            stream_in_order(old(self)@.log.blocks, stream_id) ==> reads_from(
                old(self)@.log.blocks,
                stream_id,
                start_offset,
                end_offset,
                record_views(r@),
            ),
            is_continuous_in(old(self)@.log.blocks, stream_id) ==> record_views(r@) == log_get(
                old(self)@.log.blocks,
                stream_id,
                start_offset,
                end_offset,
                max_bytes as int,
            ),
    {
        self.cache.get(stream_id, start_offset, end_offset, max_bytes)
    }

    /// Blocks that were sealed here and released since the last call, with the ranges that
    /// they held. A block merged from others is not told of.
    pub fn take_freed(&mut self) -> (r: Vec<FreedBlock>)
        requires
            old(self).wf(),
        ensures
            final(self).wf(),
            freed_views(r@) == unmerged(old(self)@.log.freed),
            final(self)@ == (TailModel {
                log: LogCacheModel { freed: Seq::empty(), ..old(self)@.log },
                ..old(self)@
            }),
    {
        let mut freed = self.cache.take_freed();
        let ghost all = freed_views(freed@);
        let mut out: Vec<FreedBlock> = Vec::new();
        let ghost mut n: int = 0;
        proof {
            assert(all.take(0) =~= Seq::empty());
            assert(all.skip(0) =~= all);
            assert(freed_views(out@) =~= Seq::empty());
        }
        while freed.len() > 0
            invariant
                0 <= n <= all.len(),
                freed_views(freed@) == all.skip(n),
                freed_views(out@) == unmerged(all.take(n)),
            decreases freed@.len(),
        {
            let ghost before = freed@;
            let ghost have = out@;
            let f = freed.remove(0);
            let ghost one = (f.block_id, f.bounds@, f.merged);
            proof {
                assert(freed_views(before).len() == before.len());
                assert(freed_views(before)[0] == one);
                assert(all[n] == all.skip(n)[0]);
                assert(all.take(n + 1).drop_last() =~= all.take(n));
                assert(all.take(n + 1).last() == one);
                assert(freed_views(freed@) =~= freed_views(before).skip(1));
                assert(all.skip(n).skip(1) =~= all.skip(n + 1));
                assert(freed_views(have.push(f)) =~= freed_views(have).push(one));
                n = n + 1;
            }
            if !f.merged {
                out.push(f);
            }
        }
        proof {
            assert(freed_views(freed@).len() == freed@.len());
            assert(all.take(n) =~= all);
        }
        out
    }

    fn put_one(&mut self, record: &StreamRecordBatch)
        requires
            old(self).wf(),
            is_batch(record@),
            old(self)@.next_offsets.contains_key(rec_stream_id(record@)),
        ensures
            final(self).wf(),
            final(self)@ == took(old(self)@, record@),
    {
        broadcast use vstd::std_specs::hash::group_hash_axioms;

        let stream_id: u64 = record.stream_id();
        let base: u64 = record.base_offset();
        let expected: u64 = match self.stream_next_offsets.get(&stream_id) {
            Some(o) => *o,
            None => {
                assert(false);
                0
            },
        };
        if base < expected {
            return ;
        }
        if base > expected {
            self.cache.clear_stream_records(stream_id);
        }
        let last: u64 = record.last_offset();
        if !self.cache.put(record.clone()) {
            let block: u64 = self.cache.archive_current_block();
            self.cache.mark_free(block);
            let _ = self.cache.put(record.clone());
        }
        self.stream_next_offsets.insert(stream_id, last);
    }

    /// Puts confirmed records.
    pub fn put_records(&mut self, records: &Vec<StreamRecordBatch>, now_ms: u64)
        requires
            old(self).wf(),
            forall|i: int| 0 <= i < records@.len() ==> is_batch((#[trigger] records@[i])@),
        ensures
            final(self).wf(),
            final(self)@ == put_records(old(self)@, record_views(records@), now_ms),
    {
        broadcast use vstd::std_specs::hash::group_hash_axioms;
        broadcast use vstd::std_specs::btree::group_btree_axioms;

        let ghost views = record_views(records@);
        let ghost start = self@;
        let mut stream_id: Option<u64> = None;
        let mut i: usize = 0;
        assert(views.take(0) =~= Seq::empty());
        while i < records.len()
            invariant
                i <= records@.len(),
                views == record_views(records@),
                self.wf(),
                forall|i: int| 0 <= i < records@.len() ==> is_batch((#[trigger] records@[i])@),
                self@ == put_records(start, views.take(i as int), now_ms),
                stream_id == (if i == 0 {
                    None::<u64>
                } else {
                    Some(rec_stream_id(views[i - 1]))
                }),
                stream_id matches Some(s) ==> self@.next_offsets.contains_key(s),
            decreases records@.len() - i,
        {
            broadcast use vstd::std_specs::hash::group_hash_axioms;
            broadcast use vstd::std_specs::btree::group_btree_axioms;

            proof {
                assert(is_batch(records@[i as int]@));
                assert(views[i as int] == records@[i as int]@);
                assert(views.take(i + 1).drop_last() =~= views.take(i as int));
                assert(views.take(i + 1).last() == views[i as int]);
                if i > 0 {
                    assert(views.take(i + 1)[i - 1] == views[i - 1]);
                }
            }
            let ghost before = self@;
            let id: u64 = records[i].stream_id();
            if stream_id != Some(id) {
                stream_id = Some(id);
                if !self.stream_next_offsets.contains_key(&id) {
                    self.stream_next_offsets.insert(id, records[i].base_offset());
                }
                self.active_streams.insert(id, now_ms);
                assert(self@ =~= entered(before, views[i as int], now_ms));
            }
            self.put_one(&records[i]);
            i += 1;
        }
        assert(views.take(i as int) =~= views);
    }

    /// Drops streams that went without records for too long.
    pub fn sweep_expired(&mut self, now_ms: u64)
        requires
            old(self).wf(),
        ensures
            final(self).wf(),
            final(self)@ == expired(old(self)@, now_ms),
    {
        broadcast use vstd::std_specs::hash::group_hash_axioms;
        broadcast use vstd::std_specs::btree::group_btree_axioms;

        let ghost start = self@;
        let keys = tree_keys(&self.active_streams);
        let ghost p = |s: u64| now_ms - start.active[s] >= ACTIVE_EXPIRE_MS;
        let mut idle: Vec<u64> = Vec::new();
        let mut i: usize = 0;
        assert(keys@.take(0).filter(p) =~= Seq::empty());
        assert forall|j: int| 0 <= j < keys@.len() implies start.active.contains_key(
            #[trigger] keys@[j],
        ) by {
            assert(keys@.contains(keys@[j]));
        }
        while i < keys.len()
            invariant
                i <= keys@.len(),
                *self == *old(self),
                start == self@,
                p == (|s: u64| now_ms - start.active[s] >= ACTIVE_EXPIRE_MS),
                forall|j: int|
                    0 <= j < keys@.len() ==> start.active.contains_key(#[trigger] keys@[j]),
                idle@ == keys@.take(i as int).filter(p),
            decreases keys@.len() - i,
        {
            broadcast use vstd::std_specs::btree::group_btree_axioms;

            let s: u64 = keys[i];
            proof {
                assert(keys@.take(i + 1) =~= keys@.take(i as int).push(s));
                keys@.take(i as int).lemma_filter_push(s, p);
                assert(start.active.contains_key(keys@[i as int]));
            }
            match self.active_streams.get(&s) {
                Some(at) => {
                    if now_ms >= *at && now_ms - *at >= ACTIVE_EXPIRE_MS {
                        idle.push(s);
                    }
                },
                None => {
                    assert(false);
                },
            }
            i += 1;
        }
        assert(keys@.take(i as int) =~= keys@);
        assert(idle@ == idle_streams(start, sorted_keys(start.active), now_ms));
        let mut k: usize = 0;
        assert(idle@.take(0) =~= Seq::empty());
        while k < idle.len()
            invariant
                k <= idle@.len(),
                self.wf(),
                self@ == forgot(start, idle@.take(k as int)),
            decreases idle@.len() - k,
        {
            broadcast use vstd::std_specs::hash::group_hash_axioms;
            broadcast use vstd::std_specs::btree::group_btree_axioms;

            proof {
                assert(idle@.take(k + 1).drop_last() =~= idle@.take(k as int));
                assert(idle@.take(k + 1).last() == idle@[k as int]);
            }
            let ghost before = self@;
            let s: u64 = idle[k];
            self.cache.clear_stream_records(s);
            self.stream_next_offsets.remove(&s);
            self.active_streams.remove(&s);
            proof {
                assert(self@.next_offsets =~= before.next_offsets.remove(s));
                assert(self@.active =~= before.active.remove(s));
            }
            k += 1;
        }
        assert(idle@.take(k as int) =~= idle@);
    }
}

/// A record that continues its stream is cached, and the stream goes on behind it; an older
/// one changes nothing.
pub proof fn law_tail_goes_on(m: TailModel, record: Seq<u8>)
    requires
        m.next_offsets.contains_key(rec_stream_id(record)),
    ensures
        rec_base_offset(record) < m.next_offsets[rec_stream_id(record)] ==> took(m, record) == m,
        rec_base_offset(record) >= m.next_offsets[rec_stream_id(record)] ==> took(
            m,
            record,
        ).next_offsets == m.next_offsets.insert(rec_stream_id(record), rec_last_offset(record)),
        rec_base_offset(record) == m.next_offsets[rec_stream_id(record)] ==> took(m, record).log
            == log_put(m.log, record),
        rec_base_offset(record) > m.next_offsets[rec_stream_id(record)] ==> took(m, record).log
            == log_put(cleared(m.log, rec_stream_id(record)), record),
{
}

/// A gap drops what is cached of the stream from every block.
pub proof fn law_cleared_stream_is_gone(m: LogCacheModel, stream_id: u64, i: int)
    requires
        0 <= i < m.blocks.len(),
    ensures
        !cleared(m, stream_id).blocks[i].streams.contains_key(stream_id),
{
}

/// A WAL range to replay.
#[derive(Debug)]
pub struct WalReplayTask {
    pub id: u64,
    pub timestamp_ms: u64,
    /// Node that owns the WAL.
    pub node_id: u32,
    pub load_done: bool,
    pub records: Vec<StreamRecordBatch>,
}

/// What a replay task is about.
#[verifier::ext_equal]
pub struct WalTaskModel {
    pub id: u64,
    pub timestamp_ms: u64,
    pub node_id: u32,
    pub load_done: bool,
    pub records: Seq<Seq<u8>>,
}

impl View for WalReplayTask {
    type V = WalTaskModel;

    open spec fn view(&self) -> WalTaskModel {
        WalTaskModel {
            id: self.id,
            timestamp_ms: self.timestamp_ms,
            node_id: self.node_id,
            load_done: self.load_done,
            records: record_views(self.records@),
        }
    }
}

pub open spec fn wal_tasks(v: Seq<WalReplayTask>) -> Seq<WalTaskModel> {
    v.map_values(|t: WalReplayTask| t@)
}

/// The ids of some tasks.
pub open spec fn wal_ids(v: Seq<WalTaskModel>) -> Seq<u64> {
    v.map_values(|t: WalTaskModel| t.id)
}

/// Replays that wait, and replays whose load runs or is done, each oldest first.
#[verifier::ext_equal]
pub struct WalReplayModel {
    pub waiting: Seq<WalTaskModel>,
    pub loading: Seq<WalTaskModel>,
    pub max_inflight: usize,
}

/// The oldest waiting replay waits for too long.
pub open spec fn is_overdue(t: WalTaskModel, now_ms: u64) -> bool {
    now_ms - t.timestamp_ms > TASK_WAITING_TIMEOUT_MS
}

/// How many waiting replays can be started: as long as there is room, and the next one has
/// not waited for too long.
pub open spec fn startable(m: WalReplayModel, now_ms: u64) -> int
    decreases m.waiting.len(),
{
    if m.loading.len() >= m.max_inflight || m.waiting.len() == 0 || is_overdue(
        m.waiting[0],
        now_ms,
    ) {
        0
    } else {
        1 + startable(
            WalReplayModel {
                waiting: m.waiting.skip(1),
                loading: m.loading.push(m.waiting[0]),
                ..m
            },
            now_ms,
        )
    }
}

/// The replays after the first `n` waiting ones were started.
pub open spec fn started(m: WalReplayModel, n: int) -> WalReplayModel {
    WalReplayModel {
        waiting: m.waiting.skip(n),
        loading: m.loading + m.waiting.take(n),
        ..m
    }
}

/// Replay is overloaded: there is room to load, but the oldest waiting replay has waited
/// for too long.
pub open spec fn is_overloaded(m: WalReplayModel, now_ms: u64) -> bool {
    m.loading.len() < m.max_inflight && m.waiting.len() > 0 && is_overdue(m.waiting[0], now_ms)
}

/// The nodes that own the WALs of some tasks, each once.
pub open spec fn names_nodes(tasks: Seq<WalTaskModel>, nodes: Seq<i32>) -> bool {
    &&& nodes.no_duplicates()
    &&& forall|node: i32| #[trigger] nodes.contains(node) <==> owns_some(tasks, node)
}

/// The node owns the WAL of one of the tasks.
pub open spec fn owns_some(tasks: Seq<WalTaskModel>, node: i32) -> bool {
    exists|j: int| 0 <= j < tasks.len() && signed32((#[trigger] tasks[j]).node_id) == node
}

/// What became of waiting WAL replays.
#[derive(Debug)]
pub struct WalStep {
    /// Replays whose load is to be started.
    pub started: Vec<u64>,
    /// Replays that were dropped; their callers are told that they are done.
    pub dropped: Vec<u64>,
    /// Nodes that are to be asked to commit.
    pub commit_nodes: Vec<i32>,
}

/// The queues of WAL replays.
#[derive(Debug)]
pub struct WalReplay {
    waiting: VecDeque<WalReplayTask>,
    loading: VecDeque<WalReplayTask>,
    max_inflight: usize,
}

impl View for WalReplay {
    type V = WalReplayModel;

    closed spec fn view(&self) -> WalReplayModel {
        WalReplayModel {
            waiting: wal_tasks(self.waiting@),
            loading: wal_tasks(self.loading@),
            max_inflight: self.max_inflight,
        }
    }
}

fn contains_node(nodes: &Vec<i32>, node: i32) -> (r: bool)
    ensures
        r == nodes@.contains(node),
{
    let mut i: usize = 0;
    while i < nodes.len()
        invariant
            i <= nodes@.len(),
            forall|j: int| 0 <= j < i ==> nodes@[j] != node,
        decreases nodes@.len() - i,
    {
        if nodes[i] == node {
            assert(nodes@[i as int] == node);
            return true;
        }
        i += 1;
    }
    false
}

impl WalReplay {
    pub closed spec fn records_ok(&self) -> bool {
        &&& forall|i: int, j: int|
            0 <= i < self.waiting@.len() && 0 <= j < self.waiting@[i].records@.len() ==> is_batch(
                (#[trigger] self.waiting@[i].records@[j])@,
            )
        &&& forall|i: int, j: int|
            0 <= i < self.loading@.len() && 0 <= j < self.loading@[i].records@.len() ==> is_batch(
                (#[trigger] self.loading@[i].records@[j])@,
            )
    }

    /// Queues for a machine with a number of processors: four loads for each.
    pub fn new(parallelism: usize) -> (r: Self)
        requires
            parallelism * 4 <= usize::MAX,
        ensures
            r.records_ok(),
            r@ == (WalReplayModel {
                waiting: Seq::empty(),
                loading: Seq::empty(),
                max_inflight: (parallelism * 4) as usize,
            }),
    {
        let r = WalReplay {
            waiting: VecDeque::new(),
            loading: VecDeque::new(),
            max_inflight: parallelism * 4,
        };
        proof {
            assert(r@.waiting =~= Seq::empty());
            assert(r@.loading =~= Seq::empty());
        }
        r
    }

    /// Drops all waiting replays. Returns their ids, and the nodes that are to commit.
    fn clear_overloaded(&mut self) -> (r: (Vec<u64>, Vec<i32>))
        requires
            old(self).records_ok(),
        ensures
            final(self).records_ok(),
            final(self)@ == (WalReplayModel { waiting: Seq::empty(), ..old(self)@ }),
            r.0@ == wal_ids(old(self)@.waiting),
            names_nodes(old(self)@.waiting, r.1@),
    {
        let ghost tasks = self@.waiting;
        let mut ids: Vec<u64> = Vec::new();
        let mut nodes: Vec<i32> = Vec::new();
        let mut i: usize = 0;
        while i < self.waiting.len()
            invariant
                i <= self.waiting@.len(),
                *self == *old(self),
                tasks == self@.waiting,
                ids@.len() == i,
                forall|j: int| 0 <= j < i ==> #[trigger] ids@[j] == tasks[j].id,
                names_nodes(tasks.take(i as int), nodes@),
            decreases self.waiting@.len() - i,
        {
            let ghost before = nodes@;
            assert(tasks[i as int] == self.waiting@[i as int]@);
            ids.push(self.waiting[i].id);
            let node: i32 = as_signed32(self.waiting[i].node_id);
            if !contains_node(&nodes, node) {
                nodes.push(node);
                assert forall|n: i32| #[trigger] nodes@.contains(n) <==> before.contains(n) || n
                    == node by {
                    vstd::seq_lib::lemma_seq_contains_after_push(before, node, n);
                }
            }
            proof {
                let done = tasks.take(i as int);
                let next = tasks.take(i + 1);
                assert forall|n: i32| #[trigger] nodes@.contains(n) <==> owns_some(next, n) by {
                    assert(before.contains(n) <==> owns_some(done, n));
                    if owns_some(done, n) {
                        let j = choose|j: int|
                            0 <= j < done.len() && signed32((#[trigger] done[j]).node_id) == n;
                        assert(next[j] == done[j]);
                    }
                    if n == node {
                        assert(next[i as int] == tasks[i as int]);
                    }
                    if owns_some(next, n) {
                        let j = choose|j: int|
                            0 <= j < next.len() && signed32((#[trigger] next[j]).node_id) == n;
                        if j < i {
                            assert(done[j] == next[j]);
                        }
                    }
                }
            }
            i += 1;
        }
        assert(tasks.take(i as int) =~= tasks);
        self.waiting = VecDeque::new();
        proof {
            assert(self@.waiting =~= Seq::empty());
            assert(ids@ =~= wal_ids(tasks));
        }
        (ids, nodes)
    }

    /// Starts waiting replays, or drops them all where replay is overloaded.
    pub fn try_load(&mut self, now_ms: u64) -> (r: WalStep)
        requires
            old(self).records_ok(),
        ensures
            final(self).records_ok(),
            ({
                let n = startable(old(self)@, now_ms);
                let m = started(old(self)@, n);
                &&& r.started@ == wal_ids(old(self)@.waiting.take(n))
                &&& if is_overloaded(m, now_ms) {
                    &&& final(self)@ == (WalReplayModel { waiting: Seq::empty(), ..m })
                    &&& r.dropped@ == wal_ids(m.waiting)
                    &&& names_nodes(m.waiting, r.commit_nodes@)
                } else {
                    &&& final(self)@ == m
                    &&& r.dropped@.len() == 0
                    &&& r.commit_nodes@.len() == 0
                }
            }),
    {
        let ghost start = self@;
        let ghost total = startable(start, now_ms);
        let mut out: Vec<u64> = Vec::new();
        proof {
            assert(started(start, 0).waiting =~= start.waiting);
            assert(started(start, 0).loading =~= start.loading);
            assert(out@ =~= wal_ids(start.waiting.take(0)));
        }
        while self.loading.len() < self.max_inflight && self.waiting.len() > 0
            invariant_except_break
                total == out@.len() + startable(self@, now_ms),
            invariant
                self.records_ok(),
                out@.len() <= start.waiting.len(),
                self@ == started(start, out@.len() as int),
                out@ == wal_ids(start.waiting.take(out@.len() as int)),
            ensures
                total == out@.len(),
                !is_overloaded(self@, now_ms) || out@.len() == total,
            decreases self.waiting@.len(),
        {
            let ghost before = self@;
            let ghost n = out@.len() as int;
            assert(before.waiting[0] == self.waiting@[0]@);
            let at: u64 = self.waiting[0].timestamp_ms;
            if now_ms > at && now_ms - at > TASK_WAITING_TIMEOUT_MS {
                break ;
            }
            let ghost waiting = self.waiting@;
            let ghost loading = self.loading@;
            match self.waiting.pop_front() {
                Some(task) => {
                    out.push(task.id);
                    self.loading.push_back(task);
                    proof {
                        assert(self@.waiting =~= before.waiting.skip(1));
                        assert(self@.loading =~= before.loading.push(before.waiting[0]));
                        assert(self@.waiting =~= start.waiting.skip(n + 1));
                        assert(self@.loading =~= start.loading + start.waiting.take(n + 1));
                        assert(out@ =~= wal_ids(start.waiting.take(n + 1)));
                        assert forall|i: int, j: int|
                            0 <= i < self.waiting@.len() && 0 <= j
                                < self.waiting@[i].records@.len() implies is_batch(
                            (#[trigger] self.waiting@[i].records@[j])@,
                        ) by {
                            assert(is_batch(waiting[i + 1].records@[j]@));
                        }
                        assert forall|i: int, j: int|
                            0 <= i < self.loading@.len() && 0 <= j
                                < self.loading@[i].records@.len() implies is_batch(
                            (#[trigger] self.loading@[i].records@[j])@,
                        ) by {
                            if i < loading.len() {
                                assert(is_batch(loading[i].records@[j]@));
                            } else {
                                assert(is_batch(waiting[0].records@[j]@));
                            }
                        }
                    }
                },
                None => {
                    assert(false);
                },
            }
        }
        let overloaded: bool = if self.loading.len() < self.max_inflight && self.waiting.len()
            > 0 {
            assert(self@.waiting[0] == self.waiting@[0]@);
            let at: u64 = self.waiting[0].timestamp_ms;
            now_ms > at && now_ms - at > TASK_WAITING_TIMEOUT_MS
        } else {
            false
        };
        assert(overloaded == is_overloaded(self@, now_ms));
        if overloaded {
            let (dropped, commit_nodes) = self.clear_overloaded();
            WalStep { started: out, dropped, commit_nodes }
        } else {
            WalStep { started: out, dropped: Vec::new(), commit_nodes: Vec::new() }
        }
    }

    /// Asks for a replay. A full queue is dropped first.
    pub fn enqueue(&mut self, task: WalReplayTask) -> (r: WalStep)
        requires
            old(self).records_ok(),
            task.records@.len() == 0,
        ensures
            final(self).records_ok(),
            r.started@.len() == 0,
            if old(self)@.waiting.len() >= MAX_WAITING_LOAD_TASK_COUNT {
                &&& r.dropped@ == wal_ids(old(self)@.waiting)
                &&& names_nodes(old(self)@.waiting, r.commit_nodes@)
                &&& final(self)@ == (WalReplayModel { waiting: seq![task@], ..old(self)@ })
            } else {
                &&& r.dropped@.len() == 0
                &&& r.commit_nodes@.len() == 0
                &&& final(self)@ == (WalReplayModel {
                    waiting: old(self)@.waiting.push(task@),
                    ..old(self)@
                })
            },
    {
        let (dropped, commit_nodes) = if self.waiting.len() >= MAX_WAITING_LOAD_TASK_COUNT {
            self.clear_overloaded()
        } else {
            (Vec::new(), Vec::new())
        };
        let ghost before = self@;
        let ghost waiting = self.waiting@;
        self.waiting.push_back(task);
        proof {
            assert(self@.waiting =~= before.waiting.push(task@));
            assert(seq![task@] =~= Seq::<WalTaskModel>::empty().push(task@));
            assert forall|i: int, j: int|
                0 <= i < self.waiting@.len() && 0 <= j < self.waiting@[i].records@.len() implies
                is_batch((#[trigger] self.waiting@[i].records@[j])@) by {
                if i < waiting.len() {
                    assert(is_batch(waiting[i].records@[j]@));
                }
            }
        }
        WalStep { started: Vec::new(), dropped, commit_nodes }
    }

    /// The load of a replay is done; a failed one gives no records.
    pub fn on_loaded(&mut self, id: u64, records: Vec<StreamRecordBatch>)
        requires
            old(self).records_ok(),
            forall|i: int| 0 <= i < records@.len() ==> is_batch((#[trigger] records@[i])@),
        ensures
            final(self).records_ok(),
            final(self)@ == (match task_at(old(self)@.loading, id) {
                Some(i) => WalReplayModel {
                    loading: old(self)@.loading.update(
                        i,
                        WalTaskModel {
                            load_done: true,
                            records: record_views(records@),
                            ..old(self)@.loading[i]
                        },
                    ),
                    ..old(self)@
                },
                None => old(self)@,
            }),
    {
        let ghost before = self@;
        let ghost start = *self;
        let mut front: VecDeque<WalReplayTask> = VecDeque::new();
        let mut found: bool = false;
        let mut given: Vec<StreamRecordBatch> = records;
        let ghost views = record_views(records@);
        let ghost goal = match task_at(before.loading, id) {
            Some(i) => before.loading.update(
                i,
                WalTaskModel { load_done: true, records: views, ..before.loading[i] },
            ),
            None => before.loading,
        };
        proof {
            lemma_task_at(before.loading, id);
        }
        let ghost all = self.loading@;
        let ghost mut n: int = 0;
        while self.loading.len() > 0
            invariant
                0 <= n <= all.len(),
                before.loading == wal_tasks(all),
                self.waiting == start.waiting,
                self.max_inflight == start.max_inflight,
                start.records_ok(),
                all == start.loading@,
                self.loading@ == all.skip(n),
                front@.len() == n,
                goal.len() == all.len(),
                goal == (match task_at(before.loading, id) {
                    Some(i) => before.loading.update(
                        i,
                        WalTaskModel { load_done: true, records: views, ..before.loading[i] },
                    ),
                    None => before.loading,
                }),
                forall|j: int| 0 <= j < n ==> (#[trigger] front@[j])@ == goal[j],
                forall|i: int, j: int|
                    0 <= i < front@.len() && 0 <= j < front@[i].records@.len() ==> is_batch(
                        (#[trigger] front@[i].records@[j])@,
                    ),
                !found ==> record_views(given@) == views,
                forall|i: int| 0 <= i < given@.len() ==> is_batch((#[trigger] given@[i])@),
                found == (task_at(before.loading, id) matches Some(i) && i < n),
                task_at(before.loading, id) matches Some(i) ==> {
                    &&& 0 <= i < before.loading.len()
                    &&& before.loading[i].id == id
                    &&& forall|j: int| 0 <= j < i ==> (#[trigger] before.loading[j]).id != id
                },
                task_at(before.loading, id) is None ==> forall|j: int|
                    0 <= j < before.loading.len() ==> (#[trigger] before.loading[j]).id != id,
            decreases self.loading@.len(),
        {
            let ghost prior = front@;
            match self.loading.pop_front() {
                Some(task) => {
                    let mut task = task;
                    proof {
                        assert(task == all[n]);
                        assert(before.loading[n] == all[n]@);
                        assert(self.loading@ =~= all.skip(n + 1));
                        assert forall|j: int| 0 <= j < task.records@.len() implies is_batch(
                            (#[trigger] task.records@[j])@,
                        ) by {
                            assert(is_batch(start.loading@[n].records@[j]@));
                        }
                    }
                    if !found && task.id == id {
                        found = true;
                        task.load_done = true;
                        let mut taken: Vec<StreamRecordBatch> = Vec::new();
                        let ghost g = given@;
                        taken.append(&mut given);
                        assert(taken@ =~= g);
                        task.records = taken;
                    }
                    let ghost last = task;
                    front.push_back(task);
                    proof {
                        assert(last@ == goal[n]);
                        assert forall|j: int| 0 <= j < n + 1 implies (#[trigger] front@[j])@
                            == goal[j] by {
                            if j < n {
                                assert(front@[j] == prior[j]);
                            }
                        }
                        assert forall|i: int, j: int|
                            0 <= i < front@.len() && 0 <= j < front@[i].records@.len() implies
                            is_batch((#[trigger] front@[i].records@[j])@) by {
                            if i < n {
                                assert(is_batch(prior[i].records@[j]@));
                            }
                        }
                        n = n + 1;
                    }
                },
                None => {
                    assert(false);
                },
            }
        }
        self.loading = front;
        assert(self@.loading =~= goal);
    }

    /// Takes the oldest load, if it is done.
    pub fn take_loaded(&mut self) -> (r: Option<WalReplayTask>)
        requires
            old(self).records_ok(),
        ensures
            final(self).records_ok(),
            if old(self)@.loading.len() > 0 && old(self)@.loading[0].load_done {
                &&& r matches Some(t) && t@ == old(self)@.loading[0] && forall|j: int|
                    0 <= j < t.records@.len() ==> is_batch((#[trigger] t.records@[j])@)
                &&& final(self)@ == (WalReplayModel {
                    loading: old(self)@.loading.skip(1),
                    ..old(self)@
                })
            } else {
                r is None && final(self)@ == old(self)@
            },
    {
        let ghost before = self@;
        let ghost all = self.loading@;
        if self.loading.len() == 0 {
            return None;
        }
        assert(before.loading[0] == self.loading@[0]@);
        if !self.loading[0].load_done {
            return None;
        }
        let r = self.loading.pop_front();
        proof {
            assert(self@.loading =~= before.loading.skip(1));
            assert forall|j: int| 0 <= j < all[0].records@.len() implies is_batch(
                (#[trigger] all[0].records@[j])@,
            ) by {}
            assert forall|i: int, j: int|
                0 <= i < self.loading@.len() && 0 <= j < self.loading@[i].records@.len() implies
                is_batch((#[trigger] self.loading@[i].records@[j])@) by {
                assert(is_batch(all[i + 1].records@[j]@));
            }
        }
        r
    }
}

/// The first task with an id.
pub open spec fn task_at(tasks: Seq<WalTaskModel>, id: u64) -> Option<int>
    decreases tasks.len(),
{
    if tasks.len() == 0 {
        None
    } else {
        match task_at(tasks.drop_last(), id) {
            Some(i) => Some(i),
            None => if tasks.last().id == id {
                Some(tasks.len() - 1)
            } else {
                None
            },
        }
    }
}

proof fn lemma_task_at(tasks: Seq<WalTaskModel>, id: u64)
    ensures
        task_at(tasks, id) matches Some(i) ==> {
            &&& 0 <= i < tasks.len()
            &&& tasks[i].id == id
            &&& forall|j: int| 0 <= j < i ==> (#[trigger] tasks[j]).id != id
        },
        task_at(tasks, id) is None ==> forall|j: int|
            0 <= j < tasks.len() ==> (#[trigger] tasks[j]).id != id,
    decreases tasks.len(),
{
    if tasks.len() > 0 {
        lemma_task_at(tasks.drop_last(), id);
        assert forall|j: int| 0 <= j < tasks.len() - 1 implies (#[trigger] tasks[j])
            == tasks.drop_last()[j] by {}
    }
}

/// Replays are started in the order in which they were asked for, and what is not started
/// keeps waiting in that order.
pub proof fn law_replays_start_in_order(m: WalReplayModel, now_ms: u64)
    ensures
        0 <= startable(m, now_ms) <= m.waiting.len(),
        started(m, startable(m, now_ms)).loading + started(m, startable(m, now_ms)).waiting
            == m.loading + m.waiting,
        m.loading.len() <= m.max_inflight ==> m.loading.len() + startable(m, now_ms)
            <= m.max_inflight,
{
    lemma_startable(m, now_ms);
    let n = startable(m, now_ms);
    assert(started(m, n).loading + started(m, n).waiting =~= m.loading + m.waiting);
}

proof fn lemma_startable(m: WalReplayModel, now_ms: u64)
    ensures
        0 <= startable(m, now_ms) <= m.waiting.len(),
        m.loading.len() <= m.max_inflight ==> m.loading.len() + startable(m, now_ms)
            <= m.max_inflight,
    decreases m.waiting.len(),
{
    if !(m.loading.len() >= m.max_inflight || m.waiting.len() == 0 || is_overdue(
        m.waiting[0],
        now_ms,
    )) {
        lemma_startable(
            WalReplayModel {
                waiting: m.waiting.skip(1),
                loading: m.loading.push(m.waiting[0]),
                ..m
            },
            now_ms,
        );
    }
}

/// The records that a WAL range gives: link records replaced by what they decode to. One
/// that does not decode spoils the range.
pub open spec fn resolved(records: Seq<Seq<u8>>, decoded: Seq<Option<Seq<u8>>>) -> Seq<Seq<u8>> {
    if exists|i: int|
        0 <= i < records.len() && rec_count(#[trigger] records[i]) < 0 && decoded[i] is None {
        Seq::empty()
    } else {
        Seq::new(
            records.len(),
            |i: int|
                if rec_count(records[i]) < 0 {
                    decoded[i]->0
                } else {
                    records[i]
                },
        )
    }
}

/// What the link decoder gave for each record; `None` where it failed or there is none.
pub open spec fn decoded_views(v: Seq<Option<StreamRecordBatch>>) -> Seq<Option<Seq<u8>>> {
    v.map_values(
        |r: Option<StreamRecordBatch>|
            match r {
                Some(b) => Some(b@),
                None => None,
            },
    )
}

/// Replaces the link records of a WAL range by what they decode to.
pub fn resolve_links(
    records: &Vec<StreamRecordBatch>,
    decoded: &Vec<Option<StreamRecordBatch>>,
) -> (r: Vec<StreamRecordBatch>)
    requires
        decoded@.len() == records@.len(),
        forall|i: int| 0 <= i < records@.len() ==> is_batch((#[trigger] records@[i])@),
        forall|i: int|
            0 <= i < decoded@.len() ==> ((#[trigger] decoded@[i]) matches Some(b) ==> is_batch(b@)),
    ensures
        record_views(r@) == resolved(record_views(records@), decoded_views(decoded@)),
        forall|i: int| 0 <= i < r@.len() ==> is_batch((#[trigger] r@[i])@),
{
    let ghost views = record_views(records@);
    let ghost replies = decoded_views(decoded@);
    let mut out: Vec<StreamRecordBatch> = Vec::new();
    let mut i: usize = 0;
    while i < records.len()
        invariant
            i <= records@.len() == decoded@.len(),
            views == record_views(records@),
            replies == decoded_views(decoded@),
            forall|i: int| 0 <= i < records@.len() ==> is_batch((#[trigger] records@[i])@),
            forall|i: int|
                0 <= i < decoded@.len() ==> ((#[trigger] decoded@[i]) matches Some(b) ==> is_batch(
                    b@,
                )),
            out@.len() == i,
            forall|j: int| 0 <= j < i ==> is_batch((#[trigger] out@[j])@),
            forall|j: int|
                0 <= j < i ==> (#[trigger] out@[j])@ == (if rec_count(views[j]) < 0 {
                    replies[j]->0
                } else {
                    views[j]
                }),
            forall|j: int| 0 <= j < i ==> rec_count(#[trigger] views[j]) >= 0 || replies[j] is Some,
        decreases records@.len() - i,
    {
        proof {
            assert(is_batch(records@[i as int]@));
            assert(views[i as int] == records@[i as int]@);
        }
        if records[i].count() >= 0 {
            out.push(records[i].clone());
        } else {
            match &decoded[i] {
                Some(b) => {
                    assert(replies[i as int] == Some(b@));
                    assert(decoded@[i as int] is Some);
                    out.push(b.clone());
                },
                None => {
                    assert(replies[i as int] is None);
                    assert(rec_count(views[i as int]) < 0);
                    let none: Vec<StreamRecordBatch> = Vec::new();
                    assert(record_views(none@) =~= Seq::empty());
                    return none;
                },
            }
        }
        i += 1;
    }
    assert(record_views(out@) =~= resolved(views, replies));
    out
}

/// An object that is too far ahead of what its owner committed.
pub open spec fn is_ahead(bounds: Seq<StreamRangeBound>, meta: StreamMetadata) -> bool {
    bound_of(bounds, meta.stream_id) matches Some(i) && signed(bounds[i].end_offset) > signed(
        meta.end_offset,
    )
}

/// The first range of a stream.
pub open spec fn bound_of(bounds: Seq<StreamRangeBound>, stream_id: u64) -> Option<int>
    decreases bounds.len(),
{
    if bounds.len() == 0 {
        None
    } else {
        match bound_of(bounds.drop_last(), stream_id) {
            Some(i) => Some(i),
            None => if bounds.last().stream_id == stream_id {
                Some(bounds.len() - 1)
            } else {
                None
            },
        }
    }
}

fn find_bound(bounds: &Vec<StreamRangeBound>, stream_id: u64) -> (r: Option<usize>)
    ensures
        match bound_of(bounds@, stream_id) {
            Some(i) => r matches Some(k) && k == i && 0 <= i < bounds@.len(),
            None => r is None,
        },
{
    let ghost all = bounds@;
    let mut i: usize = 0;
    assert(bound_of(all.take(0), stream_id) is None);
    while i < bounds.len()
        invariant
            i <= bounds@.len(),
            all == bounds@,
            bound_of(all.take(i as int), stream_id) is None,
        decreases bounds@.len() - i,
    {
        assert(all.take(i + 1).drop_last() =~= all.take(i as int));
        assert(all.take(i + 1).last() == all[i as int]);
        if bounds[i].stream_id == stream_id {
            proof {
                lemma_bound_prefix(all, i + 1, stream_id);
            }
            return Some(i);
        }
        i += 1;
    }
    assert(all.take(i as int) =~= all);
    None
}

proof fn lemma_bound_prefix(bounds: Seq<StreamRangeBound>, n: int, stream_id: u64)
    requires
        0 <= n <= bounds.len(),
        bound_of(bounds.take(n), stream_id) is Some,
    ensures
        bound_of(bounds, stream_id) == bound_of(bounds.take(n), stream_id),
    decreases bounds.len(),
{
    if n < bounds.len() {
        assert(bounds.drop_last().take(n) =~= bounds.take(n));
        lemma_bound_prefix(bounds.drop_last(), n, stream_id);
    } else {
        assert(bounds.take(n) =~= bounds);
    }
}

/// A released block: the nodes that own streams of which the block held more than is
/// committed. They are asked to commit, each once.
pub fn nodes_behind(bounds: &Vec<StreamRangeBound>, metas: &Vec<StreamMetadata>) -> (r: Vec<i32>)
    ensures
        r@.no_duplicates(),
        forall|node: i32| #[trigger]
            r@.contains(node) <==> exists|j: int|
                0 <= j < metas@.len() && is_ahead(bounds@, #[trigger] metas@[j])
                    && metas@[j].node_id == node,
{
    let mut nodes: Vec<i32> = Vec::new();
    let mut i: usize = 0;
    while i < metas.len()
        invariant
            i <= metas@.len(),
            nodes@.no_duplicates(),
            forall|node: i32| #[trigger]
                nodes@.contains(node) <==> exists|j: int|
                    0 <= j < i && is_ahead(bounds@, #[trigger] metas@[j]) && metas@[j].node_id
                        == node,
        decreases metas@.len() - i,
    {
        let ghost before = nodes@;
        let meta = metas[i];
        let ahead: bool = match find_bound(bounds, meta.stream_id) {
            Some(k) => as_signed(bounds[k].end_offset) > as_signed(meta.end_offset),
            None => false,
        };
        assert(ahead == is_ahead(bounds@, metas@[i as int]));
        if ahead && !contains_node(&nodes, meta.node_id) {
            nodes.push(meta.node_id);
            assert forall|node: i32| #[trigger] nodes@.contains(node) <==> before.contains(node)
                || node == meta.node_id by {
                vstd::seq_lib::lemma_seq_contains_after_push(before, meta.node_id, node);
            }
        }
        proof {
            assert forall|node: i32| #[trigger] nodes@.contains(node) <==> exists|j: int|
                0 <= j < i + 1 && is_ahead(bounds@, #[trigger] metas@[j]) && metas@[j].node_id
                    == node by {
                if nodes@.contains(node) {
                    if before.contains(node) {
                        let j = choose|j: int|
                            0 <= j < i && is_ahead(bounds@, #[trigger] metas@[j])
                                && metas@[j].node_id == node;
                        assert(is_ahead(bounds@, metas@[j]));
                    } else {
                        assert(is_ahead(bounds@, metas@[i as int]));
                    }
                }
                if exists|j: int|
                    0 <= j < i + 1 && is_ahead(bounds@, #[trigger] metas@[j]) && metas@[j].node_id
                        == node {
                    let j = choose|j: int|
                        0 <= j < i + 1 && is_ahead(bounds@, #[trigger] metas@[j])
                            && metas@[j].node_id == node;
                    if j < i {
                        assert(before.contains(node));
                    }
                }
            }
        }
        i += 1;
    }
    nodes
}

} // verus!
