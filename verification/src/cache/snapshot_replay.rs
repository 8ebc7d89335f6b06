//! Replay of committed objects and WAL ranges into the snapshot-read cache.
use vstd::prelude::*;

use crate::cache::log_cache::LogCache;
use crate::cache::snapshot_read::{
    expired, put_records, wal_ids, TailCache, TailModel, WalReplay, WalReplayModel, WalTaskModel,
    MAX_INFLIGHT_LOAD_BYTES,
};
use crate::cache::stream_cache::record_views;
use crate::codec::record::{is_batch, StreamRecordBatch};
use crate::error::{StreamError, Unexpected};

verus! {

/// The load of one data block of an object.
#[derive(Debug)]
pub enum BlockLoad {
    Pending,
    /// The block could not be read or decoded; it is skipped.
    Failed,
    Loaded(Vec<StreamRecordBatch>),
}

/// How far the load of a data block is.
pub enum LoadModel {
    Pending,
    Failed,
    Loaded(Seq<Seq<u8>>),
}

impl View for BlockLoad {
    type V = LoadModel;

    open spec fn view(&self) -> LoadModel {
        match self {
            BlockLoad::Pending => LoadModel::Pending,
            BlockLoad::Failed => LoadModel::Failed,
            BlockLoad::Loaded(r) => LoadModel::Loaded(record_views(r@)),
        }
    }
}

pub open spec fn load_models(v: Seq<BlockLoad>) -> Seq<LoadModel> {
    v.map_values(|b: BlockLoad| b@)
}

/// An object to replay: the loads of its blocks, once its index is known, and how many of
/// them were put.
#[derive(Debug)]
pub struct ObjectReplayTask {
    pub id: u64,
    pub object_size: u64,
    pub blocks: Option<Vec<BlockLoad>>,
    pub next: usize,
}

#[verifier::ext_equal]
pub struct ObjectTaskModel {
    pub id: u64,
    pub object_size: u64,
    pub blocks: Option<Seq<LoadModel>>,
    pub next: int,
}

impl View for ObjectReplayTask {
    type V = ObjectTaskModel;

    open spec fn view(&self) -> ObjectTaskModel {
        ObjectTaskModel {
            id: self.id,
            object_size: self.object_size,
            blocks: match self.blocks {
                Some(b) => Some(load_models(b@)),
                None => None,
            },
            next: self.next as int,
        }
    }
}

impl ObjectReplayTask {
    /// Every loaded record is a batch, and no more blocks were put than there are.
    pub open spec fn wf(&self) -> bool {
        self.blocks matches Some(b) ==> {
            &&& self.next <= b@.len()
            &&& forall|i: int|
                0 <= i < b@.len() ==> ((#[trigger] b@[i]) matches BlockLoad::Loaded(r) ==> (
                forall|j: int| 0 <= j < r@.len() ==> is_batch((#[trigger] r@[j])@)))
        }
    }
}

pub open spec fn object_tasks(v: Seq<ObjectReplayTask>) -> Seq<ObjectTaskModel> {
    v.map_values(|t: ObjectReplayTask| t@)
}

pub open spec fn object_ids(v: Seq<ObjectTaskModel>) -> Seq<u64> {
    v.map_values(|t: ObjectTaskModel| t.id)
}

/// Objects that wait, objects that are loaded, oldest first, and the bytes of the latter.
#[verifier::ext_equal]
pub struct ObjectReplayModel {
    pub inflight: int,
    pub waiting: Seq<ObjectTaskModel>,
    pub loading: Seq<ObjectTaskModel>,
}

/// How many waiting objects can be loaded: as long as the bytes in flight are below their
/// limit.
pub open spec fn loadable(m: ObjectReplayModel) -> int
    decreases m.waiting.len(),
{
    if m.inflight >= MAX_INFLIGHT_LOAD_BYTES || m.waiting.len() == 0 {
        0
    } else {
        1 + loadable(began_one(m))
    }
}

/// The load of the oldest waiting object begins.
pub open spec fn began_one(m: ObjectReplayModel) -> ObjectReplayModel {
    ObjectReplayModel {
        inflight: m.inflight + m.waiting[0].object_size,
        waiting: m.waiting.skip(1),
        loading: m.loading.push(m.waiting[0]),
    }
}

/// The load of the `n` oldest waiting objects begins.
pub open spec fn began(m: ObjectReplayModel, n: int) -> ObjectReplayModel
    decreases n,
{
    if n <= 0 {
        m
    } else {
        began_one(began(m, n - 1))
    }
}

/// The blocks of an object are put from `i` on, up to the first whose load runs.
pub open spec fn put_blocks(tail: TailModel, blocks: Seq<LoadModel>, i: int, now_ms: u64) -> (
    TailModel,
    int,
)
    decreases blocks.len() - i,
{
    if i < 0 || i >= blocks.len() {
        (tail, i)
    } else {
        match blocks[i] {
            LoadModel::Pending => (tail, i),
            LoadModel::Failed => put_blocks(tail, blocks, i + 1, now_ms),
            LoadModel::Loaded(r) => put_blocks(
                put_records(tail, r, now_ms),
                blocks,
                i + 1,
                now_ms,
            ),
        }
    }
}

/// The replay of objects with what it leads to.
#[verifier::ext_equal]
pub struct SettleModel {
    pub tail: TailModel,
    pub objects: ObjectReplayModel,
    pub completed: Seq<u64>,
    pub started: Seq<u64>,
}

/// The objects whose blocks are all loaded are put, oldest first; one whose blocks are not
/// holds up those behind it. Each that is done makes room for more.
pub open spec fn settled(s: SettleModel, now_ms: u64) -> SettleModel
    decreases s.objects.loading.len() + s.objects.waiting.len(),
    via lemma_settled_decreases
{
    if s.objects.loading.len() == 0 || s.objects.loading[0].blocks is None {
        s
    } else {
        let head = s.objects.loading[0];
        let blocks = head.blocks->0;
        let (tail, stop) = put_blocks(s.tail, blocks, head.next, now_ms);
        if stop < blocks.len() {
            SettleModel {
                tail,
                objects: ObjectReplayModel {
                    loading: s.objects.loading.update(0, ObjectTaskModel { next: stop, ..head }),
                    ..s.objects
                },
                ..s
            }
        } else {
            let left = ObjectReplayModel {
                inflight: if s.objects.inflight >= head.object_size {
                    s.objects.inflight - head.object_size
                } else {
                    0
                },
                loading: s.objects.loading.skip(1),
                ..s.objects
            };
            let n = loadable(left);
            settled(
                SettleModel {
                    tail,
                    objects: began(left, n),
                    completed: s.completed.push(head.id),
                    started: s.started + object_ids(left.waiting.take(n)),
                },
                now_ms,
            )
        }
    }
}

#[via_fn]
proof fn lemma_settled_decreases(s: SettleModel, now_ms: u64) {
    let head = s.objects.loading[0];
    let left = ObjectReplayModel {
        inflight: if s.objects.inflight >= head.object_size {
            s.objects.inflight - head.object_size
        } else {
            0
        },
        loading: s.objects.loading.skip(1),
        ..s.objects
    };
    lemma_loadable(left);
    lemma_began(left, loadable(left));
}

proof fn lemma_loadable(m: ObjectReplayModel)
    ensures
        0 <= loadable(m) <= m.waiting.len(),
    decreases m.waiting.len(),
{
    if m.inflight < MAX_INFLIGHT_LOAD_BYTES && m.waiting.len() > 0 {
        lemma_loadable(began_one(m));
    }
}

proof fn lemma_began(m: ObjectReplayModel, n: int)
    requires
        0 <= n <= m.waiting.len(),
    ensures
        began(m, n).waiting == m.waiting.skip(n),
        began(m, n).loading == m.loading + m.waiting.take(n),
    decreases n,
{
    if n > 0 {
        lemma_began(m, n - 1);
        let b = began(m, n - 1);
        assert(b.waiting[0] == m.waiting[n - 1]);
        assert(b.waiting.skip(1) =~= m.waiting.skip(n));
        assert(b.loading.push(b.waiting[0]) =~= m.loading + m.waiting.take(n));
    } else {
        assert(m.waiting.skip(0) =~= m.waiting);
        assert(m.loading + m.waiting.take(0) =~= m.loading);
    }
}

/// Loads begin in the order in which the objects were asked for, and none is lost.
pub proof fn law_object_loads_keep_order(m: ObjectReplayModel)
    ensures
        0 <= loadable(m) <= m.waiting.len(),
        began(m, loadable(m)).loading + began(m, loadable(m)).waiting == m.loading + m.waiting,
{
    lemma_loadable(m);
    lemma_began(m, loadable(m));
    let n = loadable(m);
    assert(began(m, n).loading + began(m, n).waiting =~= m.loading + m.waiting);
}

/// The queues of object replays.
#[derive(Debug)]
pub struct ObjectReplay {
    inflight_load_bytes: u64,
    waiting: Vec<ObjectReplayTask>,
    loading: Vec<ObjectReplayTask>,
}

impl View for ObjectReplay {
    type V = ObjectReplayModel;

    closed spec fn view(&self) -> ObjectReplayModel {
        ObjectReplayModel {
            inflight: self.inflight_load_bytes as int,
            waiting: object_tasks(self.waiting@),
            loading: object_tasks(self.loading@),
        }
    }
}

impl ObjectReplay {
    pub closed spec fn wf(&self) -> bool {
        &&& forall|i: int|
            0 <= i < self.waiting@.len() ==> (#[trigger] self.waiting@[i]).wf()
                && self.waiting@[i].object_size <= u64::MAX - MAX_INFLIGHT_LOAD_BYTES
        &&& forall|i: int| 0 <= i < self.loading@.len() ==> (#[trigger] self.loading@[i]).wf()
    }

    pub fn new() -> (r: Self)
        ensures
            r.wf(),
            r@ == (ObjectReplayModel {
                inflight: 0,
                waiting: Seq::empty(),
                loading: Seq::empty(),
            }),
    {
        let r = ObjectReplay {
            inflight_load_bytes: 0,
            waiting: Vec::new(),
            loading: Vec::new(),
        };
        proof {
            assert(r@.waiting =~= Seq::empty());
            assert(r@.loading =~= Seq::empty());
        }
        r
    }

    /// Asks for the replay of an object.
    pub fn enqueue(&mut self, id: u64, object_size: u64)
        requires
            old(self).wf(),
            object_size <= u64::MAX - MAX_INFLIGHT_LOAD_BYTES,
        ensures
            final(self).wf(),
            final(self)@ == (ObjectReplayModel {
                waiting: old(self)@.waiting.push(
                    ObjectTaskModel { id, object_size, blocks: None, next: 0 },
                ),
                ..old(self)@
            }),
    {
        let ghost before = self@;
        let task = ObjectReplayTask { id, object_size, blocks: None, next: 0 };
        self.waiting.push(task);
        assert(self@.waiting =~= before.waiting.push(task@));
    }

    /// Begins loads as long as the bytes in flight allow. Returns the objects to load.
    pub fn try_load(&mut self) -> (r: Vec<u64>)
        requires
            old(self).wf(),
        ensures
            final(self).wf(),
            ({
                let n = loadable(old(self)@);
                final(self)@ == began(old(self)@, n) && r@ == object_ids(
                    old(self)@.waiting.take(n),
                )
            }),
    {
        let ghost start = self@;
        let ghost total = loadable(start);
        let mut out: Vec<u64> = Vec::new();
        assert(out@ =~= object_ids(start.waiting.take(0)));
        while self.inflight_load_bytes < MAX_INFLIGHT_LOAD_BYTES && self.waiting.len() > 0
            invariant
                self.wf(),
                out@.len() <= start.waiting.len(),
                self@ == began(start, out@.len() as int),
                self@.waiting.len() == start.waiting.len() - out@.len(),
                total == out@.len() + loadable(self@),
                out@ == object_ids(start.waiting.take(out@.len() as int)),
            decreases self.waiting@.len(),
        {
            let ghost before = *self;
            let ghost m = self@;
            let ghost n = out@.len() as int;
            proof {
                assert(m.waiting[0] == self.waiting@[0]@);
                lemma_began(start, n);
                assert(m.waiting[0] == start.waiting[n]);
                assert(self.waiting@[0].wf());
            }
            let task = self.waiting.remove(0);
            out.push(task.id);
            self.inflight_load_bytes = self.inflight_load_bytes + task.object_size;
            self.loading.push(task);
            proof {
                assert(self@.waiting =~= m.waiting.skip(1));
                assert(self@.loading =~= m.loading.push(m.waiting[0]));
                assert(self@ == began_one(m));
                assert(out@ =~= object_ids(start.waiting.take(n + 1)));
                assert forall|i: int| 0 <= i < self.waiting@.len() implies (
                #[trigger] self.waiting@[i]).wf() && self.waiting@[i].object_size <= u64::MAX
                    - MAX_INFLIGHT_LOAD_BYTES by {
                    assert(self.waiting@[i] == before.waiting@[i + 1]);
                }
                assert forall|i: int| 0 <= i < self.loading@.len() implies (
                #[trigger] self.loading@[i]).wf() by {
                    if i < before.loading@.len() {
                        assert(self.loading@[i] == before.loading@[i]);
                    }
                }
            }
        }
        out
    }

    fn find(&self, id: u64) -> (r: Option<usize>)
        ensures
            match object_at(self@.loading, id) {
                Some(i) => r matches Some(k) && k == i && k < self.loading@.len(),
                None => r is None,
            },
    {
        let ghost all = self@.loading;
        let mut k: usize = self.loading.len();
        assert(all.take(k as int) =~= all);
        while k > 0
            invariant
                k <= self.loading@.len(),
                all == self@.loading,
                object_at(all.take(k as int), id) == object_at(all, id),
            decreases k,
        {
            assert(all.take(k as int).drop_last() =~= all.take(k - 1));
            assert(all.take(k as int).last() == self.loading@[k - 1]@);
            if self.loading[k - 1].id == id {
                return Some(k - 1);
            }
            k -= 1;
        }
        None
    }

    /// The index of an object is known: it has this many blocks, whose loads begin.
    pub fn on_object_info(&mut self, id: u64, block_count: usize)
        requires
            old(self).wf(),
        ensures
            final(self).wf(),
            final(self)@ == (match object_at(old(self)@.loading, id) {
                Some(i) => ObjectReplayModel {
                    loading: old(self)@.loading.update(
                        i,
                        ObjectTaskModel {
                            blocks: Some(Seq::new(block_count as nat, |k: int| LoadModel::Pending)),
                            next: 0,
                            ..old(self)@.loading[i]
                        },
                    ),
                    ..old(self)@
                },
                None => old(self)@,
            }),
    {
        let ghost before = self@;
        let i: usize = match self.find(id) {
            Some(i) => i,
            None => {
                return ;
            },
        };
        let mut blocks: Vec<BlockLoad> = Vec::new();
        while blocks.len() < block_count
            invariant
                blocks@.len() <= block_count,
                forall|k: int|
                    0 <= k < blocks@.len() ==> (#[trigger] blocks@[k]) == BlockLoad::Pending,
            decreases block_count - blocks@.len(),
        {
            blocks.push(BlockLoad::Pending);
        }
        let ghost b = blocks@;
        assert(before.loading[i as int] == self.loading@[i as int]@);
        self.loading[i].blocks = Some(blocks);
        self.loading[i].next = 0;
        proof {
            assert(load_models(b) =~= Seq::new(
                block_count as nat,
                |k: int| LoadModel::Pending,
            ));
            assert(self@.loading =~= before.loading.update(
                i as int,
                self.loading@[i as int]@,
            ));
        }
    }

    /// The load of a block is over.
    pub fn on_block_loaded(&mut self, id: u64, block: usize, load: BlockLoad)
        requires
            old(self).wf(),
            load matches BlockLoad::Loaded(r) ==> forall|j: int|
                0 <= j < r@.len() ==> is_batch((#[trigger] r@[j])@),
        ensures
            final(self).wf(),
            final(self)@ == (match object_at(old(self)@.loading, id) {
                Some(i) => match old(self)@.loading[i].blocks {
                    Some(b) => if block < b.len() {
                        ObjectReplayModel {
                            loading: old(self)@.loading.update(
                                i,
                                ObjectTaskModel {
                                    blocks: Some(b.update(block as int, load@)),
                                    ..old(self)@.loading[i]
                                },
                            ),
                            ..old(self)@
                        }
                    } else {
                        old(self)@
                    },
                    None => old(self)@,
                },
                None => old(self)@,
            }),
    {
        let ghost before = self@;
        let i: usize = match self.find(id) {
            Some(i) => i,
            None => {
                return ;
            },
        };
        proof {
            assert(before.loading[i as int] == self.loading@[i as int]@);
            assert(self.loading@[i as int].wf());
        }
        let ghost was = self.loading@;
        let mut task = self.loading.remove(i);
        let ghost had = task;
        match task.blocks {
            Some(b) => {
                let mut b = b;
                let ghost old_blocks = b@;
                let ghost l = load;
                if block < b.len() {
                    b[block] = load;
                    assert(load_models(b@) =~= load_models(old_blocks).update(block as int, l@));
                }
                task.blocks = Some(b);
            },
            None => {
                task.blocks = None;
            },
        }
        let ghost now = task;
        self.loading.insert(i, task);
        proof {
            assert(had == was[i as int]);
            assert(self.loading@ =~= was.update(i as int, now));
            assert(self@.loading =~= before.loading.update(i as int, now@));
            if now@ == had@ {
                assert(before.loading.update(i as int, now@) =~= before.loading);
            }
            assert forall|k: int| 0 <= k < self.loading@.len() implies (
            #[trigger] self.loading@[k]).wf() by {
                if k != i {
                    assert(self.loading@[k] == was[k]);
                }
            }
        }
    }

    /// Takes the oldest object that is loaded. Where its index is not known yet, there is
    /// nothing to take.
    fn take_head(&mut self) -> (r: Option<(ObjectReplayTask, Vec<BlockLoad>)>)
        requires
            old(self).wf(),
        ensures
            final(self).wf(),
            if old(self)@.loading.len() == 0 || old(self)@.loading[0].blocks is None {
                r is None && final(self)@ == old(self)@
            } else {
                &&& final(self)@ == (ObjectReplayModel {
                    loading: old(self)@.loading.skip(1),
                    ..old(self)@
                })
                &&& r matches Some(t) && t.0.blocks is None && (ObjectTaskModel {
                    blocks: Some(load_models(t.1@)),
                    ..t.0@
                }) == old(self)@.loading[0] && t.0.next <= t.1@.len() && forall|i: int|
                    0 <= i < t.1@.len() ==> ((#[trigger] t.1@[i]) matches BlockLoad::Loaded(
                        r,
                    ) ==> (forall|j: int| 0 <= j < r@.len() ==> is_batch((#[trigger] r@[j])@)))
            },
    {
        let ghost before = self@;
        let ghost was = self.loading@;
        if self.loading.len() == 0 {
            return None;
        }
        assert(before.loading[0] == self.loading@[0]@);
        if self.loading[0].blocks.is_none() {
            return None;
        }
        let mut task = self.loading.remove(0);
        proof {
            assert(was[0].wf());
            assert(self@.loading =~= before.loading.skip(1));
            assert forall|k: int| 0 <= k < self.loading@.len() implies (
            #[trigger] self.loading@[k]).wf() by {
                assert(self.loading@[k] == was[k + 1]);
            }
        }
        match task.blocks {
            Some(b) => {
                task.blocks = None;
                Some((task, b))
            },
            None => {
                assert(false);
                None
            },
        }
    }

    /// Puts an object back in front.
    fn put_head(&mut self, task: ObjectReplayTask)
        requires
            old(self).wf(),
            task.wf(),
        ensures
            final(self).wf(),
            final(self)@ == (ObjectReplayModel {
                loading: seq![task@] + old(self)@.loading,
                ..old(self)@
            }),
    {
        let ghost before = self@;
        let ghost was = self.loading@;
        self.loading.insert(0, task);
        proof {
            assert(self@.loading =~= seq![task@] + before.loading);
            assert forall|k: int| 0 <= k < self.loading@.len() implies (
            #[trigger] self.loading@[k]).wf() by {
                if k > 0 {
                    assert(self.loading@[k] == was[k - 1]);
                }
            }
        }
    }
}

/// The object with an id among those that are loaded.
pub open spec fn object_at(tasks: Seq<ObjectTaskModel>, id: u64) -> Option<int>
    decreases tasks.len(),
{
    if tasks.len() == 0 {
        None
    } else if tasks.last().id == id {
        Some(tasks.len() - 1)
    } else {
        object_at(tasks.drop_last(), id)
    }
}

/// How many WAL replays are done, from the oldest on.
pub open spec fn done_count(loading: Seq<WalTaskModel>) -> int
    decreases loading.len(),
{
    if loading.len() == 0 || !loading[0].load_done {
        0
    } else {
        1 + done_count(loading.skip(1))
    }
}

/// The tails after some WAL replays were put, in order.
pub open spec fn put_tasks(tail: TailModel, tasks: Seq<WalTaskModel>, now_ms: u64) -> TailModel
    decreases tasks.len(),
{
    if tasks.len() == 0 {
        tail
    } else {
        put_records(put_tasks(tail, tasks.drop_last(), now_ms), tasks.last().records, now_ms)
    }
}

/// What putting loaded objects led to.
#[derive(Debug)]
pub struct ObjectStep {
    /// Replays that are done.
    pub completed: Vec<u64>,
    /// Objects whose load is to be started.
    pub started: Vec<u64>,
}

/// The snapshot-read cache: the tails of streams, and what is being replayed into them.
#[derive(Debug)]
pub struct SnapshotReadCache {
    pub tails: TailCache,
    pub wal: WalReplay,
    pub objects: ObjectReplay,
}

impl SnapshotReadCache {
    pub open spec fn wf(&self) -> bool {
        self.tails.wf() && self.wal.records_ok() && self.objects.wf()
    }

    pub fn new(cache: LogCache, parallelism: usize) -> (r: Self)
        requires
            cache.wf(),
            parallelism * 4 <= usize::MAX,
        ensures
            r.wf(),
            r.tails@ == (TailModel {
                log: cache@,
                next_offsets: Map::empty(),
                active: Map::empty(),
            }),
            r.wal@ == (WalReplayModel {
                waiting: Seq::empty(),
                loading: Seq::empty(),
                max_inflight: (parallelism * 4) as usize,
            }),
            r.objects@ == (ObjectReplayModel {
                inflight: 0,
                waiting: Seq::empty(),
                loading: Seq::empty(),
            }),
    {
        SnapshotReadCache {
            tails: TailCache::new(cache),
            wal: WalReplay::new(parallelism),
            objects: ObjectReplay::new(),
        }
    }

    /// Ingest confirmed records that are loaded already.
    pub fn put(&mut self, records: &Vec<StreamRecordBatch>, now_ms: u64)
        requires
            old(self).wf(),
            forall|i: int| 0 <= i < records@.len() ==> is_batch((#[trigger] records@[i])@),
        ensures
            final(self).wf(),
            final(self).wal == old(self).wal,
            final(self).objects == old(self).objects,
            final(self).tails@ == put_records(
                expired(old(self).tails@, now_ms),
                record_views(records@),
                now_ms,
            ),
    {
        self.tails.sweep_expired(now_ms);
        self.tails.put_records(records, now_ms);
    }

    /// Asks for the replay of committed objects, oldest first. Returns the objects to load.
    pub fn replay_objects(&mut self, objects: &Vec<(u64, u64)>) -> (r: Result<
        Vec<u64>,
        StreamError,
    >)
        requires
            old(self).wf(),
            forall|i: int|
                0 <= i < objects@.len() ==> (#[trigger] objects@[i]).1 <= u64::MAX
                    - MAX_INFLIGHT_LOAD_BYTES,
        ensures
            final(self).wf(),
            final(self).tails == old(self).tails,
            final(self).wal == old(self).wal,
            if objects@.len() == 0 {
                &&& r == Err::<Vec<u64>, StreamError>(
                    StreamError::Unexpected(Unexpected::NoObjects),
                )
                &&& final(self).objects@ == old(self).objects@
            } else {
                let asked = ObjectReplayModel {
                    waiting: old(self).objects@.waiting + asked_tasks(objects@),
                    ..old(self).objects@
                };
                let n = loadable(asked);
                &&& r matches Ok(ids) && ids@ == object_ids(asked.waiting.take(n))
                &&& final(self).objects@ == began(asked, n)
            },
    {
        if objects.len() == 0 {
            return Err(StreamError::Unexpected(Unexpected::NoObjects));
        }
        let ghost start = self.objects@;
        let mut i: usize = 0;
        assert(start.waiting + asked_tasks(objects@.take(0)) =~= start.waiting);
        while i < objects.len()
            invariant
                i <= objects@.len(),
                self.wf(),
                self.tails == old(self).tails,
                self.wal == old(self).wal,
                forall|i: int|
                    0 <= i < objects@.len() ==> (#[trigger] objects@[i]).1 <= u64::MAX
                        - MAX_INFLIGHT_LOAD_BYTES,
                self.objects@ == (ObjectReplayModel {
                    waiting: start.waiting + asked_tasks(objects@.take(i as int)),
                    ..start
                }),
            decreases objects@.len() - i,
        {
            let (id, size) = objects[i];
            assert(objects@[i as int].1 <= u64::MAX - MAX_INFLIGHT_LOAD_BYTES);
            let ghost before = self.objects@.waiting;
            self.objects.enqueue(id, size);
            assert(before.push(ObjectTaskModel { id, object_size: size, blocks: None, next: 0 })
                =~= start.waiting + asked_tasks(objects@.take(i + 1)));
            i += 1;
        }
        assert(objects@.take(i as int) =~= objects@);
        Ok(self.objects.try_load())
    }

    /// Puts what the oldest WAL loads gave, up to the first that is not done. Returns the
    /// replays that are done.
    pub fn try_put_wal(&mut self, now_ms: u64) -> (r: Vec<u64>)
        requires
            old(self).wf(),
        ensures
            final(self).wf(),
            final(self).objects == old(self).objects,
            ({
                let loading = old(self).wal@.loading;
                let n = done_count(loading);
                &&& r@ == wal_ids(loading.take(n))
                &&& final(self).tails@ == put_tasks(old(self).tails@, loading.take(n), now_ms)
                &&& final(self).wal@ == (WalReplayModel {
                    loading: loading.skip(n),
                    ..old(self).wal@
                })
            }),
    {
        let ghost start = self.wal@;
        let ghost tails = self.tails@;
        let ghost total = done_count(start.loading);
        let mut out: Vec<u64> = Vec::new();
        proof {
            assert(start.loading.take(0) =~= Seq::empty());
            assert(start.loading.skip(0) =~= start.loading);
            assert(out@ =~= wal_ids(start.loading.take(0)));
        }
        loop
            invariant_except_break
                total == out@.len() + done_count(self.wal@.loading),
            invariant
                self.wf(),
                self.objects == old(self).objects,
                out@.len() <= start.loading.len(),
                self.wal@ == (WalReplayModel {
                    loading: start.loading.skip(out@.len() as int),
                    ..start
                }),
                out@ == wal_ids(start.loading.take(out@.len() as int)),
                self.tails@ == put_tasks(
                    tails,
                    start.loading.take(out@.len() as int),
                    now_ms,
                ),
            ensures
                total == out@.len(),
            decreases self.wal@.loading.len(),
        {
            let ghost m = self.wal@;
            let ghost n = out@.len() as int;
            match self.wal.take_loaded() {
                Some(task) => {
                    proof {
                        assert(m.loading[0] == start.loading[n]);
                        assert(start.loading.skip(n).skip(1) =~= start.loading.skip(n + 1));
                        assert(start.loading.take(n + 1).drop_last() =~= start.loading.take(n));
                        assert(start.loading.take(n + 1).last() == start.loading[n]);
                    }
                    self.tails.put_records(&task.records, now_ms);
                    out.push(task.id);
                    assert(out@ =~= wal_ids(start.loading.take(n + 1)));
                },
                None => {
                    break ;
                },
            }
        }
        out
    }

    /// Puts the oldest objects, as far as their blocks are loaded, and begins more loads.
    pub fn try_put_objects(&mut self, now_ms: u64) -> (r: ObjectStep)
        requires
            old(self).wf(),
        ensures
            final(self).wf(),
            final(self).wal == old(self).wal,
            (SettleModel {
                tail: final(self).tails@,
                objects: final(self).objects@,
                completed: r.completed@,
                started: r.started@,
            }) == settled(
                SettleModel {
                    tail: old(self).tails@,
                    objects: old(self).objects@,
                    completed: Seq::empty(),
                    started: Seq::empty(),
                },
                now_ms,
            ),
    {
        let mut completed: Vec<u64> = Vec::new();
        let mut started: Vec<u64> = Vec::new();
        let ghost goal = settled(
            SettleModel {
                tail: self.tails@,
                objects: self.objects@,
                completed: Seq::empty(),
                started: Seq::empty(),
            },
            now_ms,
        );
        loop
            invariant_except_break
                goal == settled(
                    SettleModel {
                        tail: self.tails@,
                        objects: self.objects@,
                        completed: completed@,
                        started: started@,
                    },
                    now_ms,
                ),
            invariant
                self.wf(),
                self.wal == old(self).wal,
            ensures
                goal == (SettleModel {
                    tail: self.tails@,
                    objects: self.objects@,
                    completed: completed@,
                    started: started@,
                }),
            decreases self.objects@.loading.len() + self.objects@.waiting.len(),
        {
            let ghost m = self.objects@;
            let ghost tail = self.tails@;
            let (mut task, blocks) = match self.objects.take_head() {
                Some(t) => t,
                None => {
                    break ;
                },
            };
            let ghost head = m.loading[0];
            let ghost loads = load_models(blocks@);
            let ghost reach = put_blocks(tail, loads, head.next, now_ms);
            let mut next: usize = task.next;
            while next < blocks.len()
                invariant_except_break
                    reach == put_blocks(self.tails@, loads, next as int, now_ms),
                invariant
                    next <= blocks@.len(),
                    loads == load_models(blocks@),
                    self.tails.wf(),
                    self.wal == old(self).wal,
                    self.objects.wf(),
                    self.objects@ == (ObjectReplayModel { loading: m.loading.skip(1), ..m }),
                    forall|i: int|
                        0 <= i < blocks@.len() ==> ((#[trigger] blocks@[i]) matches BlockLoad::Loaded(
                            r,
                        ) ==> (forall|j: int|
                            0 <= j < r@.len() ==> is_batch((#[trigger] r@[j])@))),
                ensures
                    reach == (self.tails@, next as int),
                decreases blocks@.len() - next,
            {
                assert(loads[next as int] == blocks@[next as int]@);
                match &blocks[next] {
                    BlockLoad::Pending => {
                        break ;
                    },
                    BlockLoad::Failed => {},
                    BlockLoad::Loaded(records) => {
                        assert(blocks@[next as int] == BlockLoad::Loaded(*records));
                        self.tails.put_records(records, now_ms);
                    },
                }
                next += 1;
            }
            if next < blocks.len() {
                task.next = next;
                let ghost b = blocks@;
                task.blocks = Some(blocks);
                let ghost t = task;
                self.objects.put_head(task);
                proof {
                    assert(t@ == (ObjectTaskModel { next: next as int, ..head }));
                    assert(seq![t@] + m.loading.skip(1) =~= m.loading.update(0, t@));
                }
                break ;
            }
            let ghost mid = self.objects@;
            self.objects.inflight_load_bytes = if self.objects.inflight_load_bytes
                >= task.object_size {
                self.objects.inflight_load_bytes - task.object_size
            } else {
                0
            };
            let ghost left = self.objects@;
            completed.push(task.id);
            let mut more = self.objects.try_load();
            proof {
                lemma_loadable(left);
                lemma_began(left, loadable(left));
            }
            started.append(&mut more);
        }
        ObjectStep { completed, started }
    }
}

/// The replays that a list of objects, by id and size, asks for.
pub open spec fn asked_tasks(objects: Seq<(u64, u64)>) -> Seq<ObjectTaskModel> {
    objects.map_values(
        |o: (u64, u64)| ObjectTaskModel { id: o.0, object_size: o.1, blocks: None, next: 0 },
    )
}

} // verus!
