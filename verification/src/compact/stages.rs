//! Memory-bounded stages: planned objects are cut so that what one stage reads fits the
//! compaction cache.
use std::collections::BTreeMap;
use vstd::multiset::Multiset;
use vstd::prelude::*;

use crate::compact::analyzer::of_object;
use crate::compact::builder::{
    lemma_planned_push, planned_blocks, planned_views, CompactedObjectBuilder,
};
use crate::compact::plan::{
    lemma_sizes_add, lemma_sizes_nonneg, lemma_sizes_push, lemma_sizes_split, sizes,
    CompactedObject, CompactionType, Planned, StreamDataBlock,
};
use crate::order::{arrange, arranged, is_stable_order, stable_order};

verus! {

/// One memory-bounded stage of a compaction round.
#[derive(Debug)]
pub struct CompactionPlan {
    pub order: u32,
    pub compacted_objects: Vec<CompactedObject>,
    /// Blocks this stage must read, grouped by source object, position-ordered.
    pub stream_data_blocks_map: BTreeMap<u64, Vec<StreamDataBlock>>,
}

/// The planned objects of a list of output objects.
pub open spec fn object_views(objects: Seq<CompactedObject>) -> Seq<Planned> {
    objects.map_values(|o: CompactedObject| o.planned())
}

/// The keys that reads are sorted by: source object, then position.
pub open spec fn position_keys(blocks: Seq<StreamDataBlock>) -> Seq<(u64, u64)> {
    blocks.map_values(|b: StreamDataBlock| (b.object_id, b.index.start_position))
}

/// `reads` holds the blocks by source object, each list in stable order of position.
pub open spec fn is_read_set(
    blocks: Seq<StreamDataBlock>,
    reads: Map<u64, Vec<StreamDataBlock>>,
) -> bool {
    exists|perm: Seq<usize>|
        {
            &&& #[trigger] is_stable_order(position_keys(blocks), perm)
            &&& groups_by_object(arranged(blocks, perm), reads)
        }
}

/// `reads` holds the blocks by source object, in the order of the list.
pub open spec fn groups_by_object(
    blocks: Seq<StreamDataBlock>,
    reads: Map<u64, Vec<StreamDataBlock>>,
) -> bool {
    &&& forall|i: int| 0 <= i < blocks.len() ==> reads.contains_key((#[trigger] blocks[i]).object_id)
    &&& forall|id: u64| #[trigger]
        reads.contains_key(id) ==> reads[id]@ == of_object(blocks, id) && reads[id]@.len() > 0
}

impl CompactionPlan {
    /// The output objects, in order.
    pub open spec fn objects(&self) -> Seq<Planned> {
        object_views(self.compacted_objects@)
    }

    /// The reads are those that the output objects need.
    pub open spec fn reads_what_it_writes(&self) -> bool {
        is_read_set(planned_blocks(self.objects()), self.stream_data_blocks_map@)
    }
}

/// The objects of a list of plans.
pub open spec fn plan_views(plans: Seq<CompactionPlan>) -> Seq<Seq<Planned>> {
    plans.map_values(|p: CompactionPlan| p.objects())
}

/// The stages closed so far, and the one that is being filled: its stream objects, its
/// stream set object, and its bytes.
#[verifier::ext_equal]
pub struct Staging {
    pub stages: Seq<Seq<Planned>>,
    pub splits: Seq<Planned>,
    pub set: Option<Seq<StreamDataBlock>>,
    pub bytes: int,
}

pub open spec fn no_stages() -> Staging {
    Staging { stages: Seq::empty(), splits: Seq::empty(), set: None, bytes: 0 }
}

/// The blocks of the stream set object, none if there is none.
pub open spec fn set_part(set: Option<Seq<StreamDataBlock>>) -> Seq<StreamDataBlock> {
    match set {
        None => Seq::empty(),
        Some(b) => b,
    }
}

/// An object joins the stage: a stream object as it is, any other one at the end of the
/// stage's stream set object.
pub open spec fn join(st: Staging, p: Planned) -> Staging {
    if p.kind == CompactionType::Split {
        Staging {
            stages: st.stages,
            splits: st.splits.push(p),
            set: st.set,
            bytes: st.bytes + sizes(p.blocks),
        }
    } else {
        Staging {
            stages: st.stages,
            splits: st.splits,
            set: Some(set_part(st.set) + p.blocks),
            bytes: st.bytes + sizes(p.blocks),
        }
    }
}

/// The objects of the stage that is being filled, the stream set object last.
pub open spec fn stage_objects(st: Staging) -> Seq<Planned> {
    match st.set {
        None => st.splits,
        Some(b) => st.splits.push(Planned { kind: CompactionType::Compact, blocks: b }),
    }
}

/// The stage is closed.
pub open spec fn close(st: Staging) -> Staging {
    Staging {
        stages: st.stages.push(stage_objects(st)),
        splits: Seq::empty(),
        set: None,
        bytes: 0,
    }
}

/// How many leading blocks fit into `room` bytes.
pub open spec fn fitting(room: int, blocks: Seq<StreamDataBlock>) -> int
    decreases blocks.len(),
{
    if blocks.len() == 0 || blocks[0].index.size > room {
        0
    } else {
        1 + fitting(room - blocks[0].index.size, blocks.skip(1))
    }
}

pub proof fn lemma_fitting(room: int, blocks: Seq<StreamDataBlock>)
    ensures
        0 <= fitting(room, blocks) <= blocks.len(),
        room >= 0 ==> sizes(blocks.take(fitting(room, blocks))) <= room,
        fitting(room, blocks) < blocks.len() ==> blocks[0].index.size <= room ==> fitting(
            room,
            blocks,
        ) > 0,
    decreases blocks.len(),
{
    if !(blocks.len() == 0 || blocks[0].index.size > room) {
        let rest = blocks.skip(1);
        let left = room - blocks[0].index.size;
        lemma_fitting(left, rest);
        let n = fitting(left, rest);
        assert(blocks.take(n + 1) =~= seq![blocks[0]] + rest.take(n));
        lemma_sizes_add(seq![blocks[0]], rest.take(n));
        assert(seq![blocks[0]] =~= Seq::empty().push(blocks[0]));
        lemma_sizes_push(Seq::empty(), blocks[0]);
    } else {
        assert(blocks.take(0) =~= Seq::empty());
    }
}

/// As long as an object does not fit, the stage takes its longest fitting prefix and is
/// closed. An object that no stage can make room for stays as it is.
pub open spec fn spill(cache: int, st: Staging, p: Planned) -> (Staging, Planned)
    decreases
            p.blocks.len() * 2 + if st.bytes != 0 {
                1int
            } else {
                0
            },
{
    let n = fitting(cache - st.bytes, p.blocks);
    if st.bytes + sizes(p.blocks) <= cache || (n <= 0 && st.bytes == 0) || n > p.blocks.len() {
        (st, p)
    } else {
        let taken = if n > 0 {
            join(st, Planned { kind: p.kind, blocks: p.blocks.take(n) })
        } else {
            st
        };
        let left = if n > 0 {
            Planned { kind: p.kind, blocks: p.blocks.skip(n) }
        } else {
            p
        };
        spill(cache, close(taken), left)
    }
}

/// An object goes into the stages.
pub open spec fn stage_one(cache: int, st: Staging, p: Planned) -> Staging {
    let (spilt, left) = spill(cache, st, p);
    join(spilt, left)
}

/// The stages of a list of objects, the last one open.
pub open spec fn staged(cache: int, objects: Seq<Planned>) -> Staging
    decreases objects.len(),
{
    if objects.len() == 0 {
        no_stages()
    } else {
        stage_one(cache, staged(cache, objects.drop_last()), objects.last())
    }
}

/// The stages of a list of objects.
pub open spec fn stages_of(cache: int, objects: Seq<Planned>) -> Seq<Seq<Planned>> {
    let st = staged(cache, objects);
    if st.splits.len() > 0 || st.set is Some {
        close(st).stages
    } else {
        st.stages
    }
}

/// Blocks of all stages.
pub open spec fn stage_blocks(stages: Seq<Seq<Planned>>) -> Seq<StreamDataBlock>
    decreases stages.len(),
{
    if stages.len() == 0 {
        Seq::empty()
    } else {
        stage_blocks(stages.drop_last()) + planned_blocks(stages.last())
    }
}

/// Blocks held anywhere in the staging.
pub open spec fn held(st: Staging) -> Multiset<StreamDataBlock> {
    stage_blocks(st.stages).to_multiset().add(planned_blocks(st.splits).to_multiset()).add(
        set_part(st.set).to_multiset(),
    )
}

proof fn lemma_ms_add<T>(a: Seq<T>, b: Seq<T>)
    ensures
        (a + b).to_multiset() == a.to_multiset().add(b.to_multiset()),
{
    vstd::seq_lib::lemma_multiset_commutative(a, b);
}

proof fn lemma_join_holds(st: Staging, p: Planned)
    ensures
        held(join(st, p)) == held(st).add(p.blocks.to_multiset()),
{
    lemma_planned_push(st.splits, p);
    lemma_ms_add(planned_blocks(st.splits), p.blocks);
    lemma_ms_add(set_part(st.set), p.blocks);
    assert(held(join(st, p)) =~= held(st).add(p.blocks.to_multiset()));
}

proof fn lemma_close_holds(st: Staging)
    ensures
        held(close(st)) == held(st),
{
    broadcast use vstd::seq_lib::group_to_multiset_ensures;

    let objects = stage_objects(st);
    assert(st.stages.push(objects).drop_last() =~= st.stages);
    lemma_ms_add(stage_blocks(st.stages), planned_blocks(objects));
    if st.set is Some {
        lemma_planned_push(
            st.splits,
            Planned { kind: CompactionType::Compact, blocks: set_part(st.set) },
        );
        lemma_ms_add(planned_blocks(st.splits), set_part(st.set));
    }
    assert(Seq::<StreamDataBlock>::empty().to_multiset() =~= Multiset::empty());
    assert(planned_blocks(Seq::<Planned>::empty()) =~= Seq::empty());
    assert(held(close(st)) =~= held(st));
}

proof fn lemma_spill_holds(cache: int, st: Staging, p: Planned)
    ensures
        ({
            let (spilt, left) = spill(cache, st, p);
            held(spilt).add(left.blocks.to_multiset()) == held(st).add(p.blocks.to_multiset())
        }),
    decreases
            p.blocks.len() * 2 + if st.bytes != 0 {
                1int
            } else {
                0
            },
{
    let n = fitting(cache - st.bytes, p.blocks);
    if st.bytes + sizes(p.blocks) <= cache || (n <= 0 && st.bytes == 0) || n > p.blocks.len() {
    } else {
        let head = Planned { kind: p.kind, blocks: p.blocks.take(n) };
        let taken = if n > 0 {
            join(st, head)
        } else {
            st
        };
        let left = if n > 0 {
            Planned { kind: p.kind, blocks: p.blocks.skip(n) }
        } else {
            p
        };
        lemma_spill_holds(cache, close(taken), left);
        lemma_close_holds(taken);
        if n > 0 {
            lemma_join_holds(st, head);
            assert(p.blocks =~= p.blocks.take(n) + p.blocks.skip(n));
            lemma_ms_add(p.blocks.take(n), p.blocks.skip(n));
        }
        let (spilt, rest) = spill(cache, st, p);
        assert(held(spilt).add(rest.blocks.to_multiset()) =~= held(st).add(
            p.blocks.to_multiset(),
        ));
    }
}

/// No block is lost or doubled across the stages.
pub proof fn law_stages_keep_blocks(cache: int, objects: Seq<Planned>)
    ensures
        stage_blocks(stages_of(cache, objects)).to_multiset() == planned_blocks(
            objects,
        ).to_multiset(),
{
    lemma_staged_holds(cache, objects);
    let st = staged(cache, objects);
    lemma_close_holds(st);
    broadcast use vstd::seq_lib::group_to_multiset_ensures;

    assert(Seq::<StreamDataBlock>::empty().to_multiset() =~= Multiset::empty());
    assert(planned_blocks(Seq::<Planned>::empty()) =~= Seq::empty());
    if st.splits.len() > 0 || st.set is Some {
        assert(held(close(st)) =~= stage_blocks(close(st).stages).to_multiset());
    } else {
        assert(st.splits =~= Seq::empty());
        assert(held(st) =~= stage_blocks(st.stages).to_multiset());
    }
}

proof fn lemma_staged_holds(cache: int, objects: Seq<Planned>)
    ensures
        held(staged(cache, objects)) == planned_blocks(objects).to_multiset(),
    decreases objects.len(),
{
    broadcast use vstd::seq_lib::group_to_multiset_ensures;

    if objects.len() == 0 {
        assert(Seq::<StreamDataBlock>::empty().to_multiset() =~= Multiset::empty());
        assert(planned_blocks(Seq::<Planned>::empty()) =~= Seq::empty());
        assert(stage_blocks(Seq::empty()) =~= Seq::empty());
        assert(held(no_stages()) =~= Multiset::empty());
    } else {
        let rest = objects.drop_last();
        let p = objects.last();
        lemma_staged_holds(cache, rest);
        lemma_spill_holds(cache, staged(cache, rest), p);
        let (spilt, left) = spill(cache, staged(cache, rest), p);
        lemma_join_holds(spilt, left);
        lemma_ms_add(planned_blocks(rest), p.blocks);
        assert(held(staged(cache, objects)) =~= planned_blocks(objects).to_multiset());
    }
}

/// The open stage's bytes are counted, and no stage holds more than the cache.
pub open spec fn within_cache(cache: int, st: Staging) -> bool {
    &&& st.bytes == sizes(planned_blocks(st.splits)) + sizes(set_part(st.set))
    &&& 0 <= st.bytes <= cache
    &&& forall|i: int|
        0 <= i < st.stages.len() ==> sizes(planned_blocks(#[trigger] st.stages[i])) <= cache
}

proof fn lemma_join_bytes(cache: int, st: Staging, p: Planned)
    requires
        within_cache(cache, st),
        st.bytes + sizes(p.blocks) <= cache,
    ensures
        within_cache(cache, join(st, p)),
{
    lemma_planned_push(st.splits, p);
    lemma_sizes_add(planned_blocks(st.splits), p.blocks);
    lemma_sizes_add(set_part(st.set), p.blocks);
    lemma_sizes_nonneg(p.blocks);
    assert(join(st, p).stages =~= st.stages);
}

proof fn lemma_close_bytes(cache: int, st: Staging)
    requires
        within_cache(cache, st),
    ensures
        within_cache(cache, close(st)),
{
    if st.set is Some {
        lemma_planned_push(
            st.splits,
            Planned { kind: CompactionType::Compact, blocks: set_part(st.set) },
        );
        lemma_sizes_add(planned_blocks(st.splits), set_part(st.set));
    }
    assert(sizes(planned_blocks(stage_objects(st))) == st.bytes);
    assert(planned_blocks(Seq::<Planned>::empty()) =~= Seq::empty());
}

/// Every block is small enough for the cache.
pub open spec fn blocks_fit(cache: int, blocks: Seq<StreamDataBlock>) -> bool {
    forall|i: int| 0 <= i < blocks.len() ==> (#[trigger] blocks[i]).index.size <= cache
}

pub proof fn lemma_spill_bytes(cache: int, st: Staging, p: Planned)
    requires
        within_cache(cache, st),
        blocks_fit(cache, p.blocks),
    ensures
        ({
            let (spilt, left) = spill(cache, st, p);
            &&& within_cache(cache, spilt)
            &&& spilt.bytes + sizes(left.blocks) <= cache
        }),
    decreases
            p.blocks.len() * 2 + if st.bytes != 0 {
                1int
            } else {
                0
            },
{
    let n = fitting(cache - st.bytes, p.blocks);
    lemma_fitting(cache - st.bytes, p.blocks);
    if st.bytes + sizes(p.blocks) <= cache {
    } else if n <= 0 && st.bytes == 0 {
        assert(p.blocks.len() > 0) by {
            if p.blocks.len() == 0 {
                assert(sizes(p.blocks) == 0);
            }
        }
        assert(p.blocks[0].index.size <= cache);
        if n == p.blocks.len() {
            assert(p.blocks.take(n) =~= p.blocks);
        }
    } else {
        let head = Planned { kind: p.kind, blocks: p.blocks.take(n) };
        if n > 0 {
            lemma_join_bytes(cache, st, head);
            lemma_close_bytes(cache, join(st, head));
            let left = Planned { kind: p.kind, blocks: p.blocks.skip(n) };
            assert(blocks_fit(cache, left.blocks)) by {
                assert forall|i: int| 0 <= i < left.blocks.len() implies (
                #[trigger] left.blocks[i]).index.size <= cache by {
                    assert(left.blocks[i] == p.blocks[i + n]);
                }
            }
            lemma_spill_bytes(cache, close(join(st, head)), left);
        } else {
            lemma_close_bytes(cache, st);
            lemma_spill_bytes(cache, close(st), p);
        }
    }
}

/// Every stage reads no more bytes than the cache holds.
pub proof fn law_stages_fit_cache(cache: int, objects: Seq<Planned>, k: int)
    requires
        cache >= 0,
        blocks_fit(cache, planned_blocks(objects)),
        0 <= k < stages_of(cache, objects).len(),
    ensures
        sizes(planned_blocks(stages_of(cache, objects)[k])) <= cache,
{
    lemma_staged_bytes(cache, objects);
    let st = staged(cache, objects);
    lemma_close_bytes(cache, st);
}

pub proof fn lemma_staged_bytes(cache: int, objects: Seq<Planned>)
    requires
        cache >= 0,
        blocks_fit(cache, planned_blocks(objects)),
    ensures
        within_cache(cache, staged(cache, objects)),
    decreases objects.len(),
{
    if objects.len() == 0 {
        assert(planned_blocks(Seq::<Planned>::empty()) =~= Seq::empty());
    } else {
        let rest = objects.drop_last();
        let p = objects.last();
        let all = planned_blocks(objects);
        assert(blocks_fit(cache, planned_blocks(rest))) by {
            assert forall|i: int| 0 <= i < planned_blocks(rest).len() implies (
            #[trigger] planned_blocks(rest)[i]).index.size <= cache by {
                assert(all[i] == planned_blocks(rest)[i]);
            }
        }
        assert(blocks_fit(cache, p.blocks)) by {
            assert forall|i: int| 0 <= i < p.blocks.len() implies (
            #[trigger] p.blocks[i]).index.size <= cache by {
                assert(all[planned_blocks(rest).len() + i] == p.blocks[i]);
            }
        }
        lemma_staged_bytes(cache, rest);
        lemma_spill_bytes(cache, staged(cache, rest), p);
        let (spilt, left) = spill(cache, staged(cache, rest), p);
        lemma_join_bytes(cache, spilt, left);
    }
}

/// The blocks of a list of output objects.
fn collect_blocks(objects: &Vec<CompactedObject>) -> (r: Vec<StreamDataBlock>)
    ensures
        r@ == planned_blocks(object_views(objects@)),
{
    let ghost views = object_views(objects@);
    let mut out: Vec<StreamDataBlock> = Vec::new();
    let mut i: usize = 0;
    assert(views.take(0) =~= Seq::empty());
    while i < objects.len()
        invariant
            i <= objects@.len(),
            views == object_views(objects@),
            out@ == planned_blocks(views.take(i as int)),
        decreases objects@.len() - i,
    {
        let ghost before = out@;
        proof {
            assert(views[i as int] == objects@[i as int].planned());
            assert(views.take(i + 1).drop_last() =~= views.take(i as int));
        }
        out.extend_from_slice(objects[i].blocks.as_slice());
        assert(out@ =~= before + objects@[i as int].blocks@);
        i += 1;
    }
    assert(views.take(i as int) =~= views);
    out
}

/// The blocks that output objects are made of, by source object, in position order.
fn read_set(objects: &Vec<CompactedObject>) -> (r: BTreeMap<u64, Vec<StreamDataBlock>>)
    ensures
        is_read_set(planned_blocks(object_views(objects@)), r@),
{
    broadcast use vstd::std_specs::btree::group_btree_axioms;

    let all = collect_blocks(objects);
    let mut keys: Vec<(u64, u64)> = Vec::new();
    let mut i: usize = 0;
    while i < all.len()
        invariant
            i <= all@.len(),
            keys@ == position_keys(all@.take(i as int)),
        decreases all@.len() - i,
    {
        keys.push((all[i].object_id, all[i].index.start_position));
        i += 1;
        assert(keys@ =~= position_keys(all@.take(i as int)));
    }
    assert(all@.take(i as int) =~= all@);
    let perm = stable_order(&keys);
    let sorted = arrange(&all, &perm);
    let mut reads: BTreeMap<u64, Vec<StreamDataBlock>> = BTreeMap::new();
    let mut n: usize = 0;
    while n < sorted.len()
        invariant
            n <= sorted@.len(),
            groups_by_object(sorted@.take(n as int), reads@),
        decreases sorted@.len() - n,
    {
        let block = sorted[n];
        let id: u64 = block.object_id;
        let ghost seen = sorted@.take(n as int);
        let ghost reads0 = reads@;
        let mut list: Vec<StreamDataBlock> = match reads.remove(&id) {
            Some(list) => list,
            None => {
                proof {
                    assert forall|j: int| 0 <= j < seen.len() implies !(|b: StreamDataBlock|
                        b.object_id == id)(#[trigger] seen[j]) by {
                        assert(reads0.contains_key(seen[j].object_id));
                    }
                    seen.lemma_all_neg_filter_empty(|b: StreamDataBlock| b.object_id == id);
                    assert(of_object(seen, id) =~= Seq::empty());
                }
                Vec::new()
            },
        };
        assert(list@ == of_object(seen, id));
        list.push(block);
        reads.insert(id, list);
        proof {
            let now = sorted@.take(n + 1);
            assert(now =~= seen.push(block));
            assert forall|x: u64| #[trigger] reads@.contains_key(x) implies reads@[x]@ == of_object(
                now,
                x,
            ) && reads@[x]@.len() > 0 by {
                seen.lemma_filter_push(block, |b: StreamDataBlock| b.object_id == x);
                if x != id {
                    assert(reads0.contains_key(x));
                }
            }
            assert forall|j: int| 0 <= j < now.len() implies reads@.contains_key(
                (#[trigger] now[j]).object_id,
            ) by {
                if j < seen.len() {
                    assert(reads0.contains_key(seen[j].object_id));
                }
            }
        }
        n += 1;
    }
    assert(sorted@.take(n as int) =~= sorted@);
    reads
}

/// The stages while they are made.
struct StageBuilder {
    plans: Vec<CompactionPlan>,
    compacted_objects: Vec<CompactedObject>,
    stream_set_builder: Option<CompactedObjectBuilder>,
    total_size: u64,
}

impl StageBuilder {
    spec fn set_view(&self) -> Option<Seq<StreamDataBlock>> {
        match self.stream_set_builder {
            None => None,
            Some(b) => Some(b.planned().blocks),
        }
    }

    spec fn staging(&self) -> Staging {
        Staging {
            stages: plan_views(self.plans@),
            splits: object_views(self.compacted_objects@),
            set: self.set_view(),
            bytes: self.total_size as int,
        }
    }

    spec fn wf(&self) -> bool {
        &&& self.stream_set_builder matches Some(b) ==> b.planned().kind == CompactionType::Compact
        &&& plans_ok(self.plans@)
    }

    /// Adds a stream object, or merges into the stage's stream set object.
    fn add_or_merge(&mut self, builder: CompactedObjectBuilder)
        requires
            old(self).wf(),
            old(self).total_size + sizes(builder.planned().blocks) <= u64::MAX,
        ensures
            final(self).wf(),
            final(self).staging() == join(old(self).staging(), builder.planned()),
    {
        let ghost before = *self;
        let ghost p = builder.planned();
        proof {
            lemma_sizes_nonneg(p.blocks);
        }
        let size: u64 = builder.total_block_size();
        self.total_size = self.total_size + size;
        if matches!(builder.kind(), CompactionType::Split) {
            let object = builder.build();
            self.compacted_objects.push(object);
            assert(object_views(self.compacted_objects@) =~= object_views(
                before.compacted_objects@,
            ).push(p));
        } else {
            let mut target = match self.stream_set_builder.take() {
                Some(b) => b,
                None => CompactedObjectBuilder::new(),
            };
            target.merge(builder);
            self.stream_set_builder = Some(target);
        }
    }

    /// Closes the stage.
    fn close_stage(&mut self)
        requires
            old(self).wf(),
        ensures
            final(self).wf(),
            final(self).staging() == close(old(self).staging()),
    {
        let ghost before = *self;
        let mut objects: Vec<CompactedObject> = Vec::new();
        objects.append(&mut self.compacted_objects);
        assert(objects@ =~= before.compacted_objects@);
        match self.stream_set_builder.take() {
            Some(b) => {
                let ghost p = b.planned();
                objects.push(b.build());
                assert(object_views(objects@) =~= object_views(before.compacted_objects@).push(p));
            },
            None => {},
        }
        assert(object_views(objects@) == stage_objects(before.staging()));
        let order: u32 = order_of(self.plans.len());
        let stream_data_blocks_map = read_set(&objects);
        let plan = CompactionPlan { order, compacted_objects: objects, stream_data_blocks_map };
        self.plans.push(plan);
        self.total_size = 0;
        assert(plan_views(self.plans@) =~= plan_views(before.plans@).push(plan.objects()));
        assert(object_views(self.compacted_objects@) =~= Seq::empty());
    }
}

/// The number of a stage, in 32 bits.
fn order_of(n: usize) -> (r: u32)
    ensures
        r == stage_number(n as int),
{
    ((n as u64) % 0x1_0000_0000) as u32
}

/// The number of the stage at index `n`.
pub open spec fn stage_number(n: int) -> u32 {
    (n % 0x1_0000_0000) as u32
}

/// Plans are numbered in order, and each reads what it writes.
pub open spec fn plans_ok(plans: Seq<CompactionPlan>) -> bool {
    forall|i: int|
        0 <= i < plans.len() ==> (#[trigger] plans[i]).order == stage_number(i)
            && plans[i].reads_what_it_writes()
}

/// How many leading blocks fit into `room` bytes.
fn fitting_count(builder: &CompactedObjectBuilder, room: u64) -> (r: usize)
    ensures
        r == fitting(room as int, builder.planned().blocks),
        r <= builder.planned().blocks.len(),
{
    let n: usize = builder.block_count();
    let mut left: u64 = room;
    let mut i: usize = 0;
    let ghost blocks = builder.planned().blocks;
    assert(blocks.skip(0) =~= blocks);
    while i < n
        invariant
            i <= n,
            n == blocks.len(),
            blocks == builder.planned().blocks,
            fitting(room as int, blocks) == i + fitting(left as int, blocks.skip(i as int)),
        decreases n - i,
    {
        let size: u64 = builder.block(i).index.size as u64;
        assert(blocks.skip(i as int)[0] == blocks[i as int]);
        if size > left {
            return i;
        }
        assert(blocks.skip(i as int).skip(1) =~= blocks.skip(i + 1));
        left = left - size;
        i += 1;
    }
    i
}

/// Cuts planned objects into stages under the cache limit.
pub(crate) fn generate_plan_with_cache_limit(
    compaction_cache_size: u64,
    builders: Vec<CompactedObjectBuilder>,
) -> (r: Vec<CompactionPlan>)
    requires
        blocks_fit(compaction_cache_size as int, planned_blocks(planned_views(builders@))),
        sizes(planned_blocks(planned_views(builders@))) <= u64::MAX,
    ensures
        plan_views(r@) == stages_of(compaction_cache_size as int, planned_views(builders@)),
        plans_ok(r@),
{
    let cache: u64 = compaction_cache_size;
    let ghost objects = planned_views(builders@);
    let mut stage = StageBuilder {
        plans: Vec::new(),
        compacted_objects: Vec::new(),
        stream_set_builder: None,
        total_size: 0,
    };
    let mut queue: Vec<CompactedObjectBuilder> = Vec::new();
    let mut todo = builders;
    // Last to first, so that the next object is at the end.
    while todo.len() > 0
        invariant
            todo@.len() <= objects.len(),
            planned_views(todo@) == objects.take(todo@.len() as int),
            queue@.len() == objects.len() - todo@.len(),
            forall|j: int|
                0 <= j < queue@.len() ==> (#[trigger] queue@[j]).planned() == objects[objects.len()
                    - 1 - j],
        decreases todo@.len(),
    {
        let ghost before = todo@;
        match todo.pop() {
            Some(b) => {
                assert(planned_views(before)[before.len() - 1] == b.planned());
                queue.push(b);
            },
            None => {},
        }
        assert(planned_views(todo@) =~= objects.take(todo@.len() as int));
    }
    let ghost mut done: int = 0;
    proof {
        assert(objects.take(0) =~= Seq::empty());
        assert(plan_views(stage.plans@) =~= Seq::empty());
        assert(object_views(stage.compacted_objects@) =~= Seq::empty());
        assert(stage.staging() =~= no_stages());
    }
    while queue.len() > 0
        invariant
            cache == compaction_cache_size,
            blocks_fit(cache as int, planned_blocks(objects)),
            sizes(planned_blocks(objects)) <= u64::MAX,
            0 <= done,
            queue@.len() == objects.len() - done,
            forall|j: int|
                0 <= j < queue@.len() ==> (#[trigger] queue@[j]).planned() == objects[objects.len()
                    - 1 - j],
            stage.wf(),
            stage.staging() == staged(cache as int, objects.take(done)),
        decreases queue@.len(),
    {
        let ghost before = queue@;
        let mut builder = match queue.pop() {
            Some(b) => b,
            None => CompactedObjectBuilder::new(),
        };
        let ghost p = objects[done];
        let ghost st0 = stage.staging();
        proof {
            assert(before[before.len() - 1].planned() == p);
            assert(objects.take(done + 1).drop_last() =~= objects.take(done));
            assert(objects.take(done + 1).last() == p);
            lemma_object_in_all(objects, done);
            lemma_fit_prefix(cache as int, objects, done);
            lemma_staged_bytes(cache as int, objects.take(done));
        }
        loop
            invariant_except_break
                spill(cache as int, st0, p) == spill(
                    cache as int,
                    stage.staging(),
                    builder.planned(),
                ),
                within_cache(cache as int, stage.staging()),
                blocks_fit(cache as int, builder.planned().blocks),
                sizes(builder.planned().blocks) <= u64::MAX,
                stage.wf(),
            ensures
                spill(cache as int, st0, p) == (stage.staging(), builder.planned()),
                stage.staging().bytes + sizes(builder.planned().blocks) <= cache,
                stage.wf(),
            decreases
                    builder.planned().blocks.len() * 2 + if stage.total_size != 0 {
                        1int
                    } else {
                        0
                    },
        {
            let size: u64 = builder.total_block_size();
            if size <= cache - stage.total_size {
                break ;
            }
            let ghost st = stage.staging();
            let ghost q = builder.planned();
            proof {
                lemma_fitting(cache - st.bytes, q.blocks);
                if q.blocks.len() > 0 {
                    assert(q.blocks[0].index.size <= cache);
                } else {
                    assert(sizes(q.blocks) == 0);
                }
            }
            let n: usize = fitting_count(&builder, cache - stage.total_size);
            proof {
                if n == q.blocks.len() {
                    assert(q.blocks.take(n as int) =~= q.blocks);
                }
                lemma_sizes_split(q.blocks, n as int);
            }
            if n != 0 {
                let prefix = builder.split_prefix(n);
                proof {
                    lemma_join_bytes(cache as int, st, prefix.planned());
                    assert forall|i: int| 0 <= i < builder.planned().blocks.len() implies (
                    #[trigger] builder.planned().blocks[i]).index.size <= cache by {
                        assert(builder.planned().blocks[i] == q.blocks[i + n]);
                    }
                }
                stage.add_or_merge(prefix);
            }
            proof {
                lemma_close_bytes(cache as int, stage.staging());
            }
            stage.close_stage();
        }
        stage.add_or_merge(builder);
        proof {
            done = done + 1;
        }
    }
    assert(objects.take(done) =~= objects);
    if stage.compacted_objects.len() > 0 || stage.stream_set_builder.is_some() {
        stage.close_stage();
    }
    stage.plans
}

proof fn lemma_object_in_all(objects: Seq<Planned>, k: int)
    requires
        0 <= k < objects.len(),
    ensures
        sizes(objects[k].blocks) <= sizes(planned_blocks(objects)),
        forall|i: int|
            0 <= i < objects[k].blocks.len() ==> planned_blocks(objects).contains(
                #[trigger] objects[k].blocks[i],
            ),
    decreases objects.len(),
{
    let rest = objects.drop_last();
    let last = objects.last().blocks;
    let all = planned_blocks(objects);
    lemma_sizes_add(planned_blocks(rest), last);
    lemma_sizes_nonneg(planned_blocks(rest));
    lemma_sizes_nonneg(last);
    if k < rest.len() {
        lemma_object_in_all(rest, k);
        assert forall|i: int| 0 <= i < objects[k].blocks.len() implies all.contains(
            #[trigger] objects[k].blocks[i],
        ) by {
            assert(planned_blocks(rest).contains(rest[k].blocks[i]));
            let j = choose|j: int|
                0 <= j < planned_blocks(rest).len() && planned_blocks(rest)[j] == rest[k].blocks[i];
            assert(all[j] == objects[k].blocks[i]);
        }
    } else {
        assert forall|i: int| 0 <= i < objects[k].blocks.len() implies all.contains(
            #[trigger] objects[k].blocks[i],
        ) by {
            assert(all[planned_blocks(rest).len() + i] == objects[k].blocks[i]);
        }
    }
}

proof fn lemma_fit_prefix(cache: int, objects: Seq<Planned>, k: int)
    requires
        0 <= k < objects.len(),
        blocks_fit(cache, planned_blocks(objects)),
    ensures
        blocks_fit(cache, planned_blocks(objects.take(k))),
        blocks_fit(cache, objects[k].blocks),
    decreases objects.len(),
{
    let all = planned_blocks(objects);
    lemma_object_in_all(objects, k);
    assert forall|i: int| 0 <= i < objects[k].blocks.len() implies (
    #[trigger] objects[k].blocks[i]).index.size <= cache by {
        let j = choose|j: int| 0 <= j < all.len() && all[j] == objects[k].blocks[i];
        assert(all[j].index.size <= cache);
    }
    let rest = objects.drop_last();
    assert(blocks_fit(cache, planned_blocks(rest))) by {
        assert forall|i: int| 0 <= i < planned_blocks(rest).len() implies (
        #[trigger] planned_blocks(rest)[i]).index.size <= cache by {
            assert(all[i] == planned_blocks(rest)[i]);
        }
    }
    if k < rest.len() {
        lemma_fit_prefix(cache, rest, k);
        assert(rest.take(k) =~= objects.take(k));
    } else {
        assert(objects.take(k) =~= rest);
    }
}

} // verus!
