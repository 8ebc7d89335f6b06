//! Output objects while they are planned: how a sorted list of blocks falls into objects.
use std::collections::HashSet;
use vstd::prelude::*;

use crate::compact::plan::{
    lemma_sizes_add, lemma_sizes_nonneg, lemma_sizes_push, lemma_sizes_split, sizes,
    total_size, CompactedObject, CompactionType, Planned, StreamDataBlock,
};

verus! {

/// Where the run of the last stream begins.
pub open spec fn run_start(blocks: Seq<StreamDataBlock>) -> int
    decreases blocks.len(),
{
    if blocks.len() <= 1 {
        0
    } else if blocks[blocks.len() - 2].index.stream_id == blocks.last().index.stream_id {
        run_start(blocks.drop_last())
    } else {
        blocks.len() - 1
    }
}

pub proof fn lemma_run_start(blocks: Seq<StreamDataBlock>)
    ensures
        0 <= run_start(blocks) <= blocks.len(),
        blocks.len() > 0 ==> run_start(blocks) < blocks.len(),
        forall|i: int|
            run_start(blocks) <= i < blocks.len() ==> (#[trigger] blocks[i]).index.stream_id
                == blocks.last().index.stream_id,
        run_start(blocks) > 0 ==> blocks[run_start(blocks) - 1].index.stream_id
            != blocks.last().index.stream_id,
    decreases blocks.len(),
{
    if blocks.len() > 1 {
        let rest = blocks.drop_last();
        lemma_run_start(rest);
        assert forall|i: int| run_start(blocks) <= i < blocks.len() implies (
        #[trigger] blocks[i]).index.stream_id == blocks.last().index.stream_id by {
            if i < rest.len() {
                assert(rest[i] == blocks[i]);
            }
        }
    }
}

/// Objects planned so far, and the blocks of the object that is being filled.
#[verifier::ext_equal]
pub struct Draft {
    pub objects: Seq<Planned>,
    pub filling: Seq<StreamDataBlock>,
}

/// The run of the last stream leaves as an object of its own. What was filled before it
/// is an object too, unless it holds no bytes.
pub open spec fn cut_run(d: Draft) -> Seq<Planned> {
    let h = run_start(d.filling);
    let kept = d.filling.take(h);
    let before = if sizes(kept) != 0 {
        d.objects.push(Planned { kind: CompactionType::Compact, blocks: kept })
    } else {
        d.objects
    };
    before.push(Planned { kind: CompactionType::Split, blocks: d.filling.skip(h) })
}

/// The next block, in stream and offset order, finds its place. A gap in a stream cuts
/// its run, and so does the end of a stream whose run is larger than `split_size`. A
/// block that begins below the end of the one before it cannot be placed.
pub open spec fn place(split_size: u64, d: Draft, b: StreamDataBlock) -> Option<Draft> {
    if d.filling.len() == 0 {
        Some(Draft { objects: d.objects, filling: seq![b] })
    } else {
        let last = d.filling.last();
        if last.index.stream_id == b.index.stream_id {
            if b.index.start_offset > last.index.end() {
                Some(Draft { objects: cut_run(d), filling: seq![b] })
            } else if b.index.start_offset == last.index.end() {
                Some(Draft { objects: d.objects, filling: d.filling.push(b) })
            } else {
                None
            }
        } else if sizes(d.filling.skip(run_start(d.filling))) > split_size {
            Some(Draft { objects: cut_run(d), filling: seq![b] })
        } else {
            Some(Draft { objects: d.objects, filling: d.filling.push(b) })
        }
    }
}

/// The draft after a list of blocks.
pub open spec fn draft_of(split_size: u64, blocks: Seq<StreamDataBlock>) -> Option<Draft>
    decreases blocks.len(),
{
    if blocks.len() == 0 {
        Some(Draft { objects: Seq::empty(), filling: Seq::empty() })
    } else {
        match draft_of(split_size, blocks.drop_last()) {
            None => None,
            Some(d) => place(split_size, d, blocks.last()),
        }
    }
}

/// The objects planned for a sorted list of blocks, none where blocks overlap.
pub open spec fn objects_for(split_size: u64, blocks: Seq<StreamDataBlock>) -> Option<
    Seq<Planned>,
> {
    match draft_of(split_size, blocks) {
        None => None,
        Some(d) => Some(
            if sizes(d.filling.skip(run_start(d.filling))) > split_size {
                cut_run(d)
            } else {
                d.objects.push(Planned { kind: CompactionType::Compact, blocks: d.filling })
            },
        ),
    }
}

/// The blocks of a list of objects, one after the other.
pub open spec fn planned_blocks(objects: Seq<Planned>) -> Seq<StreamDataBlock>
    decreases objects.len(),
{
    if objects.len() == 0 {
        Seq::empty()
    } else {
        planned_blocks(objects.drop_last()) + objects.last().blocks
    }
}

pub proof fn lemma_planned_push(objects: Seq<Planned>, p: Planned)
    ensures
        planned_blocks(objects.push(p)) == planned_blocks(objects) + p.blocks,
{
    assert(objects.push(p).drop_last() =~= objects);
}

pub proof fn lemma_draft_prefix(split_size: u64, blocks: Seq<StreamDataBlock>, n: int)
    requires
        0 <= n <= blocks.len(),
        draft_of(split_size, blocks.take(n)) is None,
    ensures
        draft_of(split_size, blocks) is None,
    decreases blocks.len() - n,
{
    if n < blocks.len() {
        assert(blocks.take(n + 1).drop_last() =~= blocks.take(n));
        lemma_draft_prefix(split_size, blocks, n + 1);
    } else {
        assert(blocks.take(n) =~= blocks);
    }
}

/// Every block of the draft comes from the list, and the sizes agree.
pub proof fn lemma_draft_sizes(split_size: u64, blocks: Seq<StreamDataBlock>)
    requires
        draft_of(split_size, blocks) is Some,
    ensures
        ({
            let d = draft_of(split_size, blocks)->0;
            &&& sizes(planned_blocks(d.objects)) + sizes(d.filling) == sizes(blocks)
            &&& sizes(planned_blocks(d.objects)) >= 0
            &&& sizes(d.filling) >= 0
            &&& blocks.len() > 0 ==> d.filling.len() > 0
            &&& forall|b: StreamDataBlock|
                (#[trigger] planned_blocks(d.objects).contains(b) ==> blocks.contains(b))
            &&& forall|b: StreamDataBlock| (#[trigger] d.filling.contains(b) ==> blocks.contains(b))
        }),
    decreases blocks.len(),
{
    broadcast use vstd::seq_lib::group_seq_properties;

    if blocks.len() > 0 {
        let rest = blocks.drop_last();
        let b = blocks.last();
        lemma_draft_sizes(split_size, rest);
        let d = draft_of(split_size, rest)->0;
        let e = draft_of(split_size, blocks)->0;
        lemma_sizes_push(d.filling, b);
        lemma_sizes_push(Seq::empty(), b);
        assert(seq![b] =~= Seq::empty().push(b));
        lemma_cut_run(d);
        lemma_sizes_nonneg(planned_blocks(e.objects));
        lemma_sizes_nonneg(e.filling);
        assert(blocks =~= rest.push(b));
        assert forall|x: StreamDataBlock| #[trigger]
            e.filling.contains(x) implies blocks.contains(x) by {
            if x != b {
                assert(d.filling.contains(x));
                assert(rest.contains(x));
            }
        }
        assert forall|x: StreamDataBlock| #[trigger]
            planned_blocks(e.objects).contains(x) implies blocks.contains(x) by {
            if planned_blocks(d.objects).contains(x) {
                assert(rest.contains(x));
            } else {
                assert(d.filling.contains(x));
                assert(rest.contains(x));
            }
        }
    }
}

pub proof fn lemma_cut_run(d: Draft)
    ensures
        sizes(planned_blocks(cut_run(d))) == sizes(planned_blocks(d.objects)) + sizes(d.filling),
        forall|b: StreamDataBlock| #[trigger]
            planned_blocks(cut_run(d)).contains(b) ==> planned_blocks(d.objects).contains(b)
                || d.filling.contains(b),
{
    let h = run_start(d.filling);
    lemma_run_start(d.filling);
    let kept = d.filling.take(h);
    let run = d.filling.skip(h);
    lemma_sizes_split(d.filling, h);
    let mid = d.objects.push(Planned { kind: CompactionType::Compact, blocks: kept });
    lemma_planned_push(d.objects, Planned { kind: CompactionType::Compact, blocks: kept });
    lemma_planned_push(mid, Planned { kind: CompactionType::Split, blocks: run });
    lemma_planned_push(d.objects, Planned { kind: CompactionType::Split, blocks: run });
    assert forall|b: StreamDataBlock| #[trigger]
        planned_blocks(cut_run(d)).contains(b) implies planned_blocks(d.objects).contains(b)
        || d.filling.contains(b) by {
        let whole = planned_blocks(cut_run(d));
        let i = choose|i: int| 0 <= i < whole.len() && whole[i] == b;
        let n = planned_blocks(d.objects).len();
        let m = if sizes(kept) != 0 { kept.len() } else { 0 };
        if i < n {
            assert(planned_blocks(d.objects)[i] == b);
        } else if i < n + m {
            assert(kept[i - n] == b);
            assert(d.filling[i - n] == b);
        } else {
            assert(run[i - n - m] == b);
            assert(d.filling[h + i - n - m] == b);
        }
    }
    lemma_sizes_add(planned_blocks(d.objects), kept);
    lemma_sizes_add(planned_blocks(mid), run);
    lemma_sizes_add(planned_blocks(d.objects), run);
}

/// Planning objects keeps every block, in order, where every block holds bytes.
pub proof fn law_objects_keep_blocks(split_size: u64, blocks: Seq<StreamDataBlock>)
    requires
        forall|i: int| 0 <= i < blocks.len() ==> (#[trigger] blocks[i]).index.size > 0,
        objects_for(split_size, blocks) is Some,
    ensures
        planned_blocks(objects_for(split_size, blocks)->0) == blocks,
{
    lemma_draft_keeps(split_size, blocks);
    let d = draft_of(split_size, blocks)->0;
    lemma_cut_keeps(d);
    lemma_planned_push(d.objects, Planned { kind: CompactionType::Compact, blocks: d.filling });
}

proof fn lemma_draft_keeps(split_size: u64, blocks: Seq<StreamDataBlock>)
    requires
        forall|i: int| 0 <= i < blocks.len() ==> (#[trigger] blocks[i]).index.size > 0,
        draft_of(split_size, blocks) is Some,
    ensures
        ({
            let d = draft_of(split_size, blocks)->0;
            &&& planned_blocks(d.objects) + d.filling == blocks
            &&& forall|i: int| 0 <= i < d.filling.len() ==> (#[trigger] d.filling[i]).index.size > 0
        }),
    decreases blocks.len(),
{
    if blocks.len() > 0 {
        let rest = blocks.drop_last();
        let b = blocks.last();
        lemma_draft_keeps(split_size, rest);
        let d = draft_of(split_size, rest)->0;
        let e = draft_of(split_size, blocks)->0;
        lemma_cut_keeps(d);
        assert(blocks =~= rest.push(b));
        assert(planned_blocks(e.objects) + e.filling =~= blocks);
    } else {
        let d = draft_of(split_size, blocks)->0;
        assert(planned_blocks(d.objects) + d.filling =~= blocks);
    }
}

proof fn lemma_cut_keeps(d: Draft)
    requires
        forall|i: int| 0 <= i < d.filling.len() ==> (#[trigger] d.filling[i]).index.size > 0,
    ensures
        planned_blocks(cut_run(d)) == planned_blocks(d.objects) + d.filling,
{
    let h = run_start(d.filling);
    lemma_run_start(d.filling);
    let kept = d.filling.take(h);
    let run = d.filling.skip(h);
    if kept.len() > 0 {
        lemma_sizes_nonneg(kept.drop_last());
        assert(kept.last() == d.filling[h - 1]);
    }
    let mid = d.objects.push(Planned { kind: CompactionType::Compact, blocks: kept });
    lemma_planned_push(d.objects, Planned { kind: CompactionType::Compact, blocks: kept });
    lemma_planned_push(mid, Planned { kind: CompactionType::Split, blocks: run });
    lemma_planned_push(d.objects, Planned { kind: CompactionType::Split, blocks: run });
    assert(d.filling =~= kept + run);
    assert(planned_blocks(cut_run(d)) =~= planned_blocks(d.objects) + d.filling);
}

/// Accumulator for one output object, with the start of the current stream's run.
#[derive(Debug)]
pub struct CompactedObjectBuilder {
    compaction_type: CompactionType,
    blocks: Vec<StreamDataBlock>,
    curr_stream_index_head: usize,
}

impl CompactedObjectBuilder {
    pub closed spec fn planned(&self) -> Planned {
        Planned { kind: self.compaction_type, blocks: self.blocks@ }
    }

    pub closed spec fn wf(&self) -> bool {
        self.curr_stream_index_head == run_start(self.blocks@)
    }

    pub(crate) fn new() -> (r: Self)
        ensures
            r.wf(),
            r.planned() == (Planned { kind: CompactionType::Compact, blocks: Seq::empty() }),
    {
        CompactedObjectBuilder {
            compaction_type: CompactionType::Compact,
            blocks: Vec::new(),
            curr_stream_index_head: 0,
        }
    }

    /// Takes the run of the current stream out.
    pub(crate) fn split_current_stream(&mut self) -> (r: Self)
        requires
            old(self).wf(),
        ensures
            final(self).wf(),
            r.wf(),
            ({
                let p = old(self).planned();
                let h = run_start(p.blocks);
                &&& r.planned() == (Planned { kind: p.kind, blocks: p.blocks.skip(h) })
                &&& final(self).planned() == (Planned { kind: p.kind, blocks: p.blocks.take(h) })
            }),
    {
        let head: usize = self.curr_stream_index_head;
        proof {
            lemma_run_start(self.blocks@);
        }
        let ghost all = self.blocks@;
        let tail = self.blocks.split_off(head);
        proof {
            assert(all.subrange(head as int, all.len() as int) =~= all.skip(head as int));
            assert(all.subrange(0, head as int) =~= all.take(head as int));
        }
        self.reset_curr_stream_position();
        let mut r = CompactedObjectBuilder {
            compaction_type: self.compaction_type,
            blocks: tail,
            curr_stream_index_head: 0,
        };
        r.reset_curr_stream_position();
        r
    }

    /// Takes the first `end` blocks out.
    pub(crate) fn split_prefix(&mut self, end: usize) -> (r: Self)
        requires
            end <= old(self).planned().blocks.len(),
        ensures
            final(self).wf(),
            r.wf(),
            ({
                let p = old(self).planned();
                &&& r.planned() == (Planned { kind: p.kind, blocks: p.blocks.take(end as int) })
                &&& final(self).planned() == (Planned {
                    kind: p.kind,
                    blocks: p.blocks.skip(end as int),
                })
            }),
    {
        let ghost all = self.blocks@;
        let tail = self.blocks.split_off(end);
        let mut r = CompactedObjectBuilder {
            compaction_type: self.compaction_type,
            blocks: Vec::new(),
            curr_stream_index_head: 0,
        };
        r.blocks.append(&mut self.blocks);
        self.blocks = tail;
        proof {
            assert(all.subrange(end as int, all.len() as int) =~= all.skip(end as int));
            assert(all.subrange(0, end as int) =~= all.take(end as int));
            assert(r.blocks@ =~= all.take(end as int));
        }
        self.reset_curr_stream_position();
        r.reset_curr_stream_position();
        r
    }

    fn reset_curr_stream_position(&mut self)
        ensures
            final(self).wf(),
            final(self).planned() == old(self).planned(),
    {
        let mut head: usize = 0;
        let mut i: usize = 0;
        while i < self.blocks.len()
            invariant
                i <= self.blocks@.len(),
                head == run_start(self.blocks@.take(i as int)),
            decreases self.blocks@.len() - i,
        {
            let ghost s = self.blocks@;
            assert(s.take(i + 1).drop_last() =~= s.take(i as int));
            if i > 0 && self.blocks[i].index.stream_id != self.blocks[i - 1].index.stream_id {
                head = i;
            }
            i += 1;
        }
        assert(self.blocks@.take(i as int) =~= self.blocks@);
        self.curr_stream_index_head = head;
    }

    pub(crate) fn last_block(&self) -> (r: Option<StreamDataBlock>)
        ensures
            r == (if self.planned().blocks.len() > 0 {
                Some(self.planned().blocks.last())
            } else {
                None
            }),
    {
        let n: usize = self.blocks.len();
        if n == 0 {
            None
        } else {
            Some(self.blocks[n - 1])
        }
    }

    pub(crate) fn add_block(&mut self, block: StreamDataBlock)
        requires
            old(self).wf(),
        ensures
            final(self).wf(),
            final(self).planned() == (Planned {
                kind: old(self).planned().kind,
                blocks: old(self).planned().blocks.push(block),
            }),
    {
        let n: usize = self.blocks.len();
        if n > 0 && self.blocks[n - 1].index.stream_id != block.index.stream_id {
            self.curr_stream_index_head = n;
        }
        self.blocks.push(block);
        assert(self.blocks@.drop_last() =~= old(self).blocks@);
    }

    pub(crate) fn total_stream_num(&self) -> (r: usize)
        ensures
            r == stream_ids(self.planned().blocks).len(),
    {
        broadcast use vstd::std_specs::hash::group_hash_axioms;

        let mut set: HashSet<u64> = HashSet::new();
        let mut i: usize = 0;
        while i < self.blocks.len()
            invariant
                i <= self.blocks@.len(),
                set@ == stream_ids(self.blocks@.take(i as int)),
            decreases self.blocks@.len() - i,
        {
            set.insert(self.blocks[i].index.stream_id);
            proof {
                let s = self.blocks@;
                lemma_stream_ids_push(s.take(i as int), s[i as int]);
                assert(s.take(i + 1) =~= s.take(i as int).push(s[i as int]));
            }
            i += 1;
        }
        assert(self.blocks@.take(i as int) =~= self.blocks@);
        set.len()
    }

    pub(crate) fn curr_stream_block_size(&self) -> (r: u64)
        requires
            self.wf(),
            sizes(self.planned().blocks) <= u64::MAX,
        ensures
            r == sizes(self.planned().blocks.skip(run_start(self.planned().blocks))),
    {
        proof {
            lemma_run_start(self.blocks@);
        }
        total_size(&self.blocks, self.curr_stream_index_head)
    }

    /// The source objects, each once, in order of their first block.
    pub(crate) fn unique_object_ids(&self) -> (r: Vec<u64>)
        ensures
            r@ == distinct_objects(self.planned().blocks),
    {
        distinct_object_ids(&self.blocks)
    }

    pub(crate) fn total_block_size(&self) -> (r: u64)
        requires
            sizes(self.planned().blocks) <= u64::MAX,
        ensures
            r == sizes(self.planned().blocks),
    {
        assert(self.blocks@.skip(0) =~= self.blocks@);
        total_size(&self.blocks, 0)
    }

    /// Appends the blocks of another object, unless that one is a split.
    pub(crate) fn merge(&mut self, other: Self)
        ensures
            final(self).wf() || other.planned().kind == CompactionType::Split && *final(self)
                == *old(self),
            final(self).planned() == (if other.planned().kind == CompactionType::Split {
                old(self).planned()
            } else {
                Planned {
                    kind: old(self).planned().kind,
                    blocks: old(self).planned().blocks + other.planned().blocks,
                }
            }),
    {
        if matches!(other.compaction_type, CompactionType::Split) {
            return;
        }
        let mut blocks = other.blocks;
        self.blocks.append(&mut blocks);
        self.reset_curr_stream_position();
    }

    /// What kind of object is being filled.
    pub(crate) fn kind(&self) -> (r: CompactionType)
        ensures
            r == self.planned().kind,
    {
        self.compaction_type
    }

    /// The number of blocks.
    pub(crate) fn block_count(&self) -> (r: usize)
        ensures
            r == self.planned().blocks.len(),
    {
        self.blocks.len()
    }

    /// One of the blocks.
    pub(crate) fn block(&self, i: usize) -> (r: StreamDataBlock)
        requires
            i < self.planned().blocks.len(),
        ensures
            r == self.planned().blocks[i as int],
    {
        self.blocks[i]
    }

    /// Marks the object as split out.
    pub(crate) fn mark_split(&mut self)
        ensures
            old(self).wf() ==> final(self).wf(),
            final(self).planned() == (Planned {
                kind: CompactionType::Split,
                blocks: old(self).planned().blocks,
            }),
    {
        self.compaction_type = CompactionType::Split;
    }

    pub(crate) fn build(self) -> (r: CompactedObject)
        ensures
            r.planned() == self.planned(),
    {
        CompactedObject { compaction_type: self.compaction_type, blocks: self.blocks }
    }
}

/// The objects that a list of builders stands for.
pub open spec fn planned_views(builders: Seq<CompactedObjectBuilder>) -> Seq<Planned> {
    builders.map_values(|b: CompactedObjectBuilder| b.planned())
}

/// The streams of a list of blocks.
pub open spec fn stream_ids(blocks: Seq<StreamDataBlock>) -> Set<u64> {
    blocks.map_values(|b: StreamDataBlock| b.index.stream_id).to_set()
}

pub proof fn lemma_stream_ids_push(blocks: Seq<StreamDataBlock>, b: StreamDataBlock)
    ensures
        stream_ids(blocks.push(b)) == stream_ids(blocks).insert(b.index.stream_id),
{
    let f = |b: StreamDataBlock| b.index.stream_id;
    assert(blocks.push(b).map_values(f) =~= blocks.map_values(f).push(f(b)));
    blocks.map_values(f).lemma_push_to_set_commute(f(b));
}

/// The source objects of a list of blocks, each once, in order of their first block.
pub open spec fn distinct_objects(blocks: Seq<StreamDataBlock>) -> Seq<u64>
    decreases blocks.len(),
{
    if blocks.len() == 0 {
        Seq::empty()
    } else {
        let ids = distinct_objects(blocks.drop_last());
        if ids.contains(blocks.last().object_id) {
            ids
        } else {
            ids.push(blocks.last().object_id)
        }
    }
}

pub proof fn lemma_distinct_objects(blocks: Seq<StreamDataBlock>)
    ensures
        distinct_objects(blocks).no_duplicates(),
        distinct_objects(blocks).len() <= blocks.len(),
        forall|id: u64| #[trigger]
            distinct_objects(blocks).contains(id) <==> exists|i: int|
                0 <= i < blocks.len() && (#[trigger] blocks[i]).object_id == id,
    decreases blocks.len(),
{
    if blocks.len() > 0 {
        let rest = blocks.drop_last();
        let last = blocks.last().object_id;
        lemma_distinct_objects(rest);
        let ids = distinct_objects(rest);
        assert forall|id: u64| #[trigger]
            distinct_objects(blocks).contains(id) <==> exists|i: int|
            0 <= i < blocks.len() && (#[trigger] blocks[i]).object_id == id by {
            vstd::seq_lib::lemma_seq_contains_after_push(ids, last, id);
            if ids.contains(id) {
                let i = choose|i: int| 0 <= i < rest.len() && (#[trigger] rest[i]).object_id == id;
                assert(blocks[i].object_id == id);
            }
            if exists|i: int| 0 <= i < blocks.len() && (#[trigger] blocks[i]).object_id == id {
                let i = choose|i: int|
                    0 <= i < blocks.len() && (#[trigger] blocks[i]).object_id == id;
                if i < rest.len() {
                    assert(rest[i].object_id == id);
                }
            }
            if id == last {
                assert(blocks[blocks.len() - 1].object_id == id);
            }
        }
    }
}

/// The source objects of a list of blocks, each once, in order of their first block.
pub fn distinct_object_ids(blocks: &Vec<StreamDataBlock>) -> (r: Vec<u64>)
    ensures
        r@ == distinct_objects(blocks@),
{
    broadcast use vstd::std_specs::hash::group_hash_axioms;

    let mut seen: HashSet<u64> = HashSet::new();
    let mut out: Vec<u64> = Vec::new();
    let mut i: usize = 0;
    while i < blocks.len()
        invariant
            i <= blocks@.len(),
            out@ == distinct_objects(blocks@.take(i as int)),
            forall|id: u64| #[trigger] seen@.contains(id) <==> out@.contains(id),
        decreases blocks@.len() - i,
    {
        let id: u64 = blocks[i].object_id;
        let ghost before = out@;
        assert(blocks@.take(i + 1).drop_last() =~= blocks@.take(i as int));
        if seen.insert(id) {
            out.push(id);
        }
        proof {
            assert forall|x: u64| #[trigger] seen@.contains(x) <==> out@.contains(x) by {
                vstd::seq_lib::lemma_seq_contains_after_push(before, id, x);
            }
        }
        i += 1;
    }
    assert(blocks@.take(i as int) =~= blocks@);
    out
}

} // verus!
