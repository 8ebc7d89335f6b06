//! The work of a compaction round, in the order in which it is done: the blocks of a stage
//! are read before its objects are written, stream objects are written whole, and all stages
//! add to one stream set object, which is opened by the first that does.
use vstd::prelude::*;

use crate::compact::plan::{CompactionType, Planned};
use crate::compact::stages::{plan_views, CompactionPlan};

verus! {

#[derive(Debug, Clone, Copy, PartialEq, Eq, Structural)]
pub enum RoundStep {
    /// Read the blocks of a stage.
    Read { plan: usize },
    /// Write a stream object of a stage.
    Split { plan: usize, object: usize },
    /// Add an object of a stage to the stream set object, opening it first where nothing
    /// was added before.
    Append { plan: usize, object: usize, opens: bool },
}

/// The step writes an object of a stage.
pub open spec fn writes(step: RoundStep, plan: int, object: int) -> bool {
    match step {
        RoundStep::Read { .. } => false,
        RoundStep::Split { plan: p, object: o } => p == plan && o == object,
        RoundStep::Append { plan: p, object: o, .. } => p == plan && o == object,
    }
}

pub open spec fn has_append(steps: Seq<RoundStep>) -> bool {
    exists|i: int| 0 <= i < steps.len() && (#[trigger] steps[i]) is Append
}

/// The steps once the first `n` objects of a stage are written.
pub open spec fn steps_after_objects(
    objects: Seq<Planned>,
    plan: usize,
    n: int,
    before: Seq<RoundStep>,
) -> Seq<RoundStep>
    decreases n,
{
    if n <= 0 {
        before
    } else {
        let steps = steps_after_objects(objects, plan, n - 1, before);
        let object = (n - 1) as usize;
        if objects[n - 1].blocks.len() == 0 {
            steps
        } else {
            match objects[n - 1].kind {
                CompactionType::Split => steps.push(RoundStep::Split { plan, object }),
                CompactionType::Compact => steps.push(
                    RoundStep::Append { plan, object, opens: !has_append(steps) },
                ),
            }
        }
    }
}

/// The steps once the first `n` stages are done.
pub open spec fn steps_after_stages(stages: Seq<Seq<Planned>>, n: int) -> Seq<RoundStep>
    decreases n,
{
    if n <= 0 {
        Seq::empty()
    } else {
        steps_after_objects(
            stages[n - 1],
            (n - 1) as usize,
            stages[n - 1].len() as int,
            steps_after_stages(stages, n - 1).push(RoundStep::Read { plan: (n - 1) as usize }),
        )
    }
}

/// The steps of a round.
pub fn round_steps(plans: &Vec<CompactionPlan>) -> (r: Vec<RoundStep>)
    ensures
        r@ == steps_after_stages(plan_views(plans@), plans@.len() as int),
{
    let ghost stages = plan_views(plans@);
    let mut steps: Vec<RoundStep> = Vec::new();
    let mut is_open: bool = false;
    let mut plan: usize = 0;
    while plan < plans.len()
        invariant
            plan <= plans@.len(),
            stages == plan_views(plans@),
            steps@ == steps_after_stages(stages, plan as int),
            is_open <==> has_append(steps@),
        decreases plans@.len() - plan,
    {
        let ghost before = steps@.push(RoundStep::Read { plan });
        proof {
            lemma_push_append(steps@, RoundStep::Read { plan });
        }
        steps.push(RoundStep::Read { plan });
        let objects = &plans[plan].compacted_objects;
        let mut object: usize = 0;
        assert(stages[plan as int].len() == objects@.len());
        while object < objects.len()
            invariant
                plan < plans@.len(),
                object <= objects@.len(),
                stages == plan_views(plans@),
                *objects == plans@[plan as int].compacted_objects,
                steps@ == steps_after_objects(stages[plan as int], plan, object as int, before),
                is_open <==> has_append(steps@),
            decreases objects@.len() - object,
        {
            assert(stages[plan as int][object as int] == objects@[object as int].planned());
            if objects[object].blocks.len() > 0 {
                let step = match objects[object].compaction_type {
                    CompactionType::Split => RoundStep::Split { plan, object },
                    CompactionType::Compact => RoundStep::Append { plan, object, opens: !is_open },
                };
                proof {
                    lemma_push_append(steps@, step);
                }
                steps.push(step);
                if matches!(objects[object].compaction_type, CompactionType::Compact) {
                    is_open = true;
                }
            }
            object += 1;
        }
        plan += 1;
    }
    steps
}

proof fn lemma_push_append(steps: Seq<RoundStep>, step: RoundStep)
    ensures
        has_append(steps.push(step)) <==> has_append(steps) || step is Append,
{
    let all = steps.push(step);
    if has_append(steps) {
        let i = choose|i: int| 0 <= i < steps.len() && (#[trigger] steps[i]) is Append;
        assert(all[i] is Append);
    }
    if step is Append {
        assert(all[steps.len() as int] is Append);
    }
    if has_append(all) {
        let i = choose|i: int| 0 <= i < all.len() && (#[trigger] all[i]) is Append;
        if i < steps.len() {
            assert(steps[i] is Append);
        }
    }
}

/// The step that writes an object, once: it is the only one that does, and it comes after
/// the read of its stage.
pub open spec fn is_written_once(
    steps: Seq<RoundStep>,
    plan: int,
    object: int,
    kind: CompactionType,
) -> bool {
    exists|i: int|
        {
            &&& 0 <= i < steps.len()
            &&& #[trigger] writes(steps[i], plan, object)
            &&& steps[i] is Split <==> kind == CompactionType::Split
            &&& forall|j: int|
                0 <= j < steps.len() && #[trigger] writes(steps[j], plan, object) ==> j == i
            &&& steps.take(i).contains(RoundStep::Read { plan: plan as usize })
        }
}

/// Only the first addition to the stream set object opens it.
pub open spec fn opens_once(steps: Seq<RoundStep>) -> bool {
    forall|i: int| #![trigger steps[i]]
        0 <= i < steps.len() && steps[i] is Append ==> (steps[i]->opens <==> !has_append(
            steps.take(i),
        ))
}

/// Every planned object that holds blocks is written exactly once, after its stage was read,
/// as the kind of object that it was planned as; no other object is written; and the stream
/// set object is opened exactly by the first addition to it.
pub proof fn law_round_writes_each_object_once(stages: Seq<Seq<Planned>>)
    requires
        stages.len() <= usize::MAX,
        forall|p: int| 0 <= p < stages.len() ==> (#[trigger] stages[p]).len() <= usize::MAX,
    ensures
        forall|p: int, o: int|
            #![trigger stages[p][o]]
            0 <= p < stages.len() && 0 <= o < stages[p].len() && stages[p][o].blocks.len() > 0
                ==> is_written_once(
                steps_after_stages(stages, stages.len() as int),
                p,
                o,
                stages[p][o].kind,
            ),
        forall|i: int, p: int, o: int|
            0 <= i < steps_after_stages(stages, stages.len() as int).len() && #[trigger] writes(
                steps_after_stages(stages, stages.len() as int)[i],
                p,
                o,
            ) ==> 0 <= p < stages.len() && 0 <= o < stages[p].len() && stages[p][o].blocks.len()
                > 0,
        opens_once(steps_after_stages(stages, stages.len() as int)),
{
    lemma_stages(stages, stages.len() as int);
}

/// What holds of the steps once the first `n` stages are done, and the first `k` objects of
/// the stage after them.
spec fn done_to(stages: Seq<Seq<Planned>>, n: int, k: int, steps: Seq<RoundStep>) -> bool {
    &&& forall|p: int, o: int|
        #![trigger stages[p][o]]
        is_before(stages, n, k, p, o) && stages[p][o].blocks.len() > 0 ==> is_written_once(
            steps,
            p,
            o,
            stages[p][o].kind,
        )
    &&& forall|i: int, p: int, o: int|
        0 <= i < steps.len() && #[trigger] writes(steps[i], p, o) ==> is_before(stages, n, k, p, o)
            && stages[p][o].blocks.len() > 0
    &&& opens_once(steps)
}

spec fn is_before(stages: Seq<Seq<Planned>>, n: int, k: int, p: int, o: int) -> bool {
    0 <= p < stages.len() && 0 <= o < stages[p].len() && (p < n || p == n && o < k)
}

proof fn lemma_stages(stages: Seq<Seq<Planned>>, n: int)
    requires
        0 <= n <= stages.len() <= usize::MAX,
        forall|p: int| 0 <= p < stages.len() ==> (#[trigger] stages[p]).len() <= usize::MAX,
    ensures
        done_to(stages, n, 0, steps_after_stages(stages, n)),
    decreases n,
{
    if n > 0 {
        lemma_stages(stages, n - 1);
        let read = RoundStep::Read { plan: (n - 1) as usize };
        let before = steps_after_stages(stages, n - 1);
        lemma_step(stages, n - 1, 0, before, read);
        lemma_objects(stages, n - 1, stages[n - 1].len() as int, before.push(read));
        let steps = steps_after_stages(stages, n);
        assert forall|p: int, o: int|
            #![trigger stages[p][o]]
            is_before(stages, n, 0, p, o) && stages[p][o].blocks.len() > 0 implies is_written_once(
            steps,
            p,
            o,
            stages[p][o].kind,
        ) by {
            assert(is_before(stages, n - 1, stages[n - 1].len() as int, p, o));
        }
    }
}

proof fn lemma_objects(stages: Seq<Seq<Planned>>, plan: int, k: int, before: Seq<RoundStep>)
    requires
        0 <= plan < stages.len() <= usize::MAX,
        forall|p: int| 0 <= p < stages.len() ==> (#[trigger] stages[p]).len() <= usize::MAX,
        0 <= k <= stages[plan].len(),
        done_to(stages, plan, 0, before),
        before.contains(RoundStep::Read { plan: plan as usize }),
    ensures
        done_to(
            stages,
            plan,
            k,
            steps_after_objects(stages[plan], plan as usize, k, before),
        ),
        steps_after_objects(stages[plan], plan as usize, k, before).contains(
            RoundStep::Read { plan: plan as usize },
        ),
    decreases k,
{
    if k > 0 {
        lemma_objects(stages, plan, k - 1, before);
        let steps = steps_after_objects(stages[plan], plan as usize, k - 1, before);
        let read = RoundStep::Read { plan: plan as usize };
        let object = (k - 1) as usize;
        let o = stages[plan][k - 1];
        if o.blocks.len() > 0 {
            let step = match o.kind {
                CompactionType::Split => RoundStep::Split { plan: plan as usize, object },
                CompactionType::Compact => RoundStep::Append {
                    plan: plan as usize,
                    object,
                    opens: !has_append(steps),
                },
            };
            lemma_step(stages, plan, k - 1, steps, step);
            let at = choose|i: int| 0 <= i < steps.len() && steps[i] == read;
            assert(steps.push(step)[at] == read);
        } else {
            assert forall|p: int, q: int|
                #![trigger stages[p][q]]
                is_before(stages, plan, k, p, q) && stages[p][q].blocks.len()
                    > 0 implies is_written_once(steps, p, q, stages[p][q].kind) by {
                assert(is_before(stages, plan, k - 1, p, q));
            }
        }
    }
}

/// One more step keeps what holds: a read, or the write of the next object.
proof fn lemma_step(
    stages: Seq<Seq<Planned>>,
    plan: int,
    k: int,
    steps: Seq<RoundStep>,
    step: RoundStep,
)
    requires
        0 <= plan < stages.len() <= usize::MAX,
        forall|p: int| 0 <= p < stages.len() ==> (#[trigger] stages[p]).len() <= usize::MAX,
        done_to(stages, plan, k, steps),
        step is Append ==> (step->opens <==> !has_append(steps)),
        step is Read || {
            &&& 0 <= k < stages[plan].len()
            &&& stages[plan][k].blocks.len() > 0
            &&& writes(step, plan, k)
            &&& step is Split <==> stages[plan][k].kind == CompactionType::Split
            &&& steps.contains(RoundStep::Read { plan: plan as usize })
        },
    ensures
        done_to(
            stages,
            plan,
            if step is Read {
                k
            } else {
                k + 1
            },
            steps.push(step),
        ),
        step is Read ==> steps.push(step).contains(step),
{
    let all = steps.push(step);
    let n = steps.len() as int;
    let next = if step is Read {
        k
    } else {
        k + 1
    };
    assert(all[n] == step);
    assert forall|p: int, o: int|
        #![trigger stages[p][o]]
        is_before(stages, plan, next, p, o) && stages[p][o].blocks.len()
            > 0 implies is_written_once(all, p, o, stages[p][o].kind) by {
        if is_before(stages, plan, k, p, o) {
            assert(is_written_once(steps, p, o, stages[p][o].kind));
            let i = choose|i: int|
                {
                    &&& 0 <= i < steps.len()
                    &&& #[trigger] writes(steps[i], p, o)
                    &&& steps[i] is Split <==> stages[p][o].kind == CompactionType::Split
                    &&& forall|j: int|
                        0 <= j < steps.len() && #[trigger] writes(steps[j], p, o) ==> j == i
                    &&& steps.take(i).contains(RoundStep::Read { plan: p as usize })
                };
            assert(all[i] == steps[i]);
            assert(all.take(i) =~= steps.take(i));
            assert forall|j: int|
                0 <= j < all.len() && #[trigger] writes(all[j], p, o) implies j == i by {
                if j < n {
                    assert(writes(steps[j], p, o));
                }
            }
            assert(writes(all[i], p, o));
        } else {
            assert(p == plan && o == k);
            assert forall|j: int|
                0 <= j < all.len() && #[trigger] writes(all[j], p, o) implies j == n by {
                if j < n {
                    assert(writes(steps[j], p, o));
                    assert(is_before(stages, plan, k, p, o));
                }
            }
            assert(all.take(n) =~= steps);
            assert(writes(all[n], p, o));
        }
    }
    assert forall|i: int, p: int, o: int|
        0 <= i < all.len() && #[trigger] writes(all[i], p, o) implies is_before(
        stages,
        plan,
        next,
        p,
        o,
    ) && stages[p][o].blocks.len() > 0 by {
        if i < n {
            assert(writes(steps[i], p, o));
        }
    }
    assert forall|i: int| #![trigger all[i]]
        0 <= i < all.len() && all[i] is Append implies (all[i]->opens <==> !has_append(
        all.take(i),
    )) by {
        if i < n {
            assert(all[i] == steps[i]);
            assert(all.take(i) =~= steps.take(i));
        } else {
            assert(all.take(i) =~= steps);
        }
    }
}

} // verus!
