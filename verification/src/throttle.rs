//! Network bandwidth throttling for object-storage traffic.
//!
//! - Token bucket: it starts with `token_size` tokens. Every refill adds `token_size`, up
//!   to `max_tokens`.
//! - Bypass traffic debits the bucket (the balance may go negative, down to `-max_tokens`)
//!   and never waits. Throttled tiers pay the debt.
use vstd::prelude::*;
use vstd::string::StrSliceExecFns;

use crate::error::{StreamError, Unexpected};

verus! {

/// Largest number of tokens that one grant takes.
pub const MAX_TOKEN_PART_SIZE: i64 = 1024 * 1024;

/// Outbound bursts may use this many seconds' worth of bandwidth.
pub const OUTBOUND_MAX_TOKENS_MULTIPLIER: u64 = 5;

/// Bursts of a shared bucket may use this many seconds' worth of bandwidth.
pub const SHARED_MAX_TOKENS_MULTIPLIER: u64 = 2;

/// One queued acquisition. A smaller priority number goes first; within a priority the
/// order is that of arrival.
#[derive(Debug, Clone, Copy, PartialEq, Eq, Structural)]
pub struct BucketItem {
    pub priority: u32,
    pub seq: u64,
    pub remaining: i64,
    /// Who waits for it.
    pub waiter: u64,
}

/// The item is served before another one.
pub open spec fn goes_before(a: BucketItem, b: BucketItem) -> bool {
    a.priority < b.priority || (a.priority == b.priority && a.seq < b.seq)
}

/// The queue is in the order of service.
pub open spec fn in_service_order(queue: Seq<BucketItem>) -> bool {
    forall|i: int, j: int|
        #![trigger queue[i], queue[j]]
        0 <= i < j < queue.len() ==> goes_before(queue[i], queue[j])
}

/// The bucket and its queue, in the order of service.
#[verifier::ext_equal]
pub struct BucketModel {
    pub available: int,
    pub token_size: int,
    pub max_tokens: int,
    pub queue: Seq<BucketItem>,
    pub next_seq: u64,
}

/// Tokens after a debit.
pub open spec fn debited(available: int, size: int, max_tokens: int) -> int {
    if available - size >= -max_tokens {
        available - size
    } else {
        -max_tokens
    }
}

/// Tokens after a refill.
pub open spec fn refilled(available: int, token_size: int, max_tokens: int) -> int {
    if available + token_size <= max_tokens {
        available + token_size
    } else {
        max_tokens
    }
}

/// How many items of the queue go before a new one of a priority.
pub open spec fn ahead_of(queue: Seq<BucketItem>, priority: u32) -> int
    decreases queue.len(),
{
    if queue.len() == 0 {
        0
    } else if queue.last().priority <= priority {
        queue.len() as int
    } else {
        ahead_of(queue.drop_last(), priority)
    }
}

/// The grant that comes next: of the head of the queue, at most one part.
pub open spec fn part_of(item: BucketItem) -> int {
    if item.remaining <= MAX_TOKEN_PART_SIZE {
        item.remaining as int
    } else {
        MAX_TOKEN_PART_SIZE as int
    }
}

/// One grant to the head of the queue.
pub open spec fn granted_part(m: BucketModel) -> BucketModel {
    let head = m.queue[0];
    let left = head.remaining - part_of(head);
    BucketModel {
        available: debited(m.available, part_of(head), m.max_tokens),
        queue: if left <= 0 {
            m.queue.skip(1)
        } else {
            m.queue.update(0, BucketItem { remaining: left as i64, ..head })
        },
        ..m
    }
}

/// The head of the queue gets all that it still waits for with the next grant.
pub open spec fn completes_head(m: BucketModel) -> bool {
    m.queue[0].remaining - part_of(m.queue[0]) <= 0
}

/// Grants go on while there are tokens and someone waits. Returns the bucket, and who got
/// all that they waited for.
pub open spec fn drained(m: BucketModel) -> (BucketModel, Seq<u64>)
    decreases
            m.queue.len(),
            if m.queue.len() > 0 && m.queue[0].remaining > 0 {
                m.queue[0].remaining as int
            } else {
                0
            },
{
    if m.available <= 0 || m.queue.len() == 0 {
        (m, Seq::empty())
    } else {
        let (end, rest) = drained(granted_part(m));
        if completes_head(m) {
            (end, seq![m.queue[0].waiter] + rest)
        } else {
            (end, rest)
        }
    }
}

/// Token-bucket bandwidth limiter with priority tiers.
#[derive(Debug)]
pub struct BandwidthLimiter {
    available_tokens: i64,
    token_size: i64,
    max_tokens: i64,
    queued: Vec<BucketItem>,
    next_seq: u64,
}

impl View for BandwidthLimiter {
    type V = BucketModel;

    closed spec fn view(&self) -> BucketModel {
        BucketModel {
            available: self.available_tokens as int,
            token_size: self.token_size as int,
            max_tokens: self.max_tokens as int,
            queue: self.queued@,
            next_seq: self.next_seq,
        }
    }
}

/// The bucket holds no more than it can and owes no more than it may; the queue is in the
/// order of service.
pub open spec fn is_bucket(m: BucketModel) -> bool {
    &&& 0 < m.token_size <= i64::MAX
    &&& 0 <= m.max_tokens <= i64::MAX
    &&& -m.max_tokens <= m.available <= i64::MAX
    &&& in_service_order(m.queue)
    &&& forall|i: int|
        0 <= i < m.queue.len() ==> (#[trigger] m.queue[i]).remaining >= 0 && m.queue[i].seq
            < m.next_seq
}

proof fn lemma_ahead_of(queue: Seq<BucketItem>, priority: u32)
    requires
        in_service_order(queue),
    ensures
        0 <= ahead_of(queue, priority) <= queue.len(),
        forall|i: int|
            0 <= i < ahead_of(queue, priority) ==> (#[trigger] queue[i]).priority <= priority,
        forall|i: int|
            ahead_of(queue, priority) <= i < queue.len() ==> (#[trigger] queue[i]).priority
                > priority,
    decreases queue.len(),
{
    if queue.len() > 0 {
        if queue.last().priority <= priority {
            assert forall|i: int| 0 <= i < queue.len() implies (#[trigger] queue[i]).priority
                <= priority by {
                if i < queue.len() - 1 {
                    assert(goes_before(queue[i], queue[queue.len() - 1]));
                }
            }
        } else {
            let front = queue.drop_last();
            assert forall|i: int, j: int|
                #![trigger front[i], front[j]]
                0 <= i < j < front.len() implies goes_before(front[i], front[j]) by {
                assert(front[i] == queue[i] && front[j] == queue[j]);
            }
            lemma_ahead_of(front, priority);
            assert forall|i: int| 0 <= i < ahead_of(queue, priority) implies (
            #[trigger] queue[i]).priority <= priority by {
                assert(front[i] == queue[i]);
            }
            assert forall|i: int| ahead_of(queue, priority) <= i < queue.len() implies (
            #[trigger] queue[i]).priority > priority by {
                if i < queue.len() - 1 {
                    assert(front[i] == queue[i]);
                }
            }
        }
    }
}

/// A new item keeps the order of service: behind all of its priority, before all of a
/// larger priority number.
pub proof fn law_queue_is_fair(m: BucketModel, item: BucketItem)
    requires
        is_bucket(m),
        item.seq == m.next_seq,
    ensures
        in_service_order(m.queue.insert(ahead_of(m.queue, item.priority), item)),
{
    lemma_ahead_of(m.queue, item.priority);
    let k = ahead_of(m.queue, item.priority);
    let q = m.queue.insert(k, item);
    assert forall|i: int, j: int|
        #![trigger q[i], q[j]]
        0 <= i < j < q.len() implies goes_before(q[i], q[j]) by {
        if i < k {
            assert(q[i] == m.queue[i]);
        } else if i > k {
            assert(q[i] == m.queue[i - 1]);
        }
        if j < k {
            assert(q[j] == m.queue[j]);
        } else if j > k {
            assert(q[j] == m.queue[j - 1]);
        }
    }
}

/// Grants serve the queue from its head on: those who got all that they waited for are a
/// prefix of it, and the rest waits on in order.
pub proof fn law_grants_follow_queue(m: BucketModel)
    ensures
        drained(m).1.len() <= m.queue.len(),
        drained(m).1 == m.queue.take(drained(m).1.len() as int).map_values(
            |i: BucketItem| i.waiter,
        ),
        drained(m).0.queue.len() == m.queue.len() - drained(m).1.len(),
        forall|i: int|
            0 <= i < drained(m).0.queue.len() ==> (#[trigger] drained(m).0.queue[i]).waiter
                == m.queue[i + drained(m).1.len()].waiter,
    decreases
            m.queue.len(),
            if m.queue.len() > 0 && m.queue[0].remaining > 0 {
                m.queue[0].remaining as int
            } else {
                0
            },
{
    let f = |i: BucketItem| i.waiter;
    if m.available <= 0 || m.queue.len() == 0 {
        assert(m.queue.take(0).map_values(f) =~= Seq::empty());
    } else {
        let next = granted_part(m);
        law_grants_follow_queue(next);
        let rest = drained(next).1;
        let n = rest.len() as int;
        if completes_head(m) {
            assert(seq![m.queue[0].waiter] + rest =~= m.queue.take(n + 1).map_values(f)) by {
                assert forall|i: int| 0 <= i < n implies #[trigger] rest[i] == m.queue[i
                    + 1].waiter by {
                    assert(next.queue.take(n).map_values(f)[i] == next.queue[i].waiter);
                }
            }
            assert forall|i: int| 0 <= i < drained(m).0.queue.len() implies (
            #[trigger] drained(m).0.queue[i]).waiter == m.queue[i + drained(m).1.len()].waiter by {
                assert(drained(next).0.queue[i].waiter == next.queue[i + n].waiter);
            }
        } else {
            assert(rest =~= m.queue.take(n).map_values(f)) by {
                assert forall|i: int| 0 <= i < n implies #[trigger] rest[i] == m.queue[i].waiter by {
                    assert(next.queue.take(n).map_values(f)[i] == next.queue[i].waiter);
                }
            }
            assert forall|i: int| 0 <= i < drained(m).0.queue.len() implies (
            #[trigger] drained(m).0.queue[i]).waiter == m.queue[i + drained(m).1.len()].waiter by {
                assert(drained(next).0.queue[i].waiter == next.queue[i + n].waiter);
            }
        }
    }
}

/// Tokens that a queue still waits for.
pub open spec fn waited_for(queue: Seq<BucketItem>) -> int
    decreases queue.len(),
{
    if queue.len() == 0 {
        0
    } else {
        queue[0].remaining + waited_for(queue.skip(1))
    }
}

/// Nobody waits while there are tokens: grants end only with an empty queue or with no token
/// left. The tokens taken are what the queue was granted, up to the debt that the bucket may
/// have, and the last grant overdraws the bucket by less than one part. Who still waits is as
/// before, but for the head, which may have got a part of what it waits for.
pub proof fn law_grants_use_up_tokens(m: BucketModel)
    requires
        m.max_tokens >= 0,
        forall|i: int| 0 <= i < m.queue.len() ==> (#[trigger] m.queue[i]).remaining >= 0,
    ensures
        ({
            let (end, granted) = drained(m);
            let taken = waited_for(m.queue) - waited_for(end.queue);
            let n = granted.len() as int;
            &&& end.queue.len() == 0 || end.available <= 0
            &&& taken >= 0
            &&& m.available <= 0 ==> end == m && n == 0
            &&& m.available > 0 ==> taken < m.available + MAX_TOKEN_PART_SIZE
            &&& m.available > 0 ==> end.available == (if m.available - taken >= -m.max_tokens {
                m.available - taken
            } else {
                -m.max_tokens
            })
            &&& end.token_size == m.token_size
            &&& end.max_tokens == m.max_tokens
            &&& end.next_seq == m.next_seq
            &&& end.queue.len() == m.queue.len() - n
            &&& forall|i: int|
                0 < i < end.queue.len() ==> #[trigger] end.queue[i] == m.queue[i + n]
            &&& end.queue.len() > 0 ==> {
                &&& end.queue[0].waiter == m.queue[n].waiter
                &&& end.queue[0].priority == m.queue[n].priority
                &&& end.queue[0].seq == m.queue[n].seq
                &&& 0 <= end.queue[0].remaining <= m.queue[n].remaining
            }
        }),
    decreases
            m.queue.len(),
            if m.queue.len() > 0 && m.queue[0].remaining > 0 {
                m.queue[0].remaining as int
            } else {
                0
            },
{
    if !(m.available <= 0 || m.queue.len() == 0) {
        let next = granted_part(m);
        let part = part_of(m.queue[0]);
        assert(m.queue[0].remaining >= 0);
        if completes_head(m) {
            assert forall|i: int| 0 <= i < next.queue.len() implies (
            #[trigger] next.queue[i]).remaining >= 0 by {
                assert(next.queue[i] == m.queue[i + 1]);
            }
        } else {
            assert forall|i: int| 0 <= i < next.queue.len() implies (
            #[trigger] next.queue[i]).remaining >= 0 by {
                if i > 0 {
                    assert(next.queue[i] == m.queue[i]);
                }
            }
            assert(next.queue.skip(1) =~= m.queue.skip(1));
        }
        assert(waited_for(next.queue) == waited_for(m.queue) - part);
        law_grants_use_up_tokens(next);
        let (end, rest) = drained(next);
        let k = rest.len() as int;
        assert forall|i: int| 0 < i < end.queue.len() implies #[trigger] end.queue[i] == m.queue[i
            + drained(m).1.len()] by {
            assert(end.queue[i] == next.queue[i + k]);
        }
    }
}

/// A debit takes as many tokens as it asks for, up to the debt that the bucket may have; a
/// refill adds a bucketful, up to what the bucket holds.
pub proof fn law_debits_and_refills(available: int, tokens: int, max_tokens: int)
    requires
        tokens >= 0,
        max_tokens >= 0,
        -max_tokens <= available <= max_tokens,
    ensures
        -max_tokens <= debited(available, tokens, max_tokens) <= available,
        debited(available, tokens, max_tokens) > -max_tokens ==> debited(
            available,
            tokens,
            max_tokens,
        ) + tokens == available,
        available <= refilled(available, tokens, max_tokens) <= max_tokens,
        refilled(available, tokens, max_tokens) < max_tokens ==> refilled(
            available,
            tokens,
            max_tokens,
        ) == available + tokens,
{
}

impl BandwidthLimiter {
    pub open spec fn wf(&self) -> bool {
        is_bucket(self@)
    }

    pub fn new(token_size: u64) -> (r: Self)
        requires
            0 < token_size <= i64::MAX,
        ensures
            r.wf(),
            r@ == (BucketModel {
                available: token_size as int,
                token_size: token_size as int,
                max_tokens: token_size as int,
                queue: Seq::empty(),
                next_seq: 0,
            }),
    {
        Self::with_max_tokens(token_size, token_size)
    }

    pub fn with_max_tokens(token_size: u64, max_tokens: u64) -> (r: Self)
        requires
            0 < token_size <= i64::MAX,
            max_tokens <= i64::MAX,
        ensures
            r.wf(),
            r@ == (BucketModel {
                available: token_size as int,
                token_size: token_size as int,
                max_tokens: max_tokens as int,
                queue: Seq::empty(),
                next_seq: 0,
            }),
    {
        BandwidthLimiter {
            available_tokens: token_size as i64,
            token_size: token_size as i64,
            max_tokens: max_tokens as i64,
            queued: Vec::new(),
            next_seq: 0,
        }
    }

    fn reduce_token(&mut self, size: i64)
        requires
            old(self).wf(),
            size >= 0,
        ensures
            final(self).wf(),
            final(self)@ == (BucketModel {
                available: debited(old(self)@.available, size as int, old(self)@.max_tokens),
                ..old(self)@
            }),
    {
        let left: i128 = self.available_tokens as i128 - size as i128;
        let floor: i64 = -self.max_tokens;
        self.available_tokens = if left >= floor as i128 {
            left as i64
        } else {
            floor
        };
    }

    /// Acquire `bytes` of budget. `priority` is `None` for bypass traffic, which is debited
    /// at once. True, where the request has to wait until it is granted.
    pub fn acquire(&mut self, priority: Option<u32>, bytes: u64, waiter: u64) -> (r: bool)
        requires
            old(self).wf(),
            bytes <= i64::MAX,
            old(self)@.next_seq < u64::MAX,
        ensures
            final(self).wf(),
            r == (priority is Some && (old(self)@.available <= 0 || old(self)@.queue.len() > 0)),
            final(self)@ == (if r {
                BucketModel {
                    queue: old(self)@.queue.insert(
                        ahead_of(old(self)@.queue, priority->0),
                        BucketItem {
                            priority: priority->0,
                            seq: old(self)@.next_seq,
                            remaining: bytes as i64,
                            waiter,
                        },
                    ),
                    next_seq: (old(self)@.next_seq + 1) as u64,
                    ..old(self)@
                }
            } else {
                BucketModel {
                    available: debited(old(self)@.available, bytes as int, old(self)@.max_tokens),
                    ..old(self)@
                }
            }),
    {
        let tier: u32 = match priority {
            None => {
                self.reduce_token(bytes as i64);
                return false;
            },
            Some(p) => p,
        };
        if self.available_tokens <= 0 || self.queued.len() > 0 {
            let ghost before = self@;
            let item = BucketItem {
                priority: tier,
                seq: self.next_seq,
                remaining: bytes as i64,
                waiter,
            };
            proof {
                law_queue_is_fair(before, item);
                lemma_ahead_of(before.queue, tier);
            }
            let k: usize = self.position_for(tier);
            self.next_seq = self.next_seq + 1;
            self.queued.insert(k, item);
            proof {
                let q = self@.queue;
                assert(q =~= before.queue.insert(k as int, item));
                assert forall|i: int| 0 <= i < q.len() implies (#[trigger] q[i]).remaining >= 0
                    && q[i].seq < self@.next_seq by {
                    if i < k {
                        assert(q[i] == before.queue[i]);
                    } else if i > k {
                        assert(q[i] == before.queue[i - 1]);
                    }
                }
            }
            true
        } else {
            self.reduce_token(bytes as i64);
            false
        }
    }

    fn position_for(&self, priority: u32) -> (r: usize)
        ensures
            r == ahead_of(self@.queue, priority),
            r <= self.queued@.len(),
    {
        let ghost all = self.queued@;
        let mut k: usize = self.queued.len();
        assert(all.take(k as int) =~= all);
        while k > 0 && self.queued[k - 1].priority > priority
            invariant
                k <= self.queued@.len(),
                all == self.queued@,
                ahead_of(all.take(k as int), priority) == ahead_of(all, priority),
            decreases k,
        {
            assert(all.take(k as int).drop_last() =~= all.take(k - 1));
            assert(all.take(k as int).last() == all[k - 1]);
            k -= 1;
        }
        proof {
            if k > 0 {
                assert(all.take(k as int).last() == all[k - 1]);
            }
        }
        k
    }

    /// Refills the bucket, then grants from the head of the queue in parts. Returns who got
    /// all that they waited for.
    pub fn refill_and_drain(&mut self) -> (r: Vec<u64>)
        requires
            old(self).wf(),
        ensures
            final(self).wf(),
            (final(self)@, r@) == drained(
                BucketModel {
                    available: refilled(
                        old(self)@.available,
                        old(self)@.token_size,
                        old(self)@.max_tokens,
                    ),
                    ..old(self)@
                },
            ),
            final(self)@.queue.len() == 0 || final(self)@.available <= 0,
    {
        let more: i128 = self.available_tokens as i128 + self.token_size as i128;
        self.available_tokens = if more <= self.max_tokens as i128 {
            more as i64
        } else {
            self.max_tokens
        };
        let ghost goal = drained(self@);
        let mut out: Vec<u64> = Vec::new();
        assert(out@ + goal.1 =~= goal.1);
        while self.available_tokens > 0 && self.queued.len() > 0
            invariant
                self.wf(),
                goal.0 == drained(self@).0,
                goal.1 == out@ + drained(self@).1,
            decreases
                    self.queued@.len(),
                    if self.queued@.len() > 0 && self.queued@[0].remaining > 0 {
                        self.queued@[0].remaining as int
                    } else {
                        0
                    },
        {
            let ghost m = self@;
            let ghost sent = out@;
            let head = self.queued[0];
            assert(m.queue[0] == head);
            assert(head.remaining >= 0);
            let chunk: i64 = if head.remaining <= MAX_TOKEN_PART_SIZE {
                head.remaining
            } else {
                MAX_TOKEN_PART_SIZE
            };
            self.reduce_token(chunk);
            let left: i64 = head.remaining - chunk;
            if left <= 0 {
                let _ = self.queued.remove(0);
                out.push(head.waiter);
                proof {
                    assert(self@.queue =~= m.queue.skip(1));
                    assert(out@ + drained(self@).1 =~= sent + (seq![head.waiter] + drained(
                        self@,
                    ).1));
                    let q = self@.queue;
                    assert forall|i: int, j: int|
                        #![trigger q[i], q[j]]
                        0 <= i < j < q.len() implies goes_before(q[i], q[j]) by {
                        assert(q[i] == m.queue[i + 1] && q[j] == m.queue[j + 1]);
                    }
                    assert forall|i: int| 0 <= i < q.len() implies (#[trigger] q[i]).remaining >= 0
                        && q[i].seq < m.next_seq by {
                        assert(q[i] == m.queue[i + 1]);
                    }
                }
            } else {
                self.queued[0] = BucketItem { remaining: left, ..head };
                proof {
                    let q = self@.queue;
                    assert(q =~= m.queue.update(0, BucketItem { remaining: left, ..head }));
                    assert forall|i: int, j: int|
                        #![trigger q[i], q[j]]
                        0 <= i < j < q.len() implies goes_before(q[i], q[j]) by {
                        assert(goes_before(m.queue[i], m.queue[j]));
                    }
                    assert forall|i: int| 0 <= i < q.len() implies (#[trigger] q[i]).remaining >= 0
                        && q[i].seq < m.next_seq by {
                        assert(m.queue[i].remaining >= 0);
                    }
                }
            }
            assert(self@ == granted_part(m));
        }
        assert(out@ + Seq::<u64>::empty() =~= out@);
        out
    }

    pub fn max_tokens(&self) -> (r: i64)
        ensures
            r == self@.max_tokens,
    {
        self.max_tokens
    }

    pub fn available_tokens(&self) -> (r: i64)
        ensures
            r == self@.available,
    {
        self.available_tokens
    }

    pub fn queue_size(&self) -> (r: usize)
        ensures
            r == self@.queue.len(),
    {
        self.queued.len()
    }

    /// Lets go of everyone who waits.
    pub fn shutdown(&mut self) -> (r: Vec<u64>)
        requires
            old(self).wf(),
        ensures
            final(self).wf(),
            final(self)@ == (BucketModel { queue: Seq::empty(), ..old(self)@ }),
            r@ == old(self)@.queue.map_values(|i: BucketItem| i.waiter),
    {
        let ghost all = self.queued@;
        let mut out: Vec<u64> = Vec::new();
        let mut i: usize = 0;
        while i < self.queued.len()
            invariant
                i <= self.queued@.len(),
                *self == *old(self),
                all == self.queued@,
                out@.len() == i,
                forall|j: int| 0 <= j < i ==> #[trigger] out@[j] == all[j].waiter,
            decreases self.queued@.len() - i,
        {
            out.push(self.queued[i].waiter);
            i += 1;
        }
        self.queued = Vec::new();
        proof {
            assert(self@.queue =~= Seq::empty());
            assert(out@ =~= all.map_values(|i: BucketItem| i.waiter));
        }
        out
    }
}

/// Whether inbound and outbound traffic draw from separate or one shared bucket.
#[derive(Debug, Clone, Copy, PartialEq, Eq, Structural)]
pub enum NetworkBandwidthMode {
    Separate,
    Shared,
}

impl Default for NetworkBandwidthMode {
    fn default() -> (r: Self)
        ensures
            r == NetworkBandwidthMode::Separate,
    {
        NetworkBandwidthMode::Separate
    }
}

/// The name of a mode.
pub open spec fn mode_name(mode: NetworkBandwidthMode) -> Seq<char> {
    match mode {
        NetworkBandwidthMode::Separate => "separate"@,
        NetworkBandwidthMode::Shared => "shared"@,
    }
}

/// The mode with a name, spelt in lower case.
pub open spec fn mode_named(name: Seq<char>) -> Result<NetworkBandwidthMode, StreamError> {
    if name == "separate"@ {
        Ok(NetworkBandwidthMode::Separate)
    } else if name == "shared"@ {
        Ok(NetworkBandwidthMode::Shared)
    } else {
        Err(StreamError::Unexpected(Unexpected::UnsupportedBandwidthMode))
    }
}

/// The character has the Unicode property White_Space.
pub open spec fn is_white_space(c: char) -> bool {
    let n = c as u32;
    ||| 0x9 <= n <= 0xd
    ||| n == 0x20
    ||| n == 0x85
    ||| n == 0xa0
    ||| n == 0x1680
    ||| 0x2000 <= n <= 0x200a
    ||| 0x2028 <= n <= 0x2029
    ||| n == 0x202f
    ||| n == 0x205f
    ||| n == 0x3000
}

/// A text from its first to its last character that is not white space.
pub open spec fn trimmed(text: Seq<char>) -> Seq<char>
    decreases text.len(),
{
    if text.len() == 0 {
        text
    } else if is_white_space(text[0]) {
        trimmed(text.skip(1))
    } else if is_white_space(text.last()) {
        trimmed(text.drop_last())
    } else {
        text
    }
}

/// [`str::trim`]: the text without white space at either end.
#[verifier::external_body]
fn trim_text<'a>(text: &'a str) -> (r: &'a str)
    ensures
        r@ == trimmed(text@),
{
    text.trim()
}

/// A text with its ASCII letters in lower case.
pub open spec fn lowered(text: Seq<char>) -> Seq<char> {
    text.map_values(
        |c: char|
            if 'A' <= c && c <= 'Z' {
                (c as u32 + 32) as char
            } else {
                c
            },
    )
}

/// [`str::to_ascii_lowercase`]: a copy of the text with the letters A to Z in lower case and
/// every other character as it is.
#[verifier::external_body]
fn lower_text(text: &str) -> (r: String)
    ensures
        r@ == lowered(text@),
{
    text.to_ascii_lowercase()
}

fn same_text(a: &str, b: &str) -> (r: bool)
    ensures
        r == (a@ == b@),
{
    let n: usize = a.unicode_len();
    if n != b.unicode_len() {
        return false;
    }
    let mut i: usize = 0;
    while i < n
        invariant
            i <= n,
            n == a@.len() == b@.len(),
            forall|j: int| 0 <= j < i ==> a@[j] == b@[j],
        decreases n - i,
    {
        if a.get_char(i) != b.get_char(i) {
            return false;
        }
        i += 1;
    }
    assert(a@ =~= b@);
    true
}

impl NetworkBandwidthMode {
    pub fn name(self) -> (r: &'static str)
        ensures
            r@ == mode_name(self),
    {
        match self {
            NetworkBandwidthMode::Separate => "separate",
            NetworkBandwidthMode::Shared => "shared",
        }
    }

    /// The mode with a name; neither case nor space around it matters.
    pub fn parse(value: &str) -> (r: Result<Self, StreamError>)
        ensures
            r == mode_named(lowered(trimmed(value@))),
    {
        let name = lower_text(trim_text(value));
        Self::from_lower_name(name.as_str())
    }

    /// The mode with a name, spelt in lower case.
    pub fn from_lower_name(name: &str) -> (r: Result<Self, StreamError>)
        ensures
            r == mode_named(name@),
    {
        if same_text(name, "separate") {
            Ok(NetworkBandwidthMode::Separate)
        } else if same_text(name, "shared") {
            Ok(NetworkBandwidthMode::Shared)
        } else {
            Err(StreamError::Unexpected(Unexpected::UnsupportedBandwidthMode))
        }
    }
}

/// The name of a mode gives the mode back.
pub proof fn law_mode_names_round_trip(mode: NetworkBandwidthMode)
    ensures
        mode_named(lowered(trimmed(mode_name(mode)))) == Ok::<NetworkBandwidthMode, StreamError>(mode),
{
    reveal_strlit("separate");
    reveal_strlit("shared");
    assert("separate"@.len() == 8);
    assert("shared"@.len() == 6);
    assert(lowered("separate"@) =~= "separate"@);
    assert(lowered("shared"@) =~= "shared"@);
}

/// The buckets of both directions.
#[derive(Debug, Clone, Copy, PartialEq, Eq, Structural)]
pub struct LimiterPlan {
    pub token_size: u64,
    pub inbound_max_tokens: u64,
    pub outbound_max_tokens: u64,
    /// Both directions draw from one bucket.
    pub shared: bool,
}

/// The largest bandwidth whose bursts can be counted.
pub open spec fn bandwidth_fits(mode: NetworkBandwidthMode, bandwidth: u64) -> bool {
    match mode {
        NetworkBandwidthMode::Separate => bandwidth * OUTBOUND_MAX_TOKENS_MULTIPLIER <= i64::MAX,
        NetworkBandwidthMode::Shared => bandwidth * SHARED_MAX_TOKENS_MULTIPLIER <= i64::MAX,
    }
}

/// Lays the buckets out. `token_size` is what the bandwidth gives in one refill interval.
pub fn plan_network_limiters(
    mode: NetworkBandwidthMode,
    bandwidth: u64,
    refill_interval_ms: u64,
    token_size: u64,
) -> (r: Result<LimiterPlan, StreamError>)
    requires
        bandwidth_fits(mode, bandwidth),
    ensures
        r == (if token_size == 0 {
            Err::<LimiterPlan, StreamError>(
                StreamError::Unexpected(Unexpected::ZeroTokenSize { bandwidth, refill_interval_ms }),
            )
        } else {
            Ok(
                match mode {
                    NetworkBandwidthMode::Shared => LimiterPlan {
                        token_size,
                        inbound_max_tokens: (bandwidth * SHARED_MAX_TOKENS_MULTIPLIER) as u64,
                        outbound_max_tokens: (bandwidth * SHARED_MAX_TOKENS_MULTIPLIER) as u64,
                        shared: true,
                    },
                    NetworkBandwidthMode::Separate => LimiterPlan {
                        token_size,
                        inbound_max_tokens: bandwidth,
                        outbound_max_tokens: (bandwidth * OUTBOUND_MAX_TOKENS_MULTIPLIER) as u64,
                        shared: false,
                    },
                },
            )
        }),
{
    if token_size == 0 {
        return Err(
            StreamError::Unexpected(Unexpected::ZeroTokenSize { bandwidth, refill_interval_ms }),
        );
    }
    match mode {
        NetworkBandwidthMode::Shared => {
            let max_tokens: u64 = bandwidth * SHARED_MAX_TOKENS_MULTIPLIER;
            Ok(
                LimiterPlan {
                    token_size,
                    inbound_max_tokens: max_tokens,
                    outbound_max_tokens: max_tokens,
                    shared: true,
                },
            )
        },
        NetworkBandwidthMode::Separate => Ok(
            LimiterPlan {
                token_size,
                inbound_max_tokens: bandwidth,
                outbound_max_tokens: bandwidth * OUTBOUND_MAX_TOKENS_MULTIPLIER,
                shared: false,
            },
        ),
    }
}

/// What a range read is debited before it is issued; `None` for an empty range. Where the
/// end is not known, neither is the size: 1 is debited first.
pub fn read_debit(start: u64, end: Option<u64>) -> (r: Option<u64>)
    requires
        end matches Some(e) ==> start <= e,
    ensures
        r == (match end {
            Some(e) => if e == start {
                None
            } else {
                Some((e - start) as u64)
            },
            None => Some(1u64),
        }),
{
    match end {
        Some(e) => {
            if e == start {
                None
            } else {
                Some(e - start)
            }
        },
        None => Some(1),
    }
}

/// What a read whose size was not known is debited after it, as bypass traffic.
pub fn late_debit(size: u64) -> (r: Option<u64>)
    ensures
        r == (if size > 1 {
            Some((size - 1) as u64)
        } else {
            None
        }),
        size > 0 ==> 1 + (match r {
            Some(n) => n as int,
            None => 0,
        }) == size,
{
    if size > 1 {
        Some(size - 1)
    } else {
        None
    }
}

} // verus!
