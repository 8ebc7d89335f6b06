//! Size limiter gating block-cache memory.
//!
//! An acquire succeeds whenever `permits >= 0` (permits may go negative afterwards, so one
//! oversized block can always load), otherwise the caller queues. A release wakes one
//! queued waiter once permits are positive again; it then tries again.
use std::collections::VecDeque;
use vstd::prelude::*;

use crate::numbers::{as_signed, signed};

verus! {

/// Permits left, and who waits for some, oldest first.
#[verifier::ext_equal]
pub struct LimiterModel {
    pub permits: int,
    pub waiters: Seq<u64>,
}

/// A block-cache budget in bytes.
#[derive(Debug)]
pub struct AsyncSizeLimiter {
    permits: i64,
    waiters: VecDeque<u64>,
}

impl View for AsyncSizeLimiter {
    type V = LimiterModel;

    closed spec fn view(&self) -> LimiterModel {
        LimiterModel { permits: self.permits as int, waiters: self.waiters@ }
    }
}

/// The limiter after a release.
pub open spec fn after_release(m: LimiterModel, amount: int) -> LimiterModel {
    let permits = m.permits + amount;
    if permits > 0 && m.waiters.len() > 0 {
        LimiterModel { permits, waiters: m.waiters.skip(1) }
    } else {
        LimiterModel { permits, ..m }
    }
}

/// The waiter that a release wakes.
pub open spec fn woken_by(m: LimiterModel, amount: int) -> Option<u64> {
    if m.permits + amount > 0 && m.waiters.len() > 0 {
        Some(m.waiters[0])
    } else {
        None
    }
}

/// Memory is short: no permits are left, or someone waits for some.
pub open spec fn is_short(m: LimiterModel) -> bool {
    m.permits <= 0 || m.waiters.len() > 0
}

impl AsyncSizeLimiter {
    pub fn new(permits: u64) -> (r: Self)
        ensures
            r@ == (LimiterModel { permits: signed(permits), waiters: Seq::empty() }),
    {
        AsyncSizeLimiter { permits: as_signed(permits), waiters: VecDeque::new() }
    }

    /// Takes permits, or queues the waiter.
    pub fn try_acquire(&mut self, required: u64, waiter: u64) -> (r: bool)
        requires
            old(self)@.permits >= 0 ==> old(self)@.permits - signed(required) <= i64::MAX,
        ensures
            r == (old(self)@.permits >= 0),
            final(self)@ == (if r {
                LimiterModel { permits: old(self)@.permits - signed(required), ..old(self)@ }
            } else {
                LimiterModel { waiters: old(self)@.waiters.push(waiter), ..old(self)@ }
            }),
    {
        if self.permits >= 0 {
            self.permits = self.permits - as_signed(required);
            true
        } else {
            self.waiters.push_back(waiter);
            false
        }
    }

    /// Gives permits back. Returns the waiter that is to try again.
    pub fn release(&mut self, required: u64) -> (r: Option<u64>)
        requires
            i64::MIN <= old(self)@.permits + signed(required) <= i64::MAX,
        ensures
            final(self)@ == after_release(old(self)@, signed(required)),
            r == woken_by(old(self)@, signed(required)),
    {
        self.permits = self.permits + as_signed(required);
        if self.permits > 0 {
            let ghost before = self.waiters@;
            let r = self.waiters.pop_front();
            proof {
                if before.len() > 0 {
                    assert(self.waiters@ =~= before.skip(1));
                }
            }
            r
        } else {
            None
        }
    }

    pub fn required_release(&self) -> (r: bool)
        ensures
            r == is_short(self@),
    {
        self.permits <= 0 || self.waiters.len() > 0
    }

    pub fn permits(&self) -> (r: i64)
        ensures
            r == self@.permits,
    {
        self.permits
    }
}

/// An amount that was acquired and is released again leaves the permits as they were.
pub proof fn law_release_returns_permits(m: LimiterModel, amount: int)
    ensures
        after_release(LimiterModel { permits: m.permits - amount, ..m }, amount).permits
            == m.permits,
{
}

} // verus!
