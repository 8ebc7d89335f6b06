//! The prioritized bandwidth limiter. `acquire` says whether the request has to wait.
use s3stream::error::{StreamError, Unexpected};
use s3stream::throttle::{
    late_debit, plan_network_limiters, read_debit, BandwidthLimiter, LimiterPlan,
    NetworkBandwidthMode,
};

const COMPACTION: Option<u32> = Some(1);
const TAIL: Option<u32> = Some(2);
const CATCH_UP: Option<u32> = Some(3);
const ICEBERG_WRITE: Option<u32> = Some(4);
const BYPASS: Option<u32> = None;

#[test]
fn priority_ordering_under_contention() {
    // 10 tokens per tick, cap 10.
    let mut limiter = BandwidthLimiter::new(10);
    // Drain the initial balance so everything below must queue.
    assert!(!limiter.acquire(BYPASS, 10, 0));
    assert_eq!(limiter.available_tokens(), 0);

    let labels = ["iceberg", "catchup", "tail-1", "tail-2", "compaction"];
    // Enqueue lowest-priority first to prove ordering is by tier, not arrival.
    for (waiter, priority) in [ICEBERG_WRITE, CATCH_UP, TAIL, TAIL, COMPACTION]
        .into_iter()
        .enumerate()
    {
        assert!(limiter.acquire(priority, 5, waiter as u64));
    }
    assert_eq!(limiter.queue_size(), 5);

    // BYPASS still never waits, even with zero tokens and a full queue.
    assert!(!limiter.acquire(BYPASS, 3, 9));
    assert!(limiter.available_tokens() < 0);

    // Each tick refills 10 tokens. 5 x 5-byte waiters finish within a few ticks.
    let mut order = Vec::new();
    for _ in 0..10 {
        for waiter in limiter.refill_and_drain() {
            order.push(labels[waiter as usize]);
        }
    }
    assert_eq!(
        order,
        vec!["compaction", "tail-1", "tail-2", "catchup", "iceberg"]
    );
}

#[test]
fn bypass_debt_floor_and_refill_cap() {
    let mut limiter = BandwidthLimiter::with_max_tokens(10, 20);
    // Initial balance is the token size (10), not the cap (20).
    assert_eq!(limiter.available_tokens(), 10);
    // Massive bypass debits floor at minus the cap.
    assert!(!limiter.acquire(BYPASS, 1_000_000, 0));
    assert_eq!(limiter.available_tokens(), -20);
    // Each tick adds the token size, capped.
    for _ in 0..4 {
        assert!(limiter.refill_and_drain().is_empty());
    }
    assert_eq!(limiter.available_tokens(), 20);
    limiter.refill_and_drain();
    limiter.refill_and_drain();
    assert_eq!(limiter.available_tokens(), 20);
}

#[test]
fn large_request_drains_in_chunks() {
    // 2 MiB per tick.
    let two_mib = 2 * 1024 * 1024;
    let mut limiter = BandwidthLimiter::new(two_mib);
    assert!(!limiter.acquire(BYPASS, two_mib, 0));
    assert!(limiter.acquire(CATCH_UP, 3 * 1024 * 1024, 1));
    assert_eq!(limiter.queue_size(), 1);
    assert!(
        limiter.refill_and_drain().is_empty(),
        "3 MiB not fully granted after one tick"
    );
    assert_eq!(limiter.refill_and_drain(), vec![1]);
    assert_eq!(limiter.queue_size(), 0);
}

/// Writes and part uploads debit the outbound limiter by payload size.
/// Sized range reads debit the inbound limiter by `end - start`.
#[test]
fn throttled_storage_debits_limiters() {
    let mut inbound = BandwidthLimiter::new(1000);
    let mut outbound = BandwidthLimiter::new(1000);
    assert!(!outbound.acquire(TAIL, 100, 0));
    assert_eq!(outbound.available_tokens(), 900);
    assert!(!outbound.acquire(TAIL, 50, 1));
    assert!(!outbound.acquire(TAIL, 30, 2));
    assert_eq!(outbound.available_tokens(), 820);

    let debit = read_debit(10, Some(60)).unwrap();
    assert_eq!(debit, 50);
    assert!(!inbound.acquire(CATCH_UP, debit, 3));
    assert_eq!(inbound.available_tokens(), 950);

    assert_eq!(read_debit(10, Some(10)), None);
    assert_eq!(inbound.available_tokens(), 950);
}

#[test]
fn throttled_storage_read_to_end_settles_true_size() {
    let mut inbound = BandwidthLimiter::new(1000);
    let up_front = read_debit(0, None).unwrap();
    assert!(!inbound.acquire(TAIL, up_front, 0));
    let late = late_debit(200).unwrap();
    assert!(!inbound.acquire(BYPASS, late, 0));
    // 1 up front + 199 bypass settle = 200 total.
    assert_eq!((up_front, late), (1, 199));
    assert_eq!(inbound.available_tokens(), 800);
    assert_eq!(late_debit(1), None);
}

#[test]
fn no_queue_jumping_when_waiters_exist() {
    let mut limiter = BandwidthLimiter::new(10);
    assert!(!limiter.acquire(BYPASS, 10, 0)); // drain to 0
    assert!(limiter.acquire(TAIL, 4, 1));
    assert_eq!(limiter.queue_size(), 1);
    // One tick: balance positive again (10 - 4 granted = 6 left).
    assert_eq!(limiter.refill_and_drain(), vec![1]);
    assert!(limiter.available_tokens() > 0);

    // A new waiter with tokens available and empty queue takes the sync path.
    assert!(!limiter.acquire(TAIL, 1, 2));
    assert_eq!(limiter.queue_size(), 0);
}

#[test]
fn shutdown_wakes_every_waiter() {
    let mut limiter = BandwidthLimiter::new(10);
    assert!(!limiter.acquire(BYPASS, 10, 0));
    assert!(limiter.acquire(CATCH_UP, 4, 1));
    assert!(limiter.acquire(TAIL, 4, 2));
    let mut woken = limiter.shutdown();
    woken.sort();
    assert_eq!(woken, vec![1, 2]);
    assert_eq!(limiter.queue_size(), 0);
}

/// Names are read without regard to case or surrounding space.
#[test]
fn bandwidth_mode_names() {
    assert_eq!(
        NetworkBandwidthMode::parse("  Separate "),
        Ok(NetworkBandwidthMode::Separate)
    );
    assert_eq!(
        NetworkBandwidthMode::parse("SHARED\n"),
        Ok(NetworkBandwidthMode::Shared)
    );
    assert_eq!(
        NetworkBandwidthMode::parse("both"),
        Err(StreamError::Unexpected(
            Unexpected::UnsupportedBandwidthMode
        ))
    );
    for mode in [NetworkBandwidthMode::Separate, NetworkBandwidthMode::Shared] {
        assert_eq!(NetworkBandwidthMode::parse(mode.name()), Ok(mode));
    }
}

#[test]
fn limiter_plans() {
    assert_eq!(
        plan_network_limiters(NetworkBandwidthMode::Separate, 1000, 10, 10),
        Ok(LimiterPlan {
            token_size: 10,
            inbound_max_tokens: 1000,
            outbound_max_tokens: 5000,
            shared: false,
        })
    );
    let shared = plan_network_limiters(NetworkBandwidthMode::Shared, 1000, 10, 10).unwrap();
    assert!(shared.shared);
    assert_eq!(shared.inbound_max_tokens, 2000);
    assert_eq!(
        plan_network_limiters(NetworkBandwidthMode::Shared, 1, 10, 0),
        Err(StreamError::Unexpected(Unexpected::ZeroTokenSize {
            bandwidth: 1,
            refill_interval_ms: 10
        }))
    );
}
