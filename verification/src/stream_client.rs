//! The decisions of the stream client: which streams are open, how one is opened, and
//! which of them are compacted when.
use std::collections::BTreeMap;
use vstd::prelude::*;

use crate::collections::{sorted_keys, tree_keys};
use crate::compact::stream_compactor::{CompactionLevel, StreamView};
use crate::error::{StreamError, Unexpected};
use crate::manager::StreamMetadata;
use crate::stream::{S3Stream, SNAPSHOT_FAKE_OFFSET};

verus! {

/// A stream is compacted no sooner than this after it was opened: its objects may still be
/// uploaded.
pub const COMPACTION_COOLDOWN_AFTER_OPEN_MS: u64 = 60_000;

pub const MINOR_V1_COMPACTION_INTERVAL_MS: u64 = 600_000;

pub const MAJOR_V1_COMPACTION_INTERVAL_MS: u64 = 3_600_000;

/// Stream-object compaction knobs.
#[derive(Debug, Clone, Copy, PartialEq, Eq, Structural)]
pub struct StreamClientConfig {
    /// Max size of a merged stream object; the compactor clamps it to the largest object.
    pub max_stream_object_size: u64,
    pub compaction_enabled: bool,
}

impl Default for StreamClientConfig {
    fn default() -> (r: Self)
        ensures
            r.max_stream_object_size == 1024 * 1024 * 1024,
            r.compaction_enabled,
    {
        StreamClientConfig { max_stream_object_size: 1024 * 1024 * 1024, compaction_enabled: true }
    }
}

/// The level of a compaction sweep: every sixth one is a major one.
pub open spec fn level_of(tick: u64) -> CompactionLevel {
    if tick % 6 == 0 {
        CompactionLevel::MajorV1
    } else {
        CompactionLevel::MinorV1
    }
}

/// The level of a compaction sweep, counted from 1.
pub fn sweep_level(tick: u64) -> (r: CompactionLevel)
    ensures
        r == level_of(tick),
{
    let major_every: u64 = MAJOR_V1_COMPACTION_INTERVAL_MS / MINOR_V1_COMPACTION_INTERVAL_MS;
    assert(major_every == 6);
    if tick % major_every == 0 {
        CompactionLevel::MajorV1
    } else {
        CompactionLevel::MinorV1
    }
}

/// A stream that is open, and since when.
#[derive(Debug, Clone, PartialEq, Eq)]
pub struct OpenedStream {
    pub stream: S3Stream,
    pub opened_at_ms: u64,
}

/// The stream is compacted in a sweep.
pub open spec fn is_due(s: OpenedStream, now_ms: u64) -> bool {
    now_ms - s.opened_at_ms >= COMPACTION_COOLDOWN_AFTER_OPEN_MS && !s.stream.closed
}

/// What the compactor sees of a stream.
pub open spec fn view_of(s: S3Stream) -> StreamView {
    StreamView {
        stream_id: s.stream_id,
        stream_epoch: s.epoch,
        start_offset: s.start_offset,
        confirm_offset: s.confirm_offset,
    }
}

pub fn stream_view(s: &S3Stream) -> (r: StreamView)
    ensures
        r == view_of(*s),
{
    StreamView {
        stream_id: s.stream_id,
        stream_epoch: s.epoch,
        start_offset: s.start_offset,
        confirm_offset: s.confirm_offset,
    }
}

/// The streams that a sweep compacts.
pub fn sweep_views(opened: &Vec<OpenedStream>, now_ms: u64) -> (r: Vec<StreamView>)
    ensures
        r@ == opened@.filter(|s: OpenedStream| is_due(s, now_ms)).map_values(
            |s: OpenedStream| view_of(s.stream),
        ),
{
    let ghost all = opened@;
    let ghost p = |s: OpenedStream| is_due(s, now_ms);
    let ghost f = |s: OpenedStream| view_of(s.stream);
    let mut out: Vec<StreamView> = Vec::new();
    let mut i: usize = 0;
    proof {
        assert(all.take(0).filter(p) =~= Seq::empty());
        assert(all.take(0).filter(p).map_values(f) =~= Seq::empty());
    }
    while i < opened.len()
        invariant
            i <= opened@.len(),
            all == opened@,
            p == (|s: OpenedStream| is_due(s, now_ms)),
            f == (|s: OpenedStream| view_of(s.stream)),
            out@ == all.take(i as int).filter(p).map_values(f),
        decreases opened@.len() - i,
    {
        let s = &opened[i];
        let ghost before = all.take(i as int).filter(p);
        proof {
            assert(all.take(i + 1) =~= all.take(i as int).push(*s));
            all.take(i as int).lemma_filter_push(*s, p);
        }
        if now_ms >= s.opened_at_ms && now_ms - s.opened_at_ms >= COMPACTION_COOLDOWN_AFTER_OPEN_MS
            && !s.stream.is_closed() {
            out.push(stream_view(&s.stream));
            assert(out@ =~= before.push(*s).map_values(f));
        }
        i += 1;
    }
    assert(all.take(i as int) =~= all);
    out
}

/// The stream that an open gives: a snapshot-read one knows nothing of its offsets yet, any
/// other one is what the metadata plane says.
pub fn opened_stream(
    stream_id: u64,
    epoch: u64,
    metadata: Option<StreamMetadata>,
) -> (r: S3Stream)
    ensures
        r.stream_id == stream_id,
        r.confirm_offset == r.next_offset,
        !r.closed && !r.fenced && !r.destroyed,
        r.pending_appends == 0 && r.pending_fetches == 0,
        r.close_result is None,
        match metadata {
            None => {
                &&& r.snapshot_read
                &&& r.epoch == epoch
                &&& r.start_offset == SNAPSHOT_FAKE_OFFSET
                &&& r.next_offset == SNAPSHOT_FAKE_OFFSET
            },
            Some(m) => {
                &&& !r.snapshot_read
                &&& r.epoch == m.epoch
                &&& r.start_offset == m.start_offset
                &&& r.next_offset == m.end_offset
            },
        },
{
    match metadata {
        None => S3Stream::new(stream_id, epoch, SNAPSHOT_FAKE_OFFSET, SNAPSHOT_FAKE_OFFSET, true),
        Some(m) => S3Stream::new(stream_id, m.epoch, m.start_offset, m.end_offset, false),
    }
}

/// The streams that a client has open, by id, and when each was opened.
#[derive(Debug)]
pub struct S3StreamClient {
    opened: BTreeMap<u64, u64>,
    shutdown: bool,
}

impl S3StreamClient {
    pub closed spec fn streams(&self) -> Map<u64, u64> {
        self.opened@
    }

    pub closed spec fn is_shutdown(&self) -> bool {
        self.shutdown
    }

    pub fn new() -> (r: Self)
        ensures
            r.streams() == Map::<u64, u64>::empty(),
            !r.is_shutdown(),
    {
        S3StreamClient { opened: BTreeMap::new(), shutdown: false }
    }

    /// Refuses work once the client is shut down.
    pub fn check_state(&self) -> (r: Result<(), StreamError>)
        ensures
            r == (if self.is_shutdown() {
                Err::<(), StreamError>(StreamError::Unexpected(Unexpected::ClientClosed))
            } else {
                Ok(())
            }),
    {
        if self.shutdown {
            return Err(StreamError::Unexpected(Unexpected::ClientClosed));
        }
        Ok(())
    }

    /// A stream was opened. Snapshot-read streams are not kept.
    pub fn on_opened(&mut self, stream: &S3Stream, now_ms: u64)
        ensures
            final(self).is_shutdown() == old(self).is_shutdown(),
            final(self).streams() == (if stream.snapshot_read {
                old(self).streams()
            } else {
                old(self).streams().insert(stream.stream_id, now_ms)
            }),
    {
        broadcast use vstd::std_specs::btree::group_btree_axioms;

        if !stream.snapshot_read {
            self.opened.insert(stream.stream_id, now_ms);
        }
    }

    /// When the stream was opened; `None` where it is not open.
    pub fn get_stream(&self, stream_id: u64) -> (r: Option<u64>)
        ensures
            r == (if self.streams().contains_key(stream_id) {
                Some(self.streams()[stream_id])
            } else {
                None
            }),
    {
        broadcast use vstd::std_specs::btree::group_btree_axioms;

        match self.opened.get(&stream_id) {
            Some(at) => Some(*at),
            None => None,
        }
    }

    /// A stream was closed.
    pub fn on_closed(&mut self, stream_id: u64)
        ensures
            final(self).is_shutdown() == old(self).is_shutdown(),
            final(self).streams() == old(self).streams().remove(stream_id),
    {
        broadcast use vstd::std_specs::btree::group_btree_axioms;

        self.opened.remove(&stream_id);
        assert(self.opened@ =~= old(self).opened@.remove(stream_id));
    }

    /// The client is shut down by force. Returns the streams to close, which stay open
    /// until each is closed.
    pub fn force_close(&mut self) -> (r: Vec<u64>)
        ensures
            final(self).is_shutdown(),
            final(self).streams() == old(self).streams(),
            r@ == sorted_keys(old(self).streams()),
    {
        self.shutdown = true;
        tree_keys(&self.opened)
    }

    /// The client is shut down. Returns the streams to close.
    pub fn shutdown(&mut self) -> (r: Vec<u64>)
        ensures
            final(self).is_shutdown(),
            final(self).streams() == Map::<u64, u64>::empty(),
            r@ == sorted_keys(old(self).streams()),
    {
        self.shutdown = true;
        let keys = tree_keys(&self.opened);
        self.opened = BTreeMap::new();
        keys
    }
}

/// One sweep in six is a major one.
pub proof fn law_one_sweep_in_six_is_major(tick: u64, i: int, j: int)
    requires
        tick <= u64::MAX - 6,
        0 <= i < j < 6,
    ensures
        level_of((tick + i) as u64) == CompactionLevel::MajorV1 ==> level_of((tick + j) as u64)
            == CompactionLevel::MinorV1,
        level_of((tick + 6) as u64) == level_of(tick),
        level_of(0) == CompactionLevel::MajorV1,
{
}

/// A stream is compacted once it has been open for the cooldown, and as long as it is open; the
/// compactor sees its id, epoch and offsets.
pub proof fn law_sweep_waits_for_cooldown(s: OpenedStream, now_ms: u64)
    ensures
        s.stream.closed ==> !is_due(s, now_ms),
        now_ms < s.opened_at_ms + COMPACTION_COOLDOWN_AFTER_OPEN_MS ==> !is_due(s, now_ms),
        !s.stream.closed && now_ms >= s.opened_at_ms + COMPACTION_COOLDOWN_AFTER_OPEN_MS ==> is_due(
            s,
            now_ms,
        ),
        view_of(s.stream).stream_id == s.stream.stream_id,
        view_of(s.stream).stream_epoch == s.stream.epoch,
        view_of(s.stream).start_offset == s.stream.start_offset,
        view_of(s.stream).confirm_offset == s.stream.confirm_offset,
{
}

} // verus!
