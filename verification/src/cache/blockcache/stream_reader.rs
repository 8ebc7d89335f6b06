//! Per-(stream, offset) reader: its window, retries after compaction, and the readahead
//! state machine.
use vstd::prelude::*;

use crate::cache::blockcache::window::{
    is_window, read_count, retired, slot_at, AttachStep, BlockWindow, LoadPlan, LoadStep,
    Retired, SlotModel, WindowModel,
};
use crate::error::{ObjectError, StreamError, Unexpected};
use crate::object::{DataBlockIndex, S3ObjectMetadata};

verus! {

/// Unit in which readahead grows.
pub const READAHEAD_SIZE_UNIT: usize = 512 * 1024;

/// How long readahead rests after an unread block was evicted.
pub const READAHEAD_RESET_COLD_DOWN_MS: u64 = 60_000;

/// Memory that readahead leaves to readers.
pub const READAHEAD_AVAILABLE_BYTES_THRESHOLD: i64 = 32 * 1024 * 1024;

/// Largest readahead, unless the host sets another.
pub const DEFAULT_MAX_READAHEAD_SIZE: usize = 32 * 1024 * 1024;

/// How often a read is tried again after a recoverable error.
pub const READ_RETRIES: u32 = 2;

/// The largest readahead: what the host configured, or the default.
pub fn max_readahead_size(configured: Option<usize>) -> (r: usize)
    ensures
        r == (match configured {
            Some(size) => size,
            None => DEFAULT_MAX_READAHEAD_SIZE,
        }),
{
    match configured {
        Some(size) => size,
        None => DEFAULT_MAX_READAHEAD_SIZE,
    }
}

/// Errors after which the window is reset and the read tried again: compaction may have
/// replaced the objects.
pub open spec fn recoverable(error: StreamError) -> bool {
    match error {
        StreamError::ObjectNotExist { object_id } => true,
        StreamError::BlockNotContinuous => true,
        StreamError::Object(ObjectError::NotFound) => true,
        _ => false,
    }
}

pub fn is_recoverable(error: &StreamError) -> (r: bool)
    ensures
        r == recoverable(*error),
{
    match error {
        StreamError::ObjectNotExist { object_id: _ } => true,
        StreamError::BlockNotContinuous => true,
        StreamError::Object(e) => e.is_not_found(),
        _ => false,
    }
}

/// How far readahead is.
#[derive(Debug, Clone, Copy, PartialEq, Eq, Structural)]
pub struct ReadaheadState {
    pub next_offset: u64,
    pub next_size: usize,
    pub mark_offset: u64,
    pub reset_ts_ms: u64,
    pub require_reset: bool,
    pub inflight: bool,
    pub cache_miss_count: usize,
}

/// Readahead as it begins.
pub open spec fn fresh_readahead() -> ReadaheadState {
    ReadaheadState {
        next_offset: 0,
        next_size: READAHEAD_SIZE_UNIT,
        mark_offset: 0,
        reset_ts_ms: 0,
        require_reset: false,
        inflight: false,
        cache_miss_count: 0,
    }
}

/// The misses so far, and one more, can be turned into a size.
pub open spec fn can_grow(ra: ReadaheadState) -> bool {
    ra.next_size + (ra.cache_miss_count + 1) * READAHEAD_SIZE_UNIT <= usize::MAX
}

/// Readahead rests after an unread block was evicted.
pub open spec fn is_resting(ra: ReadaheadState, now_ms: u64) -> bool {
    now_ms - ra.reset_ts_ms < READAHEAD_RESET_COLD_DOWN_MS
}

/// The state once misses were turned into size and a reset was carried out.
pub open spec fn grown(ra: ReadaheadState, max_size: usize) -> ReadaheadState {
    let size = ra.next_size + ra.cache_miss_count * READAHEAD_SIZE_UNIT;
    let next = ReadaheadState {
        next_size: if size <= max_size {
            size as usize
        } else {
            max_size
        },
        cache_miss_count: 0,
        ..ra
    };
    if ra.require_reset {
        ReadaheadState {
            next_offset: 0,
            next_size: READAHEAD_SIZE_UNIT,
            mark_offset: 0,
            require_reset: false,
            ..next
        }
    } else {
        next
    }
}

/// A read ended: the next state, and the offset and size of the readahead that begins, if
/// one does.
pub open spec fn readahead_step(
    ra: ReadaheadState,
    cache_miss: bool,
    now_ms: u64,
    next_read_offset: u64,
    available: i64,
    max_size: usize,
) -> (ReadaheadState, Option<(u64, usize)>) {
    if is_resting(ra, now_ms) {
        (ra, None)
    } else {
        let counted = ReadaheadState {
            cache_miss_count: (ra.cache_miss_count + (if cache_miss {
                1int
            } else {
                0
            })) as usize,
            ..ra
        };
        if ra.inflight {
            (counted, None)
        } else {
            let next = grown(counted, max_size);
            let moved = if next_read_offset >= next.next_offset {
                ReadaheadState { next_offset: next_read_offset, ..next }
            } else {
                next
            };
            if next_read_offset < next.next_offset && next_read_offset <= next.mark_offset {
                (moved, None)
            } else if available < moved.next_size + READAHEAD_AVAILABLE_BYTES_THRESHOLD {
                (moved, None)
            } else {
                (
                    ReadaheadState { mark_offset: moved.next_offset, inflight: true, ..moved },
                    Some((moved.next_offset, moved.next_size)),
                )
            }
        }
    }
}

impl ReadaheadState {
    pub fn new() -> (r: Self)
        ensures
            r == fresh_readahead(),
    {
        ReadaheadState {
            next_offset: 0,
            next_size: READAHEAD_SIZE_UNIT,
            mark_offset: 0,
            reset_ts_ms: 0,
            require_reset: false,
            inflight: false,
            cache_miss_count: 0,
        }
    }

    pub fn reset(&mut self, now_ms: u64)
        ensures
            *final(self) == (ReadaheadState {
                require_reset: true,
                reset_ts_ms: now_ms,
                ..*old(self)
            }),
    {
        self.require_reset = true;
        self.reset_ts_ms = now_ms;
    }

    /// A read ended. Returns the readahead that begins.
    pub fn step(
        &mut self,
        cache_miss: bool,
        now_ms: u64,
        next_read_offset: u64,
        available: i64,
        max_size: usize,
    ) -> (r: Option<(u64, usize)>)
        requires
            can_grow(*old(self)),
            max_size + READAHEAD_AVAILABLE_BYTES_THRESHOLD <= i64::MAX,
        ensures
            (*final(self), r) == readahead_step(
                *old(self),
                cache_miss,
                now_ms,
                next_read_offset,
                available,
                max_size,
            ),
    {
        let rested: u64 = if now_ms > self.reset_ts_ms {
            now_ms - self.reset_ts_ms
        } else {
            0
        };
        if rested < READAHEAD_RESET_COLD_DOWN_MS {
            return None;
        }
        if cache_miss {
            self.cache_miss_count = self.cache_miss_count + 1;
        }
        if self.inflight {
            return None;
        }
        let size: usize = self.next_size + self.cache_miss_count * READAHEAD_SIZE_UNIT;
        self.next_size = if size <= max_size {
            size
        } else {
            max_size
        };
        self.cache_miss_count = 0;
        if self.require_reset {
            self.next_offset = 0;
            self.next_size = READAHEAD_SIZE_UNIT;
            self.mark_offset = 0;
            self.require_reset = false;
        }
        if next_read_offset >= self.next_offset {
            self.next_offset = next_read_offset;
        } else if next_read_offset <= self.mark_offset {
            return None;
        }
        if available < self.next_size as i64 + READAHEAD_AVAILABLE_BYTES_THRESHOLD {
            return None;
        }
        self.mark_offset = self.next_offset;
        self.inflight = true;
        Some((self.next_offset, self.next_size))
    }
}

/// Only one readahead runs at a time, and it never exceeds the largest size or, right after
/// a reset, one unit.
pub proof fn law_one_readahead_at_a_time(
    ra: ReadaheadState,
    cache_miss: bool,
    now_ms: u64,
    next_read_offset: u64,
    available: i64,
    max_size: usize,
)
    requires
        can_grow(ra),
    ensures
        ra.inflight ==> readahead_step(
            ra,
            cache_miss,
            now_ms,
            next_read_offset,
            available,
            max_size,
        ).1 is None,
        readahead_step(ra, cache_miss, now_ms, next_read_offset, available, max_size).1 matches Some(
            p,
        ) ==> {
            &&& p.0 >= next_read_offset
            &&& p.1 <= max_size || p.1 == READAHEAD_SIZE_UNIT
            &&& available >= p.1 + READAHEAD_AVAILABLE_BYTES_THRESHOLD
        },
{
}

/// What a reader is about.
#[verifier::ext_equal]
pub struct ReaderModel {
    pub stream_id: u64,
    pub window: WindowModel,
    pub readahead: ReadaheadState,
    pub next_read_offset: u64,
    pub last_access_ms: u64,
    pub reading: bool,
    pub closed: bool,
}

/// A reader of one stream, at one offset.
#[derive(Debug)]
pub struct StreamReader {
    stream_id: u64,
    window: BlockWindow,
    readahead: ReadaheadState,
    next_read_offset: u64,
    last_access_ms: u64,
    reading: bool,
    closed: bool,
}

impl View for StreamReader {
    type V = ReaderModel;

    closed spec fn view(&self) -> ReaderModel {
        ReaderModel {
            stream_id: self.stream_id,
            window: self.window@,
            readahead: self.readahead,
            next_read_offset: self.next_read_offset,
            last_access_ms: self.last_access_ms,
            reading: self.reading,
            closed: self.closed,
        }
    }
}

/// What to do after a failed try.
#[derive(Debug)]
pub enum RetryStep {
    /// The window was reset, and the read is to be tried again. The slots that it held are
    /// to be given up.
    Retry { left_retries: u32, retired: Vec<Retired> },
    Fail,
}

impl StreamReader {
    pub open spec fn wf(&self) -> bool {
        is_window(self@.window)
    }

    pub fn new(stream_id: u64, next_read_offset: u64, now_ms: u64) -> (r: Self)
        ensures
            r.wf(),
            r@ == (ReaderModel {
                stream_id,
                window: WindowModel { slots: Seq::empty(), last: None, loaded_end: 0, epoch: 0 },
                readahead: fresh_readahead(),
                next_read_offset,
                last_access_ms: now_ms,
                reading: false,
                closed: false,
            }),
    {
        StreamReader {
            stream_id,
            window: BlockWindow::new(),
            readahead: ReadaheadState::new(),
            next_read_offset,
            last_access_ms: now_ms,
            reading: false,
            closed: false,
        }
    }

    pub fn next_read_offset(&self) -> (r: u64)
        ensures
            r == self@.next_read_offset,
    {
        self.next_read_offset
    }

    pub fn last_access_ms(&self) -> (r: u64)
        ensures
            r == self@.last_access_ms,
    {
        self.last_access_ms
    }

    pub fn window(&self) -> (r: &BlockWindow)
        ensures
            r@ == self@.window,
    {
        &self.window
    }

    /// A read begins. Reads are sequential, one at a time.
    pub fn begin_read(&mut self, start_offset: u64, now_ms: u64) -> (r: Result<(), StreamError>)
        requires
            old(self).wf(),
        ensures
            final(self).wf(),
            if start_offset != old(self)@.next_read_offset {
                &&& r == Err::<(), StreamError>(
                    StreamError::Unexpected(
                        Unexpected::ReadOffsetMismatch {
                            expected: old(self)@.next_read_offset,
                            actual: start_offset,
                        },
                    ),
                )
                &&& final(self)@ == old(self)@
            } else if old(self)@.reading {
                &&& r == Err::<(), StreamError>(StreamError::Unexpected(Unexpected::ReaderBusy))
                &&& final(self)@ == old(self)@
            } else {
                &&& r == Ok::<(), StreamError>(())
                &&& final(self)@ == (ReaderModel {
                    reading: true,
                    last_access_ms: now_ms,
                    ..old(self)@
                })
            },
    {
        if start_offset != self.next_read_offset {
            return Err(
                StreamError::Unexpected(
                    Unexpected::ReadOffsetMismatch {
                        expected: self.next_read_offset,
                        actual: start_offset,
                    },
                ),
            );
        }
        if self.reading {
            return Err(StreamError::Unexpected(Unexpected::ReaderBusy));
        }
        self.reading = true;
        self.last_access_ms = now_ms;
        Ok(())
    }

    /// The read is over.
    pub fn end_read(&mut self)
        requires
            old(self).wf(),
        ensures
            final(self).wf(),
            final(self)@ == (ReaderModel { reading: false, ..old(self)@ }),
    {
        self.reading = false;
    }

    /// A try of the read failed.
    pub fn on_failed_try(&mut self, error: &StreamError, left_retries: u32) -> (r: RetryStep)
        requires
            old(self).wf(),
            old(self)@.window.epoch < u64::MAX,
        ensures
            final(self).wf(),
            if left_retries > 0 && recoverable(*error) {
                &&& r matches RetryStep::Retry { left_retries: left, retired: slots } && left
                    == left_retries - 1 && slots@ == old(self)@.window.slots.map_values(
                    |s: SlotModel| retired(s),
                )
                &&& final(self)@ == (ReaderModel {
                    window: WindowModel {
                        slots: Seq::empty(),
                        last: None,
                        loaded_end: 0,
                        epoch: (old(self)@.window.epoch + 1) as u64,
                    },
                    ..old(self)@
                })
            } else {
                r is Fail && final(self)@ == old(self)@
            },
    {
        if left_retries > 0 && is_recoverable(error) {
            let slots = self.window.reset();
            RetryStep::Retry { left_retries: left_retries - 1, retired: slots }
        } else {
            RetryStep::Fail
        }
    }

    /// The read gave records up to `last_offset`. Returns the slots that were read, which
    /// are to be given up.
    pub fn after_read(&mut self, last_offset: Option<u64>) -> (r: Vec<Retired>)
        requires
            old(self).wf(),
        ensures
            final(self).wf(),
            ({
                let next = match last_offset {
                    Some(o) => o,
                    None => old(self)@.next_read_offset,
                };
                let slots = old(self)@.window.slots;
                let n = read_count(slots, next);
                &&& final(self)@ == (ReaderModel {
                    next_read_offset: next,
                    window: WindowModel { slots: slots.skip(n), ..old(self)@.window },
                    ..old(self)@
                })
                &&& r@ == slots.take(n).map_values(|s: SlotModel| retired(s))
            }),
    {
        match last_offset {
            Some(o) => {
                self.next_read_offset = o;
            },
            None => {},
        }
        self.window.take_read(self.next_read_offset)
    }

    /// A read ended. Returns the readahead that begins.
    pub fn try_readahead(
        &mut self,
        cache_miss: bool,
        now_ms: u64,
        available: i64,
        max_size: usize,
    ) -> (r: Option<(u64, usize)>)
        requires
            old(self).wf(),
            can_grow(old(self)@.readahead),
            max_size + READAHEAD_AVAILABLE_BYTES_THRESHOLD <= i64::MAX,
        ensures
            final(self).wf(),
            ({
                let (ra, begun) = readahead_step(
                    old(self)@.readahead,
                    cache_miss,
                    now_ms,
                    old(self)@.next_read_offset,
                    available,
                    max_size,
                );
                r == begun && final(self)@ == (ReaderModel { readahead: ra, ..old(self)@ })
            }),
    {
        self.readahead.step(cache_miss, now_ms, self.next_read_offset, available, max_size)
    }

    /// The readahead is over. `last_end` is the end of the last block that it asked for.
    pub fn readahead_done(&mut self, last_end: Option<u64>)
        requires
            old(self).wf(),
        ensures
            final(self).wf(),
            final(self)@ == (ReaderModel {
                readahead: ReadaheadState {
                    next_offset: match last_end {
                        Some(e) => e,
                        None => old(self)@.readahead.next_offset,
                    },
                    inflight: false,
                    ..old(self)@.readahead
                },
                ..old(self)@
            }),
    {
        match last_end {
            Some(e) => {
                self.readahead.next_offset = e;
            },
            None => {},
        }
        self.readahead.inflight = false;
    }

    /// What the next load of the index asks for; `None` where enough is loaded.
    pub fn plan_load(&self, end_offset: Option<u64>) -> (r: Option<LoadPlan>)
        ensures
            if end_offset matches Some(e) && e <= self@.window.loaded_end {
                r is None
            } else {
                r matches Some(p) && p.epoch == self@.window.epoch && p.start_offset == (
                match self@.window.last {
                    Some(l) => if l.1 >= self@.next_read_offset {
                        l.1
                    } else {
                        self@.next_read_offset
                    },
                    None => self@.next_read_offset,
                }) && p.end_offset == (match end_offset {
                    Some(e) => e,
                    None => crate::object::NOOP_OFFSET,
                })
            },
    {
        self.window.plan_load(self.next_read_offset, end_offset)
    }

    /// Puts the blocks that an object holds of the stream at the end of the window.
    pub fn put_found(
        &mut self,
        plan: LoadPlan,
        metadata: &S3ObjectMetadata,
        blocks: &Vec<DataBlockIndex>,
        next_find_offset: u64,
    ) -> (r: Result<LoadStep, StreamError>)
        requires
            old(self).wf(),
            forall|i: int| 0 <= i < blocks@.len() ==> (#[trigger] blocks@[i]).valid(),
        ensures
            final(self).wf(),
            ({
                let w = old(self)@.window;
                let n = crate::cache::blockcache::window::put_count(
                    w,
                    old(self)@.next_read_offset,
                    metadata@,
                    blocks@,
                );
                if w.epoch != plan.epoch {
                    r == Ok::<LoadStep, StreamError>(LoadStep::Discarded) && final(self)@
                        == old(self)@
                } else {
                    &&& final(self)@ == (ReaderModel {
                        window: crate::cache::blockcache::window::put_all(
                            w,
                            metadata@,
                            blocks@.take(n),
                        ),
                        ..old(self)@
                    })
                    &&& r == (if n < blocks@.len() {
                        Err::<LoadStep, StreamError>(StreamError::BlockNotContinuous)
                    } else {
                        Ok(
                            LoadStep::Loaded {
                                next_find_offset: if blocks@.len() > 0 {
                                    blocks@.last().end() as u64
                                } else {
                                    next_find_offset
                                },
                            },
                        )
                    })
                }
            }),
    {
        self.window.put_found(plan, self.next_read_offset, metadata, blocks, next_find_offset)
    }

    /// Attaches a loaded block to its slot, if the window still holds it.
    pub fn attach_data(&mut self, index: DataBlockIndex, handle: u64) -> (r: AttachStep)
        requires
            old(self).wf(),
        ensures
            final(self).wf(),
            ({
                let w = old(self)@.window;
                match slot_at(w.slots, index.start_offset) {
                    Some(i) => if w.slots[i].index == index && w.slots[i].data != Some(handle) {
                        &&& r == (AttachStep::Attached { old: retired(w.slots[i]) })
                        &&& final(self)@ == (ReaderModel {
                            window: WindowModel {
                                slots: w.slots.update(
                                    i,
                                    SlotModel {
                                        data: Some(handle),
                                        listener: None,
                                        ..w.slots[i]
                                    },
                                ),
                                ..w
                            },
                            ..old(self)@
                        })
                    } else {
                        r == AttachStep::Nothing && final(self)@ == old(self)@
                    },
                    None => r == AttachStep::Nothing && final(self)@ == old(self)@,
                }
            }),
    {
        self.window.attach_data(index, handle)
    }

    /// A listener was registered for the block in a slot.
    pub fn set_listener(&mut self, start_offset: u64, handle: u64, listener: u64)
        requires
            old(self).wf(),
        ensures
            final(self).wf(),
            ({
                let w = old(self)@.window;
                match slot_at(w.slots, start_offset) {
                    Some(i) => if w.slots[i].data == Some(handle) {
                        final(self)@ == (ReaderModel {
                            window: WindowModel {
                                slots: w.slots.update(
                                    i,
                                    SlotModel { listener: Some(listener), ..w.slots[i] },
                                ),
                                ..w
                            },
                            ..old(self)@
                        })
                    } else {
                        final(self)@ == old(self)@
                    },
                    None => final(self)@ == old(self)@,
                }
            }),
    {
        self.window.set_listener(start_offset, handle, listener);
    }

    /// A cached block was freed. Where its slot still holds it, it was not read yet: the
    /// cache is too small, and readahead starts over later. True, where that is so.
    pub fn on_block_freed(&mut self, start_offset: u64, handle: u64, now_ms: u64) -> (r: bool)
        requires
            old(self).wf(),
        ensures
            final(self).wf(),
            ({
                let w = old(self)@.window;
                &&& r == (!old(self)@.closed && (slot_at(w.slots, start_offset) matches Some(i)
                    && w.slots[i].data == Some(handle)))
                &&& final(self)@ == (if r {
                    ReaderModel {
                        readahead: ReadaheadState {
                            require_reset: true,
                            reset_ts_ms: now_ms,
                            ..old(self)@.readahead
                        },
                        ..old(self)@
                    }
                } else {
                    old(self)@
                })
            }),
    {
        if self.closed {
            return false;
        }
        if self.window.holds_block(start_offset, handle) {
            self.readahead.reset(now_ms);
            true
        } else {
            false
        }
    }

    /// The reader is closed. Returns its slots, which are to be given up.
    pub fn close(&mut self) -> (r: Vec<Retired>)
        requires
            old(self).wf(),
        ensures
            final(self).wf(),
            final(self)@ == (ReaderModel {
                closed: true,
                window: WindowModel { slots: Seq::empty(), ..old(self)@.window },
                ..old(self)@
            }),
            r@ == old(self)@.window.slots.map_values(|s: SlotModel| retired(s)),
    {
        self.closed = true;
        self.window.close()
    }
}

} // verus!
