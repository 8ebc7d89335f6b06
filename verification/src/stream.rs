//! Per-stream bookkeeping: offsets, state guards, and the record encoding.
//!
//! - `next_offset` is assigned when an append is admitted; `confirm_offset` follows once it
//!   is durable.
//! - Appends and fetches are refused once the stream is closed; a failed append fences it.
//! - A fetch stays within `[start_offset, confirm_offset)`.
use vstd::prelude::*;

use crate::api::{AppendResult, FetchContext, RecordBatch};
use crate::buffer::bytes_seq;
use crate::codec::record::{encode_record, StreamRecordBatch};
use crate::error::{StreamError, Unexpected, WriteOperation};
use crate::manager::StreamMetadata;
use crate::numbers::{as_signed, as_signed32, signed, signed32};

verus! {

/// How long a close waits for fetches that run.
pub const CLOSE_PENDING_TIMEOUT_MS: u64 = 10_000;

/// Fetch bounds compare as signed numbers, so this fake offset sorts below every real one.
pub const SNAPSHOT_FAKE_OFFSET: u64 = u64::MAX;

/// The state of one open stream.
#[derive(Debug, Clone, PartialEq, Eq)]
pub struct S3Stream {
    pub stream_id: u64,
    pub epoch: u64,
    pub start_offset: u64,
    pub next_offset: u64,
    pub confirm_offset: u64,
    pub closed: bool,
    pub fenced: bool,
    pub destroyed: bool,
    /// This node serves reads of a stream that another one owns.
    pub snapshot_read: bool,
    pub pending_appends: u64,
    pub pending_fetches: u64,
    /// What the close that ran came to, with the text of its error; `None` before it ran.
    pub close_result: Option<Result<(), String>>,
}

/// An append that was given its offsets.
#[derive(Debug)]
pub struct AdmittedAppend {
    pub base_offset: u64,
    pub count: u32,
    /// What is to be written.
    pub record: StreamRecordBatch,
}

/// What a fetch leads to.
#[derive(Debug, Clone, Copy, PartialEq, Eq, Structural)]
pub enum FetchStep {
    /// An empty range, which reads nothing.
    Empty,
    /// The storage is to be read.
    Read,
}

/// What a close leads to.
#[derive(Debug, Clone, Copy, PartialEq, Eq, Structural)]
pub enum CloseStep {
    /// A snapshot-read stream only gives up its metadata listener.
    Unregister,
    /// Upload what is cached of the stream, then close it in the metadata plane; first wait
    /// for what runs, where `wait` says so.
    UploadAndClose { wait: bool },
}

/// The range is not within what the stream has.
pub open spec fn out_of_range(s: S3Stream, start: u64, end: u64) -> bool {
    signed(start) < signed(s.start_offset) || signed(end) > signed(s.confirm_offset)
}

/// The confirm offset moved forward, and the next offset with it.
pub open spec fn snapshot_confirmed(s: S3Stream, offset: u64) -> S3Stream {
    let confirm = if signed(offset) > signed(s.confirm_offset) {
        offset
    } else {
        s.confirm_offset
    };
    S3Stream { confirm_offset: confirm, next_offset: confirm, ..s }
}

/// A writable stream that takes operations.
pub open spec fn operable(s: S3Stream) -> bool {
    !s.closed && !s.fenced && !s.destroyed
}

/// An offset moved on, in 64-bit wrapping arithmetic.
pub open spec fn moved_on(offset: u64, count: u32) -> u64 {
    ((offset + count) % 0x1_0000_0000_0000_0000) as u64
}

/// The stream after an append of a number of records was admitted.
pub open spec fn admitted(s: S3Stream, count: u32) -> S3Stream {
    S3Stream {
        next_offset: moved_on(s.next_offset, count),
        pending_appends: (s.pending_appends + 1) as u64,
        ..s
    }
}

/// The stream after an admitted append ended.
pub open spec fn completed(s: S3Stream, base_offset: u64, count: u32, durable: bool) -> S3Stream {
    S3Stream {
        confirm_offset: if durable && base_offset + count > s.confirm_offset {
            (base_offset + count) as u64
        } else {
            s.confirm_offset
        },
        fenced: s.fenced || !durable,
        pending_appends: (s.pending_appends - 1) as u64,
        ..s
    }
}

impl S3Stream {
    pub fn new(
        stream_id: u64,
        epoch: u64,
        start_offset: u64,
        next_offset: u64,
        snapshot_read: bool,
    ) -> (r: Self)
        ensures
            r == (S3Stream {
                stream_id,
                epoch,
                start_offset,
                next_offset,
                confirm_offset: next_offset,
                closed: false,
                fenced: false,
                destroyed: false,
                snapshot_read,
                pending_appends: 0,
                pending_fetches: 0,
                close_result: None,
            }),
    {
        S3Stream {
            stream_id,
            epoch,
            start_offset,
            next_offset,
            confirm_offset: next_offset,
            closed: false,
            fenced: false,
            destroyed: false,
            snapshot_read,
            pending_appends: 0,
            pending_fetches: 0,
            close_result: None,
        }
    }

    pub fn snapshot_read(&self) -> (r: bool)
        ensures
            r == self.snapshot_read,
    {
        self.snapshot_read
    }

    pub fn is_closed(&self) -> (r: bool)
        ensures
            r == self.closed,
    {
        self.closed
    }

    pub fn is_operable(&self) -> (r: bool)
        ensures
            r == operable(*self),
    {
        !self.closed && !self.fenced && !self.destroyed
    }

    pub fn start_offset(&self) -> (r: u64)
        ensures
            r == self.start_offset,
    {
        self.start_offset
    }

    pub fn confirm_offset(&self) -> (r: u64)
        ensures
            r == self.confirm_offset,
    {
        self.confirm_offset
    }

    pub fn next_offset(&self) -> (r: u64)
        ensures
            r == self.next_offset,
    {
        self.next_offset
    }

    /// Refuses writes on a snapshot-read stream.
    fn check_writable(&self, operation: WriteOperation) -> (r: Result<(), StreamError>)
        ensures
            r == (if self.snapshot_read {
                Err::<(), StreamError>(
                    StreamError::Unexpected(Unexpected::ReadonlyStream { operation }),
                )
            } else {
                Ok(())
            }),
    {
        if self.snapshot_read {
            Err(StreamError::Unexpected(Unexpected::ReadonlyStream { operation }))
        } else {
            Ok(())
        }
    }

    /// Admits an append: its offsets are taken, and its record is encoded.
    pub fn admit_append(&mut self, batch: RecordBatch) -> (r: Result<AdmittedAppend, StreamError>)
        requires
            old(self).pending_appends < u64::MAX,
        ensures
            if old(self).snapshot_read {
                &&& r == Err::<AdmittedAppend, StreamError>(
                    StreamError::Unexpected(
                        Unexpected::ReadonlyStream { operation: WriteOperation::Append },
                    ),
                )
                &&& *final(self) == *old(self)
            } else if !operable(*old(self)) {
                &&& r == Err::<AdmittedAppend, StreamError>(
                    StreamError::Closed { stream_id: old(self).stream_id },
                )
                &&& *final(self) == *old(self)
            } else {
                &&& r matches Ok(a) && a.base_offset == old(self).next_offset && a.count
                    == batch.count && a.record@ == encode_record(
                    old(self).stream_id,
                    old(self).epoch,
                    old(self).next_offset,
                    signed32(batch.count) as i32,
                    bytes_seq(batch.payload),
                )
                &&& *final(self) == admitted(*old(self), batch.count)
            },
    {
        match self.check_writable(WriteOperation::Append) {
            Ok(()) => {},
            Err(e) => {
                return Err(e);
            },
        }
        if !self.is_operable() {
            return Err(StreamError::Closed { stream_id: self.stream_id });
        }
        let offset: u64 = self.next_offset;
        let count: u32 = batch.count;
        self.next_offset = offset.wrapping_add(count as u64);
        let record = StreamRecordBatch::new(
            self.stream_id,
            self.epoch,
            offset,
            as_signed32(count),
            batch.payload,
        );
        self.pending_appends = self.pending_appends + 1;
        Ok(AdmittedAppend { base_offset: offset, count, record })
    }

    /// An admitted append ended. Where it is durable the confirm offset advances; where it
    /// failed the stream takes no more writes.
    pub fn complete_append(
        &mut self,
        base_offset: u64,
        count: u32,
        result: Result<(), StreamError>,
    ) -> (r: Result<AppendResult, StreamError>)
        requires
            base_offset + count <= u64::MAX,
            old(self).pending_appends > 0,
        ensures
            *final(self) == completed(*old(self), base_offset, count, result is Ok),
            r == (match result {
                Ok(()) => Ok::<AppendResult, StreamError>(AppendResult { base_offset }),
                Err(e) => Err(e),
            }),
    {
        self.pending_appends = self.pending_appends - 1;
        match result {
            Ok(()) => {
                let end: u64 = base_offset + count as u64;
                if end > self.confirm_offset {
                    self.confirm_offset = end;
                }
                Ok(AppendResult { base_offset })
            },
            Err(e) => {
                self.fenced = true;
                Err(e)
            },
        }
    }

    /// The caller of an admitted append gave up waiting for it: it no longer counts as one
    /// that runs, and what becomes of it is not learnt.
    pub fn abandon_append(&mut self)
        requires
            old(self).pending_appends > 0,
        ensures
            *final(self) == (S3Stream {
                pending_appends: (old(self).pending_appends - 1) as u64,
                ..*old(self)
            }),
    {
        self.pending_appends = self.pending_appends - 1;
    }

    /// The context that a fetch reads with.
    pub fn fetch_context(&self, context: FetchContext) -> (r: FetchContext)
        ensures
            r == (FetchContext {
                snapshot_read: context.snapshot_read || self.snapshot_read,
                ..context
            }),
    {
        FetchContext {
            fast_read: context.fast_read,
            snapshot_read: context.snapshot_read || self.snapshot_read,
        }
    }

    /// Checks a fetch against the state and the bounds of the stream.
    pub fn check_fetch(&self, start_offset: u64, end_offset: u64) -> (r: Result<
        FetchStep,
        StreamError,
    >)
        ensures
            r == (if !operable(*self) {
                Err::<FetchStep, StreamError>(StreamError::Closed { stream_id: self.stream_id })
            } else if out_of_range(*self, start_offset, end_offset) {
                Err(
                    StreamError::OffsetOutOfRange {
                        stream_id: self.stream_id,
                        start: start_offset,
                        end: end_offset,
                        valid_start: self.start_offset,
                        valid_end: self.confirm_offset,
                    },
                )
            } else if start_offset > end_offset {
                Err(
                    StreamError::Unexpected(
                        Unexpected::FetchStartAboveEnd { start: start_offset, end: end_offset },
                    ),
                )
            } else if start_offset == end_offset {
                Ok(FetchStep::Empty)
            } else {
                Ok(FetchStep::Read)
            }),
    {
        if !self.is_operable() {
            return Err(StreamError::Closed { stream_id: self.stream_id });
        }
        if as_signed(start_offset) < as_signed(self.start_offset) || as_signed(end_offset)
            > as_signed(self.confirm_offset) {
            return Err(
                StreamError::OffsetOutOfRange {
                    stream_id: self.stream_id,
                    start: start_offset,
                    end: end_offset,
                    valid_start: self.start_offset,
                    valid_end: self.confirm_offset,
                },
            );
        }
        if start_offset > end_offset {
            return Err(
                StreamError::Unexpected(
                    Unexpected::FetchStartAboveEnd { start: start_offset, end: end_offset },
                ),
            );
        }
        if start_offset == end_offset {
            return Ok(FetchStep::Empty);
        }
        Ok(FetchStep::Read)
    }

    /// A fetch begins.
    pub fn begin_fetch(&mut self)
        requires
            old(self).pending_fetches < u64::MAX,
        ensures
            *final(self) == (S3Stream {
                pending_fetches: (old(self).pending_fetches + 1) as u64,
                ..*old(self)
            }),
    {
        self.pending_fetches = self.pending_fetches + 1;
    }

    /// A fetch ended. True, where it was the last one that ran.
    pub fn end_fetch(&mut self) -> (r: bool)
        requires
            old(self).pending_fetches > 0,
        ensures
            *final(self) == (S3Stream {
                pending_fetches: (old(self).pending_fetches - 1) as u64,
                ..*old(self)
            }),
            r == (old(self).pending_fetches == 1),
    {
        self.pending_fetches = self.pending_fetches - 1;
        self.pending_fetches == 0
    }

    /// A trim begins. True, where the metadata plane is to be told once no fetch runs; a
    /// trim below the start is ignored.
    pub fn begin_trim(&mut self, new_start_offset: u64) -> (r: Result<bool, StreamError>)
        ensures
            if old(self).snapshot_read {
                &&& r == Err::<bool, StreamError>(
                    StreamError::Unexpected(
                        Unexpected::ReadonlyStream { operation: WriteOperation::Trim },
                    ),
                )
                &&& *final(self) == *old(self)
            } else if new_start_offset < old(self).start_offset {
                r == Ok::<bool, StreamError>(false) && *final(self) == *old(self)
            } else {
                &&& r == Ok::<bool, StreamError>(true)
                &&& *final(self) == (S3Stream { start_offset: new_start_offset, ..*old(self) })
            },
            final(self).start_offset >= old(self).start_offset,
            r is Ok ==> final(self).start_offset >= new_start_offset,
    {
        match self.check_writable(WriteOperation::Trim) {
            Ok(()) => {},
            Err(e) => {
                return Err(e);
            },
        }
        if new_start_offset < self.start_offset {
            return Ok(false);
        }
        self.start_offset = new_start_offset;
        Ok(true)
    }

    /// A close begins. A forced one waits for nothing.
    pub fn begin_close(&mut self, force: bool) -> (r: CloseStep)
        ensures
            if old(self).snapshot_read {
                r == CloseStep::Unregister && *final(self) == *old(self)
            } else {
                &&& r == (CloseStep::UploadAndClose { wait: !force })
                &&& *final(self) == (S3Stream { closed: true, ..*old(self) })
            },
    {
        if self.snapshot_read {
            return CloseStep::Unregister;
        }
        self.closed = true;
        CloseStep::UploadAndClose { wait: !force }
    }

    /// What a close that ran before came to, which every later one returns; `None` where
    /// none ran.
    pub fn earlier_close(&self) -> (r: &Option<Result<(), String>>)
        ensures
            *r == self.close_result,
    {
        &self.close_result
    }

    /// The close ran.
    pub fn end_close(&mut self, result: Result<(), String>)
        ensures
            *final(self) == (S3Stream {
                close_result: match old(self).close_result {
                    Some(earlier) => Some(earlier),
                    None => Some(result),
                },
                ..*old(self)
            }),
    {
        if self.close_result.is_none() {
            self.close_result = Some(result);
        }
    }

    /// May the stream be destroyed? It is closed first.
    pub fn check_destroy(&self) -> (r: Result<(), StreamError>)
        ensures
            r == (if self.snapshot_read {
                Err::<(), StreamError>(
                    StreamError::Unexpected(
                        Unexpected::ReadonlyStream { operation: WriteOperation::Destroy },
                    ),
                )
            } else {
                Ok(())
            }),
    {
        self.check_writable(WriteOperation::Destroy)
    }

    /// The closed stream is destroyed: nothing of it is left to read.
    pub fn destroy(&mut self)
        ensures
            *final(self) == (S3Stream {
                destroyed: true,
                start_offset: old(self).confirm_offset,
                ..*old(self)
            }),
            !operable(*final(self)),
            final(self).start_offset == final(self).confirm_offset,
    {
        self.destroyed = true;
        self.start_offset = self.confirm_offset;
    }

    /// Sets the confirm offset of a snapshot-read stream, which never moves back.
    pub fn confirm_offset_set(&mut self, offset: u64) -> (r: Result<(), StreamError>)
        ensures
            if old(self).snapshot_read {
                r == Ok::<(), StreamError>(()) && *final(self) == snapshot_confirmed(
                    *old(self),
                    offset,
                )
            } else {
                &&& r == Err::<(), StreamError>(
                    StreamError::Unexpected(Unexpected::ConfirmOffsetOfWriter),
                )
                &&& *final(self) == *old(self)
            },
    {
        if !self.snapshot_read {
            return Err(StreamError::Unexpected(Unexpected::ConfirmOffsetOfWriter));
        }
        self.update_snapshot_read_confirm_offset(offset);
        Ok(())
    }

    fn update_snapshot_read_confirm_offset(&mut self, new_offset: u64)
        ensures
            *final(self) == snapshot_confirmed(*old(self), new_offset),
    {
        if as_signed(new_offset) > as_signed(self.confirm_offset) {
            self.confirm_offset = new_offset;
        }
        self.next_offset = self.confirm_offset;
    }

    /// The metadata plane has news of the stream.
    pub fn on_new_stream_metadata(&mut self, metadata: StreamMetadata)
        ensures
            *final(self) == (S3Stream {
                start_offset: metadata.start_offset,
                ..snapshot_confirmed(*old(self), metadata.end_offset)
            }),
    {
        self.update_snapshot_read_confirm_offset(metadata.end_offset);
        self.start_offset = metadata.start_offset;
    }
}

/// The offset ranges of two appends in a row follow each other without a gap.
pub proof fn law_appends_are_contiguous(s: S3Stream, first: u32, second: u32)
    requires
        s.next_offset + first + second <= u64::MAX,
    ensures
        admitted(s, first).next_offset == s.next_offset + first,
        admitted(admitted(s, first), second).next_offset == s.next_offset + first + second,
{
}

/// The confirm offset of a writer never moves back, and never passes the end of what was
/// appended.
pub proof fn law_confirm_follows_appends(s: S3Stream, base_offset: u64, count: u32, durable: bool)
    requires
        base_offset + count <= s.next_offset,
        s.confirm_offset <= s.next_offset,
    ensures
        s.confirm_offset <= completed(s, base_offset, count, durable).confirm_offset
            <= s.next_offset,
        durable ==> completed(s, base_offset, count, durable).confirm_offset >= base_offset + count,
{
}

/// A failed append leaves a stream that takes neither appends nor fetches.
pub proof fn law_failed_append_fences(s: S3Stream, base_offset: u64, count: u32)
    ensures
        !operable(completed(s, base_offset, count, false)),
{
}

/// A snapshot-read stream that knows nothing of its offsets yet refuses every fetch of a
/// real range, and its confirm offset never moves back.
pub proof fn law_snapshot_offsets_only_advance(s: S3Stream, offset: u64, start: u64, end: u64)
    ensures
        signed(snapshot_confirmed(s, offset).confirm_offset) >= signed(s.confirm_offset),
        s.confirm_offset == SNAPSHOT_FAKE_OFFSET && end <= i64::MAX ==> out_of_range(
            s,
            start,
            end,
        ),
{
}

/// The confirm offset is where the durable appends reach: a durable append moves it to its end,
/// if that is beyond, and a failed one leaves it. Nothing else of the offsets changes, and the
/// append no longer runs.
pub proof fn law_durable_append_confirms(s: S3Stream, base_offset: u64, count: u32, durable: bool)
    requires
        base_offset + count <= u64::MAX,
        s.pending_appends > 0,
    ensures
        ({
            let r = completed(s, base_offset, count, durable);
            let end = base_offset + count;
            &&& !durable ==> r.confirm_offset == s.confirm_offset && r.fenced
            &&& durable ==> r.fenced == s.fenced && r.confirm_offset >= end && r.confirm_offset
                >= s.confirm_offset && (r.confirm_offset == end || r.confirm_offset
                == s.confirm_offset)
            &&& r.next_offset == s.next_offset
            &&& r.start_offset == s.start_offset
            &&& r.pending_appends + 1 == s.pending_appends
            &&& r.pending_fetches == s.pending_fetches
            &&& r.closed == s.closed && r.destroyed == s.destroyed
        }),
{
}

/// An admitted append takes the offsets that come next, counts as one that runs, and confirms
/// nothing.
pub proof fn law_admitted_append_is_not_confirmed(s: S3Stream, count: u32)
    requires
        s.next_offset + count <= u64::MAX,
        s.pending_appends < u64::MAX,
    ensures
        ({
            let r = admitted(s, count);
            &&& r.next_offset - s.next_offset == count
            &&& r.confirm_offset == s.confirm_offset
            &&& r.start_offset == s.start_offset
            &&& r.pending_appends == s.pending_appends + 1
            &&& operable(r) == operable(s)
        }),
{
}

/// A fetch is within what the stream has exactly where it starts no lower than the stream and
/// ends no higher than what is confirmed.
pub proof fn law_fetch_stays_within_confirmed(s: S3Stream, start: u64, end: u64)
    requires
        start <= i64::MAX,
        end <= i64::MAX,
        s.start_offset <= i64::MAX,
        s.confirm_offset <= i64::MAX,
    ensures
        !out_of_range(s, start, end) <==> s.start_offset <= start && end <= s.confirm_offset,
{
}

/// A stream takes operations exactly as long as it is not closed, not fenced and not destroyed.
pub proof fn law_ended_stream_takes_nothing(s: S3Stream)
    ensures
        s.closed || s.fenced || s.destroyed ==> !operable(s),
        !operable(s) ==> s.closed || s.fenced || s.destroyed,
{
}

/// News of a snapshot-read stream move its confirm offset forward to what is told, and the next
/// offset stays with it.
pub proof fn law_snapshot_offsets_follow_news(s: S3Stream, offset: u64)
    ensures
        ({
            let r = snapshot_confirmed(s, offset);
            &&& r.next_offset == r.confirm_offset
            &&& signed(offset) > signed(s.confirm_offset) ==> r.confirm_offset == offset
            &&& signed(offset) <= signed(s.confirm_offset) ==> r.confirm_offset == s.confirm_offset
            &&& r.start_offset == s.start_offset
        }),
{
}

} // verus!
