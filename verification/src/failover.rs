//! Failover: recover a dead node's WAL and hand its streams back to the cluster.
use vstd::prelude::*;

use crate::error::{StreamError, Unexpected, WalError};

verus! {

/// How long a failover waits for the permission to write a dead node's WAL.
pub const FAILOVER_ACQUIRE_TIMEOUT_MS: u64 = 20_000;

#[derive(Debug)]
pub struct FailoverRequest {
    pub node_id: u32,
    pub node_epoch: u64,
    /// WAL config URI of the dead node.
    pub wal_config: String,
}

#[derive(Debug, Clone, Copy, PartialEq, Eq, Structural)]
pub struct FailoverResponse {
    pub node_id: u32,
    pub node_epoch: u64,
}

/// What follows the start of the dead node's WAL.
#[derive(Debug, Clone, Copy, PartialEq, Eq, Structural)]
pub enum FailoverStart {
    /// The WAL is to be recovered.
    Recover,
    /// The node never wrote a WAL: the failover is done.
    Empty,
    /// The failover fails.
    Fail(StreamError),
}

/// What the failover of a node answers.
pub fn failover_response(request: &FailoverRequest) -> (r: FailoverResponse)
    ensures
        r == (FailoverResponse { node_id: request.node_id, node_epoch: request.node_epoch }),
{
    FailoverResponse { node_id: request.node_id, node_epoch: request.node_epoch }
}

/// Decides on the start of the dead node's WAL.
pub fn on_wal_started(result: Result<(), WalError>) -> (r: FailoverStart)
    ensures
        r == (match result {
            Ok(()) => FailoverStart::Recover,
            Err(WalError::NotInitialized) => FailoverStart::Empty,
            Err(e) => FailoverStart::Fail(StreamError::Wal(e)),
        }),
{
    match result {
        Ok(()) => FailoverStart::Recover,
        Err(WalError::NotInitialized) => FailoverStart::Empty,
        Err(e) => FailoverStart::Fail(StreamError::Wal(e)),
    }
}

/// The WAL that was found is the one that the request is about: of the same node, and of
/// no newer epoch.
pub open spec fn is_requested(request: FailoverRequest, wal_node_id: u32, wal_epoch: u64) -> bool {
    request.node_id == wal_node_id && request.node_epoch >= wal_epoch
}

/// Checks that the WAL that was found is the one that the request is about.
pub fn check_wal(request: &FailoverRequest, wal_node_id: u32, wal_epoch: u64) -> (r: Result<
    (),
    StreamError,
>)
    ensures
        r is Ok <==> is_requested(*request, wal_node_id, wal_epoch),
        r == (if request.node_id != wal_node_id {
            Err::<(), StreamError>(
                StreamError::Unexpected(
                    Unexpected::NodeMismatch { request: request.node_id, wal: wal_node_id },
                ),
            )
        } else if request.node_epoch < wal_epoch {
            Err(
                StreamError::Unexpected(
                    Unexpected::EpochMismatch { request: request.node_epoch, wal: wal_epoch },
                ),
            )
        } else {
            Ok(())
        }),
{
    if request.node_id != wal_node_id {
        return Err(
            StreamError::Unexpected(
                Unexpected::NodeMismatch { request: request.node_id, wal: wal_node_id },
            ),
        );
    }
    if request.node_epoch < wal_epoch {
        return Err(
            StreamError::Unexpected(
                Unexpected::EpochMismatch { request: request.node_epoch, wal: wal_epoch },
            ),
        );
    }
    Ok(())
}

/// What a node does about an unrecoverable storage failure.
#[derive(Debug, Clone, Copy, PartialEq, Eq, Structural)]
pub enum FailureAction {
    Log,
    Halt,
}

/// Default handler: log only.
#[derive(Debug, Clone, Copy, PartialEq, Eq, Structural)]
pub struct LogStorageFailureHandler {}

impl LogStorageFailureHandler {
    pub fn action(&self) -> (r: FailureAction)
        ensures
            r == FailureAction::Log,
    {
        FailureAction::Log
    }
}

/// Halts the node.
#[derive(Debug, Clone, Copy, PartialEq, Eq, Structural)]
pub struct HaltStorageFailureHandler {}

impl HaltStorageFailureHandler {
    pub fn action(&self) -> (r: FailureAction)
        ensures
            r == FailureAction::Halt,
    {
        FailureAction::Halt
    }
}

} // verus!
