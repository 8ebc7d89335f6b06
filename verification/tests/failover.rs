//! Failover of another node's WAL.
use s3stream::error::{StreamError, Unexpected, WalError};
use s3stream::failover::{
    check_wal, failover_response, on_wal_started, FailoverRequest, FailoverStart, FailureAction,
    HaltStorageFailureHandler, LogStorageFailureHandler,
};

fn request() -> FailoverRequest {
    FailoverRequest {
        node_id: 1,
        node_epoch: 1,
        wal_config: "0@memory://".into(),
    }
}

#[test]
fn empty_wal_not_initialized_succeeds() {
    assert_eq!(
        on_wal_started(Err(WalError::NotInitialized)),
        FailoverStart::Empty
    );
    let resp = failover_response(&request());
    assert_eq!(resp.node_id, 1);
    assert_eq!(on_wal_started(Ok(())), FailoverStart::Recover);
    assert_eq!(
        on_wal_started(Err(WalError::Fenced)),
        FailoverStart::Fail(StreamError::Wal(WalError::Fenced))
    );
}

#[test]
fn node_id_mismatch_errors() {
    assert_eq!(
        check_wal(&request(), 99, 1),
        Err(StreamError::Unexpected(Unexpected::NodeMismatch {
            request: 1,
            wal: 99
        }))
    );
}

#[test]
fn epoch_mismatch_errors() {
    assert_eq!(
        check_wal(&request(), 1, 5),
        Err(StreamError::Unexpected(Unexpected::EpochMismatch {
            request: 1,
            wal: 5
        }))
    );
    assert_eq!(check_wal(&request(), 1, 1), Ok(()));
}

#[test]
fn failure_handlers_differ() {
    assert_eq!(LogStorageFailureHandler {}.action(), FailureAction::Log);
    assert_eq!(HaltStorageFailureHandler {}.action(), FailureAction::Halt);
}
