//! What a measurement becomes before it is handed to a recorder.
use s3stream::metrics::{
    record_network_limiter_queue_time, record_network_usage, record_operation_latency,
    record_stage_latency, set_network_limiter_queue_size, Direction, S3Operation, S3Stage,
    LABEL_OPERATION_NAME, LABEL_OPERATION_TYPE, LABEL_STAGE,
};

#[test]
fn operation_latency_names_and_labels() {
    let events = vec![
        record_operation_latency(S3Operation::AppendStream, 42).unwrap(),
        record_stage_latency(S3Stage::UploadWalCommit, 7).unwrap(),
    ];
    assert_eq!(events.len(), 2);
    assert_eq!(LABEL_OPERATION_TYPE, "operation_type");
    assert_eq!(LABEL_OPERATION_NAME, "operation_name");
    assert_eq!(LABEL_STAGE, "stage");
    assert_eq!(events[0].metric, "kafka_stream_operation_latency");
    assert_eq!(events[0].operation_type, "S3Stream");
    assert_eq!(events[0].operation_name, "append");
    assert_eq!(events[0].nanos as f64, 42.0);
    assert_eq!(events[1].operation_type, "S3Storage");
    assert_eq!(events[1].operation_name, "upload_wal");
    assert_eq!(events[1].stage, Some("commit"));
}

#[test]
fn negative_samples_skipped() {
    let events: Vec<_> = [-1, 1]
        .into_iter()
        .filter_map(|nanos| record_operation_latency(S3Operation::AppendStream, nanos))
        .collect();
    assert_eq!(events.len(), 1);
    assert_eq!(events[0].nanos as f64, 1.0);
}

#[test]
fn network_samples_name_their_direction() {
    let inbound = record_network_usage(Direction::Inbound, "tail", 9).unwrap();
    assert_eq!(inbound.metric, "kafka_stream_network_inbound_usage");
    assert_eq!(inbound.strategy, Some("tail"));
    assert_eq!(inbound.value, 9);
    let outbound = record_network_usage(Direction::Outbound, "bypass", 1).unwrap();
    assert_eq!(outbound.metric, "kafka_stream_network_outbound_usage");
    let queue = set_network_limiter_queue_size(Direction::Outbound, 3).unwrap();
    assert_eq!(
        queue.metric,
        "kafka_stream_network_outbound_limiter_queue_size"
    );
    assert_eq!(queue.value, 3);
    assert!(record_network_limiter_queue_time(Direction::Inbound, "tail", -1).is_none());
    let time = record_network_limiter_queue_time(Direction::Inbound, "tail", 12).unwrap();
    assert_eq!(
        time.metric,
        "kafka_stream_network_inbound_limiter_queue_time"
    );
}
