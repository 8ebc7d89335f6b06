//! The in-memory metadata manager and key-value store.
use bytes::Bytes;
use s3stream::api::KeyValue;
use s3stream::error::StreamError;
use s3stream::kv::MemoryKvClient;
use s3stream::manager::{
    CommitStreamSetObjectRequest, CompactStreamObjectRequest, StreamObject, StreamState,
};
use s3stream::memory::MemoryMetadataManager;
use s3stream::object::{ObjectStreamRange, NOOP_OBJECT_ID};

/// Opening with a stale epoch fails. A newer epoch's open succeeds.
#[test]
fn open_stream_enforces_epoch_fencing() {
    let mut manager = MemoryMetadataManager::new();
    let stream_id = manager.create_stream();
    manager.open_stream(stream_id, 1).unwrap();
    // Same epoch while opened: fenced. Lower epoch: fenced.
    assert!(manager.open_stream(stream_id, 1).is_err());
    assert!(manager.open_stream(stream_id, 0).is_err());
    // Newer epoch wins.
    manager.open_stream(stream_id, 2).unwrap();
    // Close then reopen at same epoch is allowed (failback path).
    manager.close_stream(stream_id, 2).unwrap();
    manager.open_stream(stream_id, 2).unwrap();
}

#[test]
fn stream_errors_are_told_apart() {
    let mut manager = MemoryMetadataManager::new();
    assert_eq!(
        manager.open_stream(9, 1),
        Err(StreamError::NotExist { stream_id: 9 })
    );
    let stream_id = manager.create_stream();
    let opened = manager.open_stream(stream_id, 3).unwrap();
    assert_eq!(opened.state, StreamState::Opened);
    assert_eq!(opened.epoch, 3);
    assert!(matches!(
        manager.trim_stream(stream_id, 2, 5),
        Err(StreamError::Fenced { .. })
    ));
    assert!(matches!(
        manager.close_stream(stream_id, 4),
        Err(StreamError::Fenced { .. })
    ));
    assert_eq!(manager.trim_stream(stream_id, 3, 5).unwrap().start_offset, 5);
    manager.close_stream(stream_id, 3).unwrap();
    manager.delete_stream(stream_id, 3).unwrap();
    assert!(manager.get_streams(&vec![stream_id]).is_empty());
}

#[test]
fn get_objects_ordered_and_filtered() {
    let mut manager = MemoryMetadataManager::new();
    let stream_id = manager.create_stream();
    manager.open_stream(stream_id, 1).unwrap();

    let mut request = CommitStreamSetObjectRequest {
        object_id: 100,
        object_size: 10,
        ..Default::default()
    };
    request.stream_ranges.push(ObjectStreamRange {
        stream_id,
        epoch: u64::MAX,
        start_offset: 10,
        end_offset: 20,
        size: 10,
    });
    request.stream_objects.push(StreamObject {
        object_id: 101,
        object_size: 5,
        stream_id,
        start_offset: 0,
        end_offset: 10,
        attributes: 0,
    });
    manager.commit_stream_set_object(&request, 1);

    let objects = manager.get_objects(stream_id, 0, 20, 10);
    assert_eq!(objects.len(), 2);
    assert_eq!(objects[0].object_id, 101); // starts at 0
    assert_eq!(objects[1].object_id, 100); // starts at 10
    // Committed end offset advanced.
    let stream = manager.get_streams(&vec![stream_id])[0];
    assert_eq!(stream.end_offset, 20);
}

#[test]
fn compaction_replaces_stream_objects() {
    let mut manager = MemoryMetadataManager::new();
    let stream_id = manager.create_stream();
    manager.open_stream(stream_id, 1).unwrap();
    for i in 0..3u64 {
        let mut request = CommitStreamSetObjectRequest::empty(NOOP_OBJECT_ID);
        request.stream_objects.push(StreamObject {
            object_id: 10 + i,
            object_size: 7,
            stream_id,
            start_offset: i * 4,
            end_offset: i * 4 + 4,
            attributes: 0,
        });
        manager.commit_stream_set_object(&request, 1);
    }
    assert!(manager.is_object_exist(11));
    manager.compact_stream_object(
        &CompactStreamObjectRequest {
            object_id: 20,
            object_size: 21,
            stream_id,
            stream_epoch: 1,
            start_offset: 0,
            end_offset: 12,
            source_object_ids: vec![10, 11, 12],
            operations: vec![],
            attributes: 0,
        },
        2,
    );
    let objects = manager.get_stream_objects(stream_id, 0, u64::MAX, usize::MAX);
    assert_eq!(objects.len(), 1);
    assert_eq!(objects[0].object_id, 20);
    assert_eq!(objects[0].offset_ranges[0].end_offset, 12);
    assert!(!manager.is_object_exist(11));
}

#[test]
fn object_ids_are_handed_out_once() {
    let mut manager = MemoryMetadataManager::new();
    let first = manager.prepare_object(3);
    let next = manager.prepare_object(1);
    assert_eq!(next, first + 3);
}

#[test]
fn list_kv_prefix_ordered() {
    let mut kv = MemoryKvClient::new();
    for key in ["s2s:b/2", "s2s:a/1", "other:x", "s2s:a/0"] {
        kv.put_kv(KeyValue {
            key: key.into(),
            value: Bytes::from_static(b"v"),
        });
    }

    let listed = kv.list_kv("s2s:");
    let keys: Vec<&str> = listed.iter().map(|kv| kv.key.as_str()).collect();
    assert_eq!(keys, vec!["s2s:a/0", "s2s:a/1", "s2s:b/2"]);

    assert!(kv.list_kv("missing:").is_empty());
}

#[test]
fn kv_keeps_the_first_value_if_absent() {
    let mut kv = MemoryKvClient::new();
    let pair = |v: &'static [u8]| KeyValue {
        key: "k".into(),
        value: Bytes::from_static(v),
    };
    assert_eq!(kv.put_kv_if_absent(pair(b"1")), Bytes::from_static(b"1"));
    assert_eq!(kv.put_kv_if_absent(pair(b"2")), Bytes::from_static(b"1"));
    assert_eq!(kv.get_kv("k"), Some(Bytes::from_static(b"1")));
    kv.put_kv(pair(b"3"));
    assert_eq!(kv.get_kv("k"), Some(Bytes::from_static(b"3")));
    assert_eq!(kv.del_kv_if("k", &Bytes::from_static(b"2")), None);
    assert_eq!(
        kv.del_kv_if("k", &Bytes::from_static(b"3")),
        Some(Bytes::from_static(b"3"))
    );
    assert_eq!(kv.del_kv("k"), None);
    assert_eq!(kv.get_kv("k"), None);
}
