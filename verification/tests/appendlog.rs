use nanostore::appendlog::config::{
    AppendLogConfig, CompressionType, Duration, RetentionPolicy,
};
use nanostore::appendlog::log::AppendLog;
use nanostore::appendlog::segment::{Segment, SegmentId};
use nanostore::pager::{PageSize, PageType, Pager, PagerError};
use nanostore::snap::Snapshot;
use nanostore::table::{Corruption, TableEngineKind, TableError};
use nanostore::types::{
    Bound, KeyBuf, LogSequenceNumber, ScanBounds, TableId, TransactionId, ValueBuf,
};

fn create_test_pager() -> Pager {
    Pager::create(PageSize::default())
}

#[test]
fn test_default_config() {
    let config = AppendLogConfig::default();
    assert_eq!(config.segment_size, 64 * 1024 * 1024);
    assert_eq!(config.compression, CompressionType::Uncompressed);
    assert_eq!(config.retention_policy, RetentionPolicy::KeepAll);
    assert!(!config.sync_writes);
    assert_eq!(config.write_buffer_size, 4096);
}

#[test]
fn test_config_builder() {
    let config = AppendLogConfig::new()
        .with_segment_size(128 * 1024 * 1024)
        .with_compression(CompressionType::Lz4)
        .with_retention_policy(RetentionPolicy::max_segments(10))
        .with_sync_writes(true)
        .with_write_buffer_size(8192);

    assert_eq!(config.segment_size, 128 * 1024 * 1024);
    assert_eq!(config.compression, CompressionType::Lz4);
    assert_eq!(config.retention_policy, RetentionPolicy::MaxSegments(10));
    assert!(config.sync_writes);
    assert_eq!(config.write_buffer_size, 8192);
}

#[test]
fn test_retention_policy() {
    let policy1 = RetentionPolicy::max_segments(5);
    assert_eq!(policy1, RetentionPolicy::MaxSegments(5));

    let policy2 = RetentionPolicy::max_age(Duration::from_secs(3600));
    assert_eq!(policy2, RetentionPolicy::MaxAge(Duration::from_secs(3600)));
}

#[test]
fn test_segment_creation() {
    let mut pager = create_test_pager();
    let segment = Segment::new(SegmentId(0), &mut pager, 1000);

    assert_eq!(segment.id(), SegmentId(0));
    assert_eq!(segment.size(), 0);
    assert_eq!(segment.entry_count(), 0);
    assert_eq!(segment.created_at(), 1000);
    assert_eq!(segment.latest_lsn(), LogSequenceNumber::from(1000));
}

#[test]
fn test_segment_append_and_read() {
    let mut pager = create_test_pager();
    let mut segment = Segment::new(SegmentId(0), &mut pager, 0);

    let key = b"test_key";
    let value = b"test_value";
    let offset = segment.append(&mut pager, key, value, usize::MAX).unwrap();

    assert_eq!(offset, 0);
    assert_eq!(segment.entry_count(), 1);

    let read_value = segment.read_at(&pager, offset).unwrap();
    assert_eq!(read_value, Some(ValueBuf(value.to_vec())));
}

#[test]
fn test_segment_multiple_entries() {
    let mut pager = create_test_pager();
    let mut segment = Segment::new(SegmentId(0), &mut pager, 0);

    let entries = vec![
        (b"key1".as_slice(), b"value1".as_slice()),
        (b"key2".as_slice(), b"value2".as_slice()),
        (b"key3".as_slice(), b"value3".as_slice()),
    ];

    let mut offsets = Vec::new();
    for (key, value) in &entries {
        let offset = segment.append(&mut pager, key, value, usize::MAX).unwrap();
        offsets.push(offset);
    }

    assert_eq!(segment.entry_count(), 3);

    for (i, (_, value)) in entries.iter().enumerate() {
        let read_value = segment.read_at(&pager, offsets[i]).unwrap();
        assert_eq!(read_value, Some(ValueBuf(value.to_vec())));
    }
}

#[test]
fn test_segment_size_tracking() {
    let mut pager = create_test_pager();
    let mut segment = Segment::new(SegmentId(0), &mut pager, 0);

    segment.append(&mut pager, b"key", b"value", usize::MAX).unwrap();

    assert_eq!(segment.size(), 16);
}

#[test]
fn test_segment_invalid_offset() {
    let mut pager = create_test_pager();
    let segment = Segment::new(SegmentId(0), &mut pager, 0);

    let result = segment.read_at(&pager, 1000).unwrap();
    assert_eq!(result, None);
}

#[test]
fn flushed_entries_are_read_back_from_pages() {
    let mut pager = create_test_pager();
    let mut segment = Segment::new(SegmentId(3), &mut pager, 7);
    let first = segment.append(&mut pager, b"a", &[1u8; 100], usize::MAX).unwrap();
    let second = segment.append(&mut pager, b"b", &[2u8; 200], usize::MAX).unwrap();
    segment.flush(&mut pager).unwrap();
    assert!(segment.buffer().is_empty());
    assert_eq!(segment.flushed_pages().len(), 1);
    let page = pager.read_page(segment.flushed_pages()[0]).unwrap();
    assert_eq!(page.page_type, PageType::LsmData);
    assert_eq!(page.data.len() as u64, 16 + segment.size());
    assert_eq!(page.data[8], 0);
    assert_eq!(segment.metadata().last_page_id, segment.flushed_pages()[0]);
    assert_eq!(segment.read_at(&pager, first).unwrap(), Some(ValueBuf(vec![1u8; 100])));
    assert_eq!(segment.read_at(&pager, second).unwrap(), Some(ValueBuf(vec![2u8; 200])));

    let restored = Segment::from_persisted(segment.persist());
    assert_eq!(restored.read_at(&pager, second).unwrap(), Some(ValueBuf(vec![2u8; 200])));
    assert_eq!(restored.metadata(), segment.metadata());
}

#[test]
fn a_flush_writes_full_pages_only() {
    let mut pager = create_test_pager();
    let mut segment = Segment::new(SegmentId(0), &mut pager, 0);
    let payload = 4032 - 16;
    let offset = segment.append(&mut pager, b"k", &[9u8; 9000], 1).unwrap();
    assert_eq!(segment.flushed_pages().len(), 2);
    assert_eq!(segment.buffer().len(), 9009 - 2 * payload);
    let first = pager.read_page(segment.flushed_pages()[0]).unwrap();
    assert_eq!(first.data[8], 1);
    // The entry stands partly in pages and partly in the buffer.
    assert_eq!(segment.read_at(&pager, offset).unwrap(), Some(ValueBuf(vec![9u8; 9000])));
    segment.flush(&mut pager).unwrap();
    assert_eq!(segment.read_at(&pager, offset).unwrap(), Some(ValueBuf(vec![9u8; 9000])));
}

#[test]
fn bad_segment_pages_are_reported() {
    let mut pager = create_test_pager();
    let mut segment = Segment::new(SegmentId(0), &mut pager, 0);
    let at = segment.append(&mut pager, b"k", b"value", 1).unwrap();
    let id = segment.flushed_pages()[0];
    let mut page = pager.read_page(id).unwrap();
    page.data[0] = 0xff;
    page.data[1] = 0xff;
    pager.write_page(page).unwrap();
    assert_eq!(
        segment.read_at(&pager, at).unwrap_err(),
        TableError::Corruption(Corruption::InvalidChunkLength {
            page_id: id,
            chunk_len: 0xffff,
            available: 14,
        })
    );
    let mut page = pager.read_page(id).unwrap();
    page.data.truncate(10);
    pager.write_page(page).unwrap();
    assert_eq!(
        segment.read_at(&pager, at).unwrap_err(),
        TableError::Corruption(Corruption::ShortSegmentPage(id))
    );
    pager.free_page(id).unwrap();
    assert_eq!(
        segment.read_at(&pager, at).unwrap_err(),
        TableError::Pager(PagerError::PageNotFound(id))
    );
}

fn new_log(pager: &mut Pager, config: AppendLogConfig) -> AppendLog {
    AppendLog::new(TableId::from(1), "log".to_string(), pager, config, 100)
}

#[test]
fn committed_entries_are_read_and_deleted_ones_are_not() {
    let mut pager = create_test_pager();
    let mut log = new_log(&mut pager, AppendLogConfig::new());
    let tx = TransactionId::from(5);
    assert_eq!(log.put_tx(&mut pager, b"k", b"hello", tx, 100).unwrap(), 6);
    assert_eq!(log.get(b"k", LogSequenceNumber::from(50)).unwrap(), None);
    log.commit_versions(tx, LogSequenceNumber::from(10)).unwrap();
    assert_eq!(
        log.get(b"k", LogSequenceNumber::from(10)).unwrap(),
        Some(ValueBuf(b"hello".to_vec()))
    );
    assert_eq!(log.get(b"k", LogSequenceNumber::from(9)).unwrap(), None);
    let hidden = Snapshot::new(
        nanostore::snap::SnapshotId::from(1),
        String::new(),
        LogSequenceNumber::from(20),
        0,
        0,
        vec![tx],
    );
    assert_eq!(log.get_snapshot(b"k", &hidden).unwrap(), None);

    let tx2 = TransactionId::from(6);
    assert!(log.delete_tx(b"k", tx2).unwrap());
    assert!(!log.delete_tx(b"unknown", tx2).unwrap());
    log.commit_versions(tx2, LogSequenceNumber::from(20)).unwrap();
    assert_eq!(log.get(b"k", LogSequenceNumber::from(20)).unwrap(), None);
    assert_eq!(
        log.get(b"k", LogSequenceNumber::from(19)).unwrap(),
        Some(ValueBuf(b"hello".to_vec()))
    );
    assert_eq!(log.vacuum(LogSequenceNumber::from(30)).unwrap(), 1);
    assert_eq!(log.get(b"k", LogSequenceNumber::from(30)).unwrap(), None);
    let stats = log.stats().unwrap();
    assert_eq!(stats.row_count, Some(0));
    assert_eq!(stats.total_size_bytes, Some(6));
    assert_eq!(stats.last_updated_lsn, Some(LogSequenceNumber::from(20)));
    assert_eq!(log.kind(), TableEngineKind::AppendLog);
}

#[test]
fn statistics_fall_back_to_the_age_of_the_segment() {
    let mut pager = create_test_pager();
    let log = new_log(&mut pager, AppendLogConfig::new());
    assert_eq!(log.stats().unwrap().last_updated_lsn, Some(LogSequenceNumber::from(100)));
}

#[test]
fn full_segments_roll_and_the_oldest_go() {
    let mut pager = create_test_pager();
    let config = AppendLogConfig::new()
        .with_segment_size(1)
        .with_retention_policy(RetentionPolicy::max_segments(1));
    let mut log = new_log(&mut pager, config);
    log.put(&mut pager, b"a", b"1", 100).unwrap();
    log.put(&mut pager, b"b", b"2", 101).unwrap();
    assert_eq!(log.active_segment.id(), SegmentId(1));
    assert_eq!(log.immutable_segments.len(), 1);
    log.put(&mut pager, b"c", b"3", 102).unwrap();
    assert_eq!(log.active_segment.id(), SegmentId(2));
    assert_eq!(log.immutable_segments.len(), 1);
    assert_eq!(log.immutable_segments[0].id(), SegmentId(1));
    log.commit_versions(TransactionId::from(0), LogSequenceNumber::from(1)).unwrap();
    assert_eq!(log.get(b"a", LogSequenceNumber::from(9)).unwrap(), None);
    assert_eq!(
        log.get(b"b", LogSequenceNumber::from(9)).unwrap(),
        Some(ValueBuf(b"2".to_vec()))
    );
}

#[test]
fn segments_that_are_too_old_go() {
    let mut pager = create_test_pager();
    let config = AppendLogConfig::new()
        .with_segment_size(1)
        .with_retention_policy(RetentionPolicy::max_age(Duration::from_secs(10)));
    let mut log = new_log(&mut pager, config);
    log.put(&mut pager, b"a", b"1", 100).unwrap();
    log.put(&mut pager, b"b", b"2", 105).unwrap();
    assert_eq!(log.immutable_segments.len(), 1);
    log.put(&mut pager, b"c", b"3", 111).unwrap();
    assert_eq!(log.immutable_segments.len(), 1);
    assert_eq!(log.immutable_segments[0].created_at(), 105);
}

#[test]
fn a_stored_log_is_opened_with_the_same_contents() {
    let mut pager = create_test_pager();
    let mut log = new_log(&mut pager, AppendLogConfig::new().with_segment_size(20));
    for key in [b"x".as_slice(), b"y", b"z"] {
        log.put(&mut pager, key, b"0123456789", 100).unwrap();
    }
    log.commit_versions(TransactionId::from(0), LogSequenceNumber::from(3)).unwrap();
    let root = log.root_page_id();
    let state = log.persisted();
    assert_eq!(state.index.len(), 3);
    let opened =
        AppendLog::open(TableId::from(1), "log".to_string(), root, AppendLogConfig::new(), state);
    for key in [b"x".as_slice(), b"y", b"z"] {
        assert_eq!(
            opened.get(key, LogSequenceNumber::from(3)).unwrap(),
            Some(ValueBuf(b"0123456789".to_vec()))
        );
    }
    assert_eq!(opened.entry_count, log.entry_count);
    assert_eq!(opened.total_size, log.total_size);
    assert_eq!(opened.immutable_segments.len(), log.immutable_segments.len());

    log.write_metadata(&mut pager, b"state".to_vec()).unwrap();
    assert_eq!(AppendLog::read_metadata(&pager, root).unwrap(), b"state".to_vec());
    assert_eq!(
        log.write_metadata(&mut pager, vec![0u8; 4033]).unwrap_err(),
        TableError::ValueTooLarge { size: 4033, max: 4032 }
    );
}

#[test]
fn scans_list_keys_in_order_and_go_forwards_only() {
    let mut pager = create_test_pager();
    let mut log = new_log(&mut pager, AppendLogConfig::new());
    for key in [b"c".as_slice(), b"a", b"b", b"d"] {
        log.put(&mut pager, key, b"v", 100).unwrap();
    }
    let bounds = ScanBounds::Range {
        start: Bound::Excluded(KeyBuf(b"a".to_vec())),
        end: Bound::Included(KeyBuf(b"c".to_vec())),
    };
    let mut cursor = log.scan(bounds, LogSequenceNumber::from(1)).unwrap();
    assert_eq!(cursor.key(), Some(b"b".as_ref()));
    assert_eq!(cursor.value(), None);
    assert!(cursor.prev().is_err());
    assert!(cursor.seek(b"c").is_err());
    cursor.next().unwrap();
    assert_eq!(cursor.key(), Some(b"c".as_ref()));
    cursor.next().unwrap();
    assert!(!cursor.valid());
    assert_eq!(
        log.range_delete(ScanBounds::All).unwrap_err(),
        TableError::OperationNotSupported
    );
}

#[test]
fn flushes_between_entries_keep_all_of_them() {
    let mut pager = create_test_pager();
    let mut segment = Segment::new(SegmentId(0), &mut pager, 0);
    let mut offsets = Vec::new();
    for n in 0..12u8 {
        offsets.push(segment.append(&mut pager, b"k", &[n; 1500], 4096).unwrap());
    }
    for n in 0..12u8 {
        let found = segment.read_at(&pager, offsets[n as usize]).unwrap();
        assert_eq!(found, Some(ValueBuf(vec![n; 1500])));
    }
}

#[test]
fn a_commit_reaches_versions_under_newer_ones() {
    let mut pager = create_test_pager();
    let mut log = new_log(&mut pager, AppendLogConfig::new());
    log.put_tx(&mut pager, b"k", b"one", TransactionId::from(1), 100).unwrap();
    log.put_tx(&mut pager, b"k", b"two", TransactionId::from(2), 100).unwrap();
    log.commit_versions(TransactionId::from(1), LogSequenceNumber::from(5)).unwrap();
    assert_eq!(
        log.get(b"k", LogSequenceNumber::from(9)).unwrap(),
        Some(ValueBuf(b"one".to_vec()))
    );
    assert_eq!(log.vacuum(LogSequenceNumber::from(9)).unwrap(), 0);
    log.commit_versions(TransactionId::from(2), LogSequenceNumber::from(8)).unwrap();
    assert_eq!(
        log.get(b"k", LogSequenceNumber::from(9)).unwrap(),
        Some(ValueBuf(b"two".to_vec()))
    );
    assert_eq!(log.vacuum(LogSequenceNumber::from(9)).unwrap(), 1);
    assert_eq!(log.vacuum(LogSequenceNumber::from(9)).unwrap(), 0);
}

#[test]
fn puts_wait_for_their_commit() {
    let mut pager = create_test_pager();
    let mut log = new_log(&mut pager, AppendLogConfig::new());
    let tx = TransactionId::from(1);
    let lsn = LogSequenceNumber::from;
    log.put_tx(&mut pager, b"k", b"old", tx, 100).unwrap();
    log.commit_versions(tx, lsn(5)).unwrap();
    log.put_tx(&mut pager, b"k", b"new", TransactionId::from(2), 100).unwrap();
    log.put_tx(&mut pager, b"other", b"new", TransactionId::from(2), 100).unwrap();
    assert_eq!(log.get(b"k", lsn(99)).unwrap(), Some(ValueBuf(b"old".to_vec())));
    assert_eq!(log.get(b"other", lsn(99)).unwrap(), None);
}

#[test]
fn appended_entries_leave_earlier_ones_alone() {
    let mut pager = create_test_pager();
    let mut segment = Segment::new(SegmentId(0), &mut pager, 0);
    let mut places = Vec::new();
    for i in 0..50u8 {
        let size = segment.size();
        let offset = segment.append(&mut pager, &[i], &vec![i; 500], 4096).unwrap();
        assert_eq!(offset, size);
        places.push(offset);
        for (j, place) in places.iter().enumerate() {
            assert_eq!(
                segment.read_at(&pager, *place).unwrap(),
                Some(ValueBuf(vec![j as u8; 500]))
            );
        }
    }
    assert!(segment.is_sound(&pager));
}

#[test]
fn logs_whose_pages_are_gone_are_not_sound() {
    let mut pager = create_test_pager();
    let mut log = new_log(&mut pager, AppendLogConfig::new());
    log.put(&mut pager, b"k", &[1u8; 9000], 100).unwrap();
    log.active_segment.flush(&mut pager).unwrap();
    let root = log.root_page_id();
    let open = |log: &AppendLog| {
        AppendLog::open(
            TableId::from(1),
            "log".to_string(),
            root,
            AppendLogConfig::new(),
            log.persisted(),
        )
    };
    assert!(open(&log).is_sound(&pager));
    let mut state = log.persisted();
    state.active_segment.metadata.size += 1;
    let longer = AppendLog::open(
        TableId::from(1),
        "log".to_string(),
        root,
        AppendLogConfig::new(),
        state,
    );
    assert!(!longer.is_sound(&pager));
    pager.free_page(log.active_segment.flushed_pages()[0]).unwrap();
    assert!(!open(&log).is_sound(&pager));
}
