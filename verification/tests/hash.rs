use nanostore::hash::MemoryHashTable;
use nanostore::table::TableError;
use nanostore::types::{LogSequenceNumber, ScanBounds, TableId, TransactionId, ValueBuf};

#[test]
fn test_hash_table_basic_operations() {
    let mut table = MemoryHashTable::new(TableId::from(1), "test_hash".to_string());
    {
        let mut writer =
            table.writer(TransactionId::from(1), LogSequenceNumber::from(1)).unwrap();
        let bytes = writer.put(b"key1", b"value1").unwrap();
        assert!(bytes > 0);
        writer.flush().unwrap();
        writer.commit_versions(LogSequenceNumber::from(10)).unwrap();
    }

    let reader = table.reader(LogSequenceNumber::from(10)).unwrap();
    let value = reader.get(b"key1", LogSequenceNumber::from(10)).unwrap();
    assert_eq!(value, Some(ValueBuf(b"value1".to_vec())));

    {
        let mut writer =
            table.writer(TransactionId::from(2), LogSequenceNumber::from(2)).unwrap();
        assert!(writer.delete(b"key1").unwrap());
        writer.flush().unwrap();
        writer.commit_versions(LogSequenceNumber::from(20)).unwrap();
    }

    let reader = table.reader(LogSequenceNumber::from(20)).unwrap();
    let value = reader.get(b"key1", LogSequenceNumber::from(20)).unwrap();
    assert_eq!(value, None);
}

#[test]
fn test_hash_table_no_range_delete() {
    let mut table = MemoryHashTable::new(TableId::from(1), "test_hash".to_string());
    let mut writer = table.writer(TransactionId::from(1), LogSequenceNumber::from(1)).unwrap();

    let result = writer.range_delete(ScanBounds::All);
    assert!(result.is_err());
    assert_eq!(result.unwrap_err(), TableError::OperationNotSupported);
}

#[test]
fn plain_puts_are_committed_at_once() {
    let mut table = MemoryHashTable::new(TableId::from(1), "h".to_string());
    assert_eq!(
        table.put(b"k", b"abc", TransactionId::from(1), LogSequenceNumber::from(5)).unwrap(),
        20
    );
    assert_eq!(table.get(b"k", LogSequenceNumber::from(4)).unwrap(), None);
    assert_eq!(
        table.get(b"k", LogSequenceNumber::from(5)).unwrap(),
        Some(ValueBuf(b"abc".to_vec()))
    );
    table.put(b"k", b"de", TransactionId::from(2), LogSequenceNumber::from(8)).unwrap();
    assert_eq!(table.vacuum(LogSequenceNumber::from(9)).unwrap(), 1);
    assert_eq!(table.stats().unwrap().row_count, Some(1));
    assert!(table.delete(b"k").unwrap());
    assert!(!table.delete(b"k").unwrap());
}

#[test]
fn a_commit_takes_every_version_of_its_transaction() {
    let mut table = MemoryHashTable::new(TableId::from(1), "h".to_string());
    for (tx, value) in [(1u64, b"one"), (2, b"two")] {
        let mut writer =
            table.writer(TransactionId::from(tx), LogSequenceNumber::from(1)).unwrap();
        writer.put(b"k", value).unwrap();
        writer.flush().unwrap();
    }
    let lsn = LogSequenceNumber::from(5);
    table.writer(TransactionId::from(1), lsn).unwrap().commit_versions(lsn).unwrap();
    assert_eq!(table.get(b"k", lsn).unwrap(), Some(ValueBuf(b"one".to_vec())));
    let later = LogSequenceNumber::from(7);
    table.writer(TransactionId::from(2), later).unwrap().commit_versions(later).unwrap();
    assert_eq!(table.get(b"k", later).unwrap(), Some(ValueBuf(b"two".to_vec())));
}

#[test]
fn deleted_keys_are_missing_from_batches_too() {
    let mut table = MemoryHashTable::new(TableId::from(1), "h".to_string());
    let lsn = LogSequenceNumber::from;
    table.put(b"a", b"1", TransactionId::from(1), lsn(1)).unwrap();
    table.put(b"b", b"2", TransactionId::from(1), lsn(1)).unwrap();
    let mut writer = table.writer(TransactionId::from(2), lsn(2)).unwrap();
    writer.delete(b"a").unwrap();
    writer.flush().unwrap();
    writer.commit_versions(lsn(3)).unwrap();
    let keys: [&[u8]; 3] = [b"a", b"b", b"c"];
    assert_eq!(
        table.batch_get(&keys, lsn(3)).unwrap(),
        vec![None, Some(ValueBuf(b"2".to_vec())), None]
    );
}

#[test]
fn a_deletion_takes_back_a_put() {
    let mut table = MemoryHashTable::new(TableId::from(1), "h".to_string());
    let lsn = LogSequenceNumber::from;
    table.put(b"other", b"1", TransactionId::from(1), lsn(1)).unwrap();
    table.put(b"k", b"v", TransactionId::from(1), lsn(1)).unwrap();
    assert_eq!(table.get(b"k", lsn(1)).unwrap(), Some(ValueBuf(b"v".to_vec())));
    assert!(table.delete(b"k").unwrap());
    for l in 0..3u64 {
        assert_eq!(table.get(b"k", lsn(l)).unwrap(), None);
    }
    assert_eq!(table.get(b"other", lsn(1)).unwrap(), Some(ValueBuf(b"1".to_vec())));
    assert_eq!(table.stats().unwrap().row_count, Some(1));
}
