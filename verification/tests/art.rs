use nanostore::art::children::Children;
use nanostore::art::memory::MemoryART;
use nanostore::table::{Mutation, WriteBatch};
use nanostore::types::{
    Bound, KeyBuf, LogSequenceNumber, ScanBounds, TableId, TransactionId, ValueBuf,
};

fn new_table() -> MemoryART {
    MemoryART::new(TableId::from(1), "test_art".to_string())
}

#[test]
fn test_art_direct_insert_lookup() {
    let mut table = new_table();
    let tx_id = TransactionId::from(1);

    table.insert(b"key1", b"value1".to_vec(), tx_id);
    table.insert(b"key2", b"value2".to_vec(), tx_id);
    table.commit_all(LogSequenceNumber::from(10), tx_id);

    let lsn = LogSequenceNumber::from(20);
    assert_eq!(table.lookup(b"key1", lsn), Some(b"value1".to_vec()));
    assert_eq!(table.lookup(b"key2", lsn), Some(b"value2".to_vec()));
    assert_eq!(table.lookup(b"key3", lsn), None);
}

#[test]
fn test_art_writer_flush_lookup() {
    let mut table = new_table();
    let tx_id = TransactionId::from(1);
    let write_lsn = LogSequenceNumber::from(1);

    let mut writer = table.writer(tx_id, write_lsn).unwrap();
    writer.put(b"key1", b"value1").unwrap();
    writer.put(b"key2", b"value2").unwrap();
    writer.flush().unwrap();

    table.commit_all(LogSequenceNumber::from(10), tx_id);

    let lsn = LogSequenceNumber::from(20);
    assert_eq!(table.lookup(b"key1", lsn), Some(b"value1".to_vec()));
    assert_eq!(table.lookup(b"key2", lsn), Some(b"value2".to_vec()));
}

#[test]
fn test_art_collect_keys_prefix() {
    let mut table = new_table();
    let tx_id = TransactionId::from(1);

    table.insert(b"user:1", b"Alice".to_vec(), tx_id);
    table.insert(b"user:2", b"Bob".to_vec(), tx_id);
    table.insert(b"user:3", b"Charlie".to_vec(), tx_id);
    table.commit_all(LogSequenceNumber::from(10), tx_id);

    let read_lsn = LogSequenceNumber::from(20);
    let bounds = ScanBounds::Prefix(KeyBuf(b"user:".to_vec()));
    let entries = table.collect_keys_in_bounds(&bounds, read_lsn);
    assert_eq!(entries.len(), 3);
}

#[test]
fn test_art_three_then_one() {
    let mut table = new_table();
    let tx_id = TransactionId::from(1);

    table.insert(b"aa", b"val1".to_vec(), tx_id);
    table.insert(b"ab", b"val2".to_vec(), tx_id);
    table.insert(b"ac", b"val3".to_vec(), tx_id);
    table.commit_all(LogSequenceNumber::from(10), tx_id);

    let lsn1 = LogSequenceNumber::from(15);
    assert_eq!(table.lookup(b"aa", lsn1), Some(b"val1".to_vec()));
    assert_eq!(table.lookup(b"ab", lsn1), Some(b"val2".to_vec()));
    assert_eq!(table.lookup(b"ac", lsn1), Some(b"val3".to_vec()));

    table.insert(b"zz", b"val4".to_vec(), tx_id);
    table.commit_all(LogSequenceNumber::from(20), tx_id);

    let read_lsn = LogSequenceNumber::from(25);
    let entries = table.collect_keys_in_bounds(&ScanBounds::All, read_lsn);
    assert_eq!(entries.len(), 4);
    assert_eq!(table.lookup(b"aa", read_lsn), Some(b"val1".to_vec()));
    assert_eq!(table.lookup(b"ab", read_lsn), Some(b"val2".to_vec()));
    assert_eq!(table.lookup(b"ac", read_lsn), Some(b"val3".to_vec()));
    assert_eq!(table.lookup(b"zz", read_lsn), Some(b"val4".to_vec()));
}

#[test]
fn test_art_two_prefixes() {
    let mut table = new_table();
    let tx_id = TransactionId::from(1);

    table.insert(b"abc", b"val1".to_vec(), tx_id);
    table.insert(b"xyz", b"val2".to_vec(), tx_id);
    table.commit_all(LogSequenceNumber::from(10), tx_id);

    let read_lsn = LogSequenceNumber::from(20);
    let entries = table.collect_keys_in_bounds(&ScanBounds::All, read_lsn);
    assert_eq!(entries.len(), 2);
    assert_eq!(table.lookup(b"abc", read_lsn), Some(b"val1".to_vec()));
    assert_eq!(table.lookup(b"xyz", read_lsn), Some(b"val2".to_vec()));
}

#[test]
fn test_art_collect_keys_with_order() {
    let mut table = new_table();
    let tx_id = TransactionId::from(1);

    table.insert(b"user:1", b"Alice".to_vec(), tx_id);
    table.insert(b"user:2", b"Bob".to_vec(), tx_id);
    table.insert(b"user:3", b"Charlie".to_vec(), tx_id);
    table.insert(b"order:1", b"Order1".to_vec(), tx_id);
    table.commit_all(LogSequenceNumber::from(10), tx_id);

    let read_lsn = LogSequenceNumber::from(20);
    let entries = table.collect_keys_in_bounds(&ScanBounds::All, read_lsn);
    assert_eq!(entries.len(), 4);
    let keys: Vec<Vec<u8>> = entries.entries.into_iter().map(|e| e.0).collect();
    assert_eq!(keys[0], b"order:1".to_vec());
    assert_eq!(keys[3], b"user:3".to_vec());
}

#[test]
fn test_art_collect_keys() {
    let mut table = new_table();
    let tx_id = TransactionId::from(1);

    table.insert(b"user:1", b"Alice".to_vec(), tx_id);
    table.insert(b"user:2", b"Bob".to_vec(), tx_id);
    table.insert(b"user:3", b"Charlie".to_vec(), tx_id);
    table.commit_all(LogSequenceNumber::from(10), tx_id);

    let entries = table.collect_keys_in_bounds(&ScanBounds::All, LogSequenceNumber::from(20));
    assert_eq!(entries.len(), 3);
}

#[test]
fn test_art_prefix_scan_direct() {
    let mut table = new_table();
    let tx_id = TransactionId::from(1);

    table.insert(b"user:1", b"Alice".to_vec(), tx_id);
    table.insert(b"user:2", b"Bob".to_vec(), tx_id);
    table.insert(b"user:3", b"Charlie".to_vec(), tx_id);
    table.insert(b"order:1", b"Order1".to_vec(), tx_id);
    table.commit_all(LogSequenceNumber::from(10), tx_id);

    let read_lsn = LogSequenceNumber::from(20);
    let reader = table.reader(read_lsn).unwrap();
    let mut cursor = reader.scan_prefix(b"user:", read_lsn).unwrap();

    let mut count = 0;
    while cursor.valid() {
        count += 1;
        assert!(cursor.key().unwrap().starts_with(b"user:"));
        cursor.next().unwrap();
    }
    assert_eq!(count, 3);
}

#[test]
fn test_art_reader_get() {
    let mut table = new_table();
    let tx_id = TransactionId::from(1);
    let write_lsn = LogSequenceNumber::from(1);

    let mut writer = table.writer(tx_id, write_lsn).unwrap();
    writer.put(b"key1", b"value1").unwrap();
    writer.put(b"key2", b"value2").unwrap();
    writer.flush().unwrap();
    table.commit_all(LogSequenceNumber::from(10), tx_id);

    let read_lsn = LogSequenceNumber::from(20);
    let reader = table.reader(read_lsn).unwrap();
    assert_eq!(
        reader.get(b"key1", read_lsn).unwrap(),
        Some(ValueBuf(b"value1".to_vec()))
    );
    assert_eq!(
        reader.get(b"key2", read_lsn).unwrap(),
        Some(ValueBuf(b"value2".to_vec()))
    );
}

#[test]
fn test_art_basic_put_get() {
    let mut table = new_table();
    let tx_id = TransactionId::from(1);
    let write_lsn = LogSequenceNumber::from(1);

    let mut writer = table.writer(tx_id, write_lsn).unwrap();
    writer.put(b"key1", b"value1").unwrap();
    writer.put(b"key2", b"value2").unwrap();
    writer.flush().unwrap();
    table.commit_all(LogSequenceNumber::from(10), tx_id);

    let read_lsn = LogSequenceNumber::from(20);
    let reader = table.reader(read_lsn).unwrap();
    assert_eq!(
        reader.get(b"key1", read_lsn).unwrap(),
        Some(ValueBuf(b"value1".to_vec()))
    );
    assert_eq!(
        reader.get(b"key2", read_lsn).unwrap(),
        Some(ValueBuf(b"value2".to_vec()))
    );
    assert_eq!(reader.get(b"key3", read_lsn).unwrap(), None);
}

#[test]
fn test_art_prefix_scan() {
    let mut table = new_table();
    let tx_id = TransactionId::from(1);
    let write_lsn = LogSequenceNumber::from(1);

    let mut writer = table.writer(tx_id, write_lsn).unwrap();
    writer.put(b"user:1", b"Alice").unwrap();
    writer.put(b"user:2", b"Bob").unwrap();
    writer.put(b"user:3", b"Charlie").unwrap();
    writer.put(b"order:1", b"Order1").unwrap();
    writer.flush().unwrap();
    table.commit_all(LogSequenceNumber::from(10), tx_id);

    let read_lsn = LogSequenceNumber::from(20);
    let reader = table.reader(read_lsn).unwrap();
    let mut cursor = reader.scan_prefix(b"user:", read_lsn).unwrap();

    let mut count = 0;
    while cursor.valid() {
        count += 1;
        assert!(cursor.key().unwrap().starts_with(b"user:"));
        cursor.next().unwrap();
    }
    assert_eq!(count, 3);
}

#[test]
fn test_art_delete() {
    let mut table = new_table();
    let tx_id = TransactionId::from(1);
    let write_lsn = LogSequenceNumber::from(1);

    let mut writer = table.writer(tx_id, write_lsn).unwrap();
    writer.put(b"key1", b"value1").unwrap();
    writer.put(b"key2", b"value2").unwrap();
    writer.flush().unwrap();
    table.commit_all(LogSequenceNumber::from(10), tx_id);

    let mut writer = table.writer(tx_id, write_lsn).unwrap();
    writer.delete(b"key1").unwrap();
    writer.flush().unwrap();

    let read_lsn = LogSequenceNumber::from(30);
    let reader = table.reader(read_lsn).unwrap();
    assert_eq!(reader.get(b"key1", read_lsn).unwrap(), None);
    assert_eq!(
        reader.get(b"key2", read_lsn).unwrap(),
        Some(ValueBuf(b"value2".to_vec()))
    );
}

#[test]
fn test_art_node_growth() {
    let mut table = new_table();
    let tx_id = TransactionId::from(1);
    let write_lsn = LogSequenceNumber::from(1);

    let mut writer = table.writer(tx_id, write_lsn).unwrap();
    for i in 0..20 {
        let key = format!("key{:02}", i);
        writer.put(key.as_bytes(), b"value").unwrap();
    }
    writer.flush().unwrap();
    table.commit_all(LogSequenceNumber::from(10), tx_id);

    assert_eq!(table.count_leaves(), 20);
    let entries =
        table.collect_keys_in_bounds(&ScanBounds::All, LogSequenceNumber::from(u64::MAX));
    assert_eq!(entries.len(), 20);

    let read_lsn = LogSequenceNumber::from(20);
    assert_eq!(table.lookup(b"key00", read_lsn), Some(b"value".to_vec()));
    assert_eq!(table.lookup(b"key10", read_lsn), Some(b"value".to_vec()));
    assert_eq!(table.lookup(b"key19", read_lsn), Some(b"value".to_vec()));

    let reader = table.reader(read_lsn).unwrap();
    for i in 0..20 {
        let key = format!("key{:02}", i);
        let result = reader.get(key.as_bytes(), read_lsn).unwrap();
        assert_eq!(result, Some(ValueBuf(b"value".to_vec())), "Reader lookup {}", key);
    }
}

#[test]
fn test_art_capabilities() {
    let table = new_table();
    let caps = table.capabilities();
    assert!(caps.ordered);
    assert!(caps.point_lookup);
    assert!(caps.prefix_scan);
    assert!(caps.reverse_scan);
    assert!(caps.range_delete);
    assert!(caps.memory_resident);
    assert!(!caps.disk_resident);
}

#[test]
fn test_art_cursor_iteration() {
    let mut table = new_table();
    let tx_id = TransactionId::from(1);
    let write_lsn = LogSequenceNumber::from(1);

    let mut writer = table.writer(tx_id, write_lsn).unwrap();
    writer.put(b"a", b"1").unwrap();
    writer.put(b"b", b"2").unwrap();
    writer.put(b"c", b"3").unwrap();
    writer.flush().unwrap();
    table.commit_all(LogSequenceNumber::from(10), tx_id);

    let read_lsn = LogSequenceNumber::from(20);
    let reader = table.reader(read_lsn).unwrap();
    let mut cursor = reader.scan(ScanBounds::All, read_lsn).unwrap();

    assert!(cursor.valid());
    assert_eq!(cursor.key(), Some(b"a".as_ref()));
    cursor.next().unwrap();
    assert_eq!(cursor.key(), Some(b"b".as_ref()));
    cursor.next().unwrap();
    assert_eq!(cursor.key(), Some(b"c".as_ref()));
    cursor.next().unwrap();
    assert!(!cursor.valid());
}

#[test]
fn keys_that_are_prefixes_of_others_stay_apart() {
    let mut table = new_table();
    let tx = TransactionId::from(1);
    let keys: Vec<&[u8]> = vec![b"", b"a", b"a\0", b"ab", b"abc", b"abd", b"\0", b"b\0c"];
    for (i, key) in keys.iter().enumerate() {
        table.insert(key, vec![i as u8], tx);
    }
    table.commit_all(LogSequenceNumber::from(1), tx);
    for (i, key) in keys.iter().enumerate() {
        assert_eq!(table.lookup(key, LogSequenceNumber::from(1)), Some(vec![i as u8]));
    }
    assert_eq!(table.count_leaves(), 8);
    assert!(table.delete(b"a"));
    assert!(!table.delete(b"a"));
    assert_eq!(table.lookup(b"a", LogSequenceNumber::from(1)), None);
    assert_eq!(table.lookup(b"ab", LogSequenceNumber::from(1)), Some(vec![3]));
    for key in [b"".as_slice(), b"a\0", b"ab", b"abc", b"abd", b"\0", b"b\0c"] {
        assert!(table.delete(key));
    }
    assert_eq!(table.count_leaves(), 0);
    assert_eq!(table.memory_usage, 0);
}

#[test]
fn nodes_grow_through_all_layouts_and_shrink_again() {
    let mut kids: Children<u32> = Children::new_node4();
    for b in 0..=255u8 {
        kids = kids.put(b, b as u32 + 1000);
    }
    assert!(matches!(kids, Children::Node256 { .. }));
    assert_eq!(kids.count(), 256);
    for b in 0..=255u8 {
        assert_eq!(kids.find_child(b), Some(&(b as u32 + 1000)));
    }
    for b in 3..=255u8 {
        let (rest, child) = kids.remove_child(b);
        assert_eq!(child, Some(b as u32 + 1000));
        kids = rest.shrink();
    }
    assert!(matches!(kids, Children::Node4 { .. }));
    assert_eq!(kids.count(), 3);
    assert_eq!(kids.find_child(2), Some(&1002));
    assert_eq!(kids.find_child(3), None);
}

#[test]
fn many_keys_come_back_in_order() {
    let mut table = new_table();
    let tx = TransactionId::from(1);
    for i in 0..300u32 {
        let n = (i * 7919) % 300;
        table.insert(&n.to_be_bytes(), n.to_le_bytes().to_vec(), tx);
    }
    table.commit_all(LogSequenceNumber::from(5), tx);
    let reader = table.reader(LogSequenceNumber::from(5)).unwrap();
    let bounds = ScanBounds::Range {
        start: Bound::Included(KeyBuf(10u32.to_be_bytes().to_vec())),
        end: Bound::Excluded(KeyBuf(20u32.to_be_bytes().to_vec())),
    };
    let mut cursor = reader.scan(bounds, LogSequenceNumber::from(5)).unwrap();
    for n in 10..20u32 {
        assert_eq!(cursor.key(), Some(n.to_be_bytes().as_ref()));
        assert_eq!(cursor.value(), Some(n.to_le_bytes().as_ref()));
        cursor.next().unwrap();
    }
    assert!(!cursor.valid());
    cursor.seek(&15u32.to_be_bytes()).unwrap();
    assert_eq!(cursor.key(), Some(15u32.to_be_bytes().as_ref()));
    cursor.seek_for_prev(&[0, 0, 0, 15, 1]).unwrap();
    assert_eq!(cursor.key(), Some(15u32.to_be_bytes().as_ref()));
    cursor.prev().unwrap();
    assert_eq!(cursor.key(), Some(14u32.to_be_bytes().as_ref()));
    cursor.last().unwrap();
    assert_eq!(cursor.key(), Some(19u32.to_be_bytes().as_ref()));
    cursor.first().unwrap();
    assert_eq!(cursor.key(), Some(10u32.to_be_bytes().as_ref()));
    assert_eq!(reader.approximate_len().unwrap(), Some(300));
}

#[test]
fn batches_and_range_deletions_are_counted() {
    let mut table = new_table();
    let tx = TransactionId::from(1);
    for key in [b"a".as_slice(), b"b", b"c"] {
        table.insert(key, b"v".to_vec(), tx);
    }
    table.commit_all(LogSequenceNumber::from(1), tx);
    let mut writer = table.writer(TransactionId::from(2), LogSequenceNumber::from(1)).unwrap();
    let report = writer
        .apply_batch(WriteBatch {
            mutations: vec![
                Mutation::Put { key: b"d".to_vec(), value: b"xyz".to_vec() },
                Mutation::Delete { key: b"a".to_vec() },
                Mutation::Delete { key: b"nothing".to_vec() },
                Mutation::RangeDelete { bounds: ScanBounds::Prefix(KeyBuf(b"b".to_vec())) },
            ],
        })
        .unwrap();
    assert_eq!(report.attempted, 4);
    assert_eq!(report.applied, 4);
    assert_eq!(report.deleted, 2);
    assert_eq!(report.bytes_written, 4);
    writer.flush().unwrap();
    writer.commit_versions(LogSequenceNumber::from(2)).unwrap();
    let found = writer.batch_get(&[b"a".as_slice(), b"c"]).unwrap();
    assert_eq!(found, vec![None, Some(ValueBuf(b"v".to_vec()))]);
    assert_eq!(table.lookup(b"b", LogSequenceNumber::from(9)), None);
    assert_eq!(table.lookup(b"d", LogSequenceNumber::from(2)), Some(b"xyz".to_vec()));
}

#[test]
fn vacuum_keeps_one_base_version() {
    let mut table = new_table();
    for n in 1..=4u64 {
        let tx = TransactionId::from(n);
        table.insert(b"k", vec![n as u8], tx);
        table.commit_all(LogSequenceNumber::from(n * 10), tx);
    }
    assert_eq!(table.vacuum(LogSequenceNumber::from(35)).unwrap(), 2);
    assert_eq!(table.lookup(b"k", LogSequenceNumber::from(35)), Some(vec![3]));
    assert_eq!(table.lookup(b"k", LogSequenceNumber::from(40)), Some(vec![4]));
    assert_eq!(table.vacuum(LogSequenceNumber::from(35)).unwrap(), 0);
}

#[test]
fn a_vacuum_keeps_scans() {
    let mut table = new_table();
    for n in 1..=4u64 {
        let tx = TransactionId::from(n);
        for key in [b"ab".as_slice(), b"abc", b"b"] {
            table.insert(key, vec![n as u8], tx);
        }
        table.commit_all(LogSequenceNumber::from(n * 10), tx);
    }
    let bounds = ScanBounds::Prefix(KeyBuf(b"ab".to_vec()));
    let scanned = |table: &MemoryART, lsn: u64| {
        let found = table.collect_keys_in_bounds(&bounds, LogSequenceNumber::from(lsn));
        found.entries.iter().map(|e| (e.0.clone(), e.1.clone())).collect::<Vec<_>>()
    };
    let before: Vec<_> = [25u64, 30, 99].iter().map(|l| scanned(&table, *l)).collect();
    assert_eq!(before[0], vec![(b"ab".to_vec(), vec![2]), (b"abc".to_vec(), vec![2])]);
    assert_eq!(table.vacuum(LogSequenceNumber::from(25)).unwrap(), 3);
    let after: Vec<_> = [25u64, 30, 99].iter().map(|l| scanned(&table, *l)).collect();
    assert_eq!(after, before);
    assert_eq!(table.vacuum(LogSequenceNumber::from(25)).unwrap(), 0);
}

#[test]
fn a_commit_takes_every_version_of_its_transaction_in_a_trie() {
    let mut table = new_table();
    table.insert(b"k", b"one".to_vec(), TransactionId::from(1));
    table.insert(b"k", b"two".to_vec(), TransactionId::from(2));
    table.commit_all(LogSequenceNumber::from(5), TransactionId::from(1));
    assert_eq!(table.lookup(b"k", LogSequenceNumber::from(5)), Some(b"one".to_vec()));
    table.commit_all(LogSequenceNumber::from(7), TransactionId::from(2));
    assert_eq!(table.lookup(b"k", LogSequenceNumber::from(7)), Some(b"two".to_vec()));
    assert_eq!(table.lookup(b"k", LogSequenceNumber::from(6)), Some(b"one".to_vec()));
}
