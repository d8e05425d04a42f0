use nanostore::btree::memory::MemoryBTree;
use nanostore::btree::node::{BTreeNode, InternalEntry, LeafEntry, NodeType, PageVersion};
use nanostore::btree::paged::{PagedBTree, PathEntry};
use nanostore::overflow::ValueRef;
use nanostore::pager::{PageId, PageSize, PageType, Pager, PagerError};
use nanostore::stream::{SliceValueStream, ValueStream};
use nanostore::table::{Corruption, Mutation, TableError, TableResult, WriteBatch};
use nanostore::txn::VersionChain;
use nanostore::types::{
    Bound, KeyBuf, LogSequenceNumber, ScanBounds, TableId, TransactionId, ValueBuf,
};
use nanostore::wire::{read_chain, write_chain};

#[test]
fn test_basic_operations() {
    let mut table = MemoryBTree::new(TableId::from(1), "test".to_string());
    let tx_id = TransactionId::from(1);
    let write_lsn = LogSequenceNumber::from(1);

    let mut writer = table.writer(tx_id, write_lsn).unwrap();
    writer.put(b"key1", b"value1").unwrap();
    writer.put(b"key2", b"value2").unwrap();
    writer.flush().unwrap();

    for (_, chain) in table.data.entries.iter_mut() {
        chain.commit(LogSequenceNumber::from(10));
    }

    let read_lsn = LogSequenceNumber::from(20);
    let reader = table.reader(read_lsn).unwrap();
    assert_eq!(
        reader.get(b"key1", read_lsn).unwrap(),
        Some(ValueBuf(b"value1".to_vec()))
    );
    assert_eq!(
        reader.get(b"key2", read_lsn).unwrap(),
        Some(ValueBuf(b"value2".to_vec()))
    );
    assert_eq!(reader.get(b"key3", read_lsn).unwrap(), None);
}

#[test]
fn test_cursor_iteration() {
    let mut table = MemoryBTree::new(TableId::from(1), "test".to_string());
    let tx_id = TransactionId::from(1);
    let write_lsn = LogSequenceNumber::from(1);

    let mut writer = table.writer(tx_id, write_lsn).unwrap();
    writer.put(b"a", b"1").unwrap();
    writer.put(b"b", b"2").unwrap();
    writer.put(b"c", b"3").unwrap();
    writer.flush().unwrap();

    for (_, chain) in table.data.entries.iter_mut() {
        chain.commit(LogSequenceNumber::from(10));
    }

    let read_lsn = LogSequenceNumber::from(20);
    let reader = table.reader(read_lsn).unwrap();
    let mut cursor = reader.scan(ScanBounds::All, read_lsn).unwrap();

    assert!(cursor.valid());
    assert_eq!(cursor.key(), Some(b"a".as_ref()));
    assert_eq!(cursor.value(), Some(b"1".as_ref()));

    cursor.next().unwrap();
    assert_eq!(cursor.key(), Some(b"b".as_ref()));

    cursor.next().unwrap();
    assert_eq!(cursor.key(), Some(b"c".as_ref()));

    cursor.next().unwrap();
    assert!(!cursor.valid());
}

#[test]
fn test_range_scan() {
    let mut table = MemoryBTree::new(TableId::from(1), "test".to_string());
    let tx_id = TransactionId::from(1);
    let write_lsn = LogSequenceNumber::from(1);

    let mut writer = table.writer(tx_id, write_lsn).unwrap();
    for i in 0..10 {
        let key = format!("key{:02}", i);
        let value = format!("value{}", i);
        writer.put(key.as_bytes(), value.as_bytes()).unwrap();
    }
    writer.flush().unwrap();

    for (_, chain) in table.data.entries.iter_mut() {
        chain.commit(LogSequenceNumber::from(10));
    }

    let read_lsn = LogSequenceNumber::from(20);
    let reader = table.reader(read_lsn).unwrap();
    let bounds = ScanBounds::Range {
        start: Bound::Included(KeyBuf(b"key03".to_vec())),
        end: Bound::Excluded(KeyBuf(b"key07".to_vec())),
    };
    let mut cursor = reader.scan(bounds, read_lsn).unwrap();

    let mut count = 0;
    while cursor.valid() {
        count += 1;
        cursor.next().unwrap();
    }
    assert_eq!(count, 4);
}

#[test]
fn test_node_serialization() {
    let mut internal = BTreeNode::new_internal();
    if let BTreeNode::Internal { entries, rightmost_child, .. } = &mut internal {
        entries.push(InternalEntry { key: b"key1".to_vec(), child_page_id: PageId::from(10) });
        *rightmost_child = PageId::from(20);
    }

    let bytes = internal.to_bytes();
    let deserialized = BTreeNode::from_bytes(&bytes).unwrap();
    assert_eq!(deserialized.node_type(), NodeType::Internal);
    assert_eq!(deserialized.key_count(), 1);

    let mut leaf = BTreeNode::new_leaf();
    if let BTreeNode::Leaf { entries, .. } = &mut leaf {
        entries.push(LeafEntry {
            key: b"key1".to_vec(),
            chain: VersionChain::new(b"value1".to_vec(), TransactionId::from(1)),
        });
    }

    let bytes = leaf.to_bytes();
    let deserialized = BTreeNode::from_bytes(&bytes).unwrap();
    assert_eq!(deserialized.node_type(), NodeType::Leaf);
    assert_eq!(deserialized.key_count(), 1);
    if let BTreeNode::Leaf { entries, .. } = deserialized {
        assert_eq!(entries[0].chain.value, b"value1".to_vec());
        assert_eq!(entries[0].chain.created_by, TransactionId::from(1));
    }
}

#[test]
fn test_statistics_collection() {
    let mut pager = Pager::create(PageSize::default());
    let btree =
        PagedBTree::new(TableId::from(1), "test_table".to_string(), &mut pager).unwrap();

    let stats = btree.stats(&pager).unwrap();

    assert_eq!(stats.row_count, Some(0), "Empty tree should have 0 rows");
    assert!(stats.total_size_bytes.is_some(), "Total size should be set");
    assert!(
        stats.total_size_bytes.unwrap() > 0,
        "Total size should include at least root page"
    );
    assert!(stats.key_stats.is_some(), "Key stats should be set");
    assert!(stats.value_stats.is_some(), "Value stats should be set");
}

#[test]
fn bad_nodes_are_refused() {
    assert_eq!(
        BTreeNode::from_bytes(&[]).err(),
        Some(TableError::Corruption(Corruption::EmptyNode))
    );
    assert_eq!(
        BTreeNode::from_bytes(&[9, 0, 0, 0, 0, 0, 0, 0, 0, 0, 0, 0, 0]).err(),
        Some(TableError::Corruption(Corruption::InvalidNodeType(9)))
    );
    let mut bytes = BTreeNode::new_internal().to_bytes();
    bytes.truncate(5);
    assert!(BTreeNode::from_bytes(&bytes).is_err());
}

#[test]
fn a_paged_tree_splits_and_keeps_every_key() {
    let mut pager = Pager::create(PageSize::Size4KB);
    let mut tree = PagedBTree::new(TableId::from(1), "t".to_string(), &mut pager).unwrap();
    let tx = TransactionId::from(1);
    {
        let mut writer = tree.writer(&mut pager, tx, LogSequenceNumber::from(0)).unwrap();
        for i in 0..600u32 {
            let n = (i * 7919) % 600;
            let key = format!("key{:05}", n);
            let value = format!("value-{}-{}", n, "x".repeat(40));
            writer.put(key.as_bytes(), value.as_bytes()).unwrap();
        }
        writer.flush().unwrap();
        writer.commit_versions(LogSequenceNumber::from(10)).unwrap();
    }
    let read = LogSequenceNumber::from(10);
    {
        let reader = tree.reader(&pager, read).unwrap();
        for n in 0..600u32 {
            let key = format!("key{:05}", n);
            let value = format!("value-{}-{}", n, "x".repeat(40));
            assert_eq!(
                reader.get(key.as_bytes(), read).unwrap(),
                Some(ValueBuf(value.into_bytes()))
            );
        }
        assert_eq!(reader.get(b"nothing", read).unwrap(), None);
        assert_eq!(reader.get(b"key00001", LogSequenceNumber::from(9)).unwrap(), None);
        let mut cursor = reader.scan(ScanBounds::All, read).unwrap();
        cursor.first().unwrap();
        for n in 0..600u32 {
            assert_eq!(cursor.key(), Some(format!("key{:05}", n).as_bytes()));
            cursor.next().unwrap();
        }
        assert!(!cursor.valid());
        cursor.seek(b"key00300").unwrap();
        assert_eq!(cursor.key(), Some(b"key00300".as_ref()));
        cursor.prev().unwrap();
        assert_eq!(cursor.key(), Some(b"key00299".as_ref()));
        cursor.last().unwrap();
        assert_eq!(cursor.key(), Some(b"key00599".as_ref()));
        cursor.seek_for_prev(b"key00123x").unwrap();
        assert_eq!(cursor.key(), Some(b"key00123".as_ref()));
    }
    let sums = tree.collect_tree_statistics(&pager).unwrap();
    assert_eq!(sums.row_count, 600);
    assert!(sums.leaf_node_count > 1);
    assert_eq!(tree.count_entries(&pager).unwrap(), 600);
    assert!(tree.verify(&pager).unwrap().errors.is_empty());

    let reopened = PagedBTree::open(
        TableId::from(1),
        "t".to_string(),
        &pager,
        tree.get_root_page_id(),
    );
    let found = reopened.get_internal(&pager, b"key00042", read).unwrap();
    assert!(found.is_some());
}

#[test]
fn deletions_and_ranges_in_a_paged_tree() {
    let mut pager = Pager::create(PageSize::Size4KB);
    let mut tree = PagedBTree::new(TableId::from(1), "t".to_string(), &mut pager).unwrap();
    {
        let mut writer =
            tree.writer(&mut pager, TransactionId::from(1), LogSequenceNumber::from(0)).unwrap();
        for key in [b"a".as_slice(), b"b", b"c", b"d"] {
            writer.put(key, b"v").unwrap();
        }
        writer.flush().unwrap();
        writer.commit_versions(LogSequenceNumber::from(1)).unwrap();
    }
    {
        let mut writer =
            tree.writer(&mut pager, TransactionId::from(2), LogSequenceNumber::from(1)).unwrap();
        assert!(writer.delete(b"a").unwrap());
        assert!(!writer.delete(b"zzz").unwrap());
        let bounds = ScanBounds::Range {
            start: Bound::Included(KeyBuf(b"c".to_vec())),
            end: Bound::Unbounded,
        };
        assert_eq!(writer.range_delete(bounds).unwrap(), 2);
        writer.flush().unwrap();
        writer.commit_versions(LogSequenceNumber::from(2)).unwrap();
    }
    let reader = tree.reader(&pager, LogSequenceNumber::from(2)).unwrap();
    let at = LogSequenceNumber::from(2);
    assert_eq!(reader.get(b"a", at).unwrap(), None);
    assert_eq!(reader.get(b"b", at).unwrap(), Some(ValueBuf(b"v".to_vec())));
    assert_eq!(reader.get(b"c", at).unwrap(), None);
    assert_eq!(reader.get(b"d", at).unwrap(), None);
}

#[test]
fn large_values_go_to_overflow_pages_and_come_back() {
    let mut pager = Pager::create(PageSize::Size4KB);
    let mut tree = PagedBTree::new(TableId::from(1), "t".to_string(), &mut pager).unwrap();
    let value: Vec<u8> = (0..20000u32).map(|i| (i % 251) as u8).collect();
    {
        let mut writer =
            tree.writer(&mut pager, TransactionId::from(1), LogSequenceNumber::from(0)).unwrap();
        let mut stream = SliceValueStream::new(value.clone());
        let counted = writer.put_stream(b"big", &mut stream).unwrap();
        assert!(counted >= 20000);
        writer.flush().unwrap();
        writer.commit_versions(LogSequenceNumber::from(1)).unwrap();
    }
    let at = LogSequenceNumber::from(1);
    let reader = tree.reader(&pager, at).unwrap();
    assert_eq!(reader.get(b"big", at).unwrap(), Some(ValueBuf(value.clone())));
    let mut stream = reader.get_stream(b"big", at).unwrap().unwrap();
    assert_eq!(stream.size_hint(), Some(20000));
    let mut buffer = vec![0u8; 7000];
    let mut collected = Vec::new();
    loop {
        let n = stream.read(&mut buffer).unwrap();
        if n == 0 {
            break;
        }
        collected.extend_from_slice(&buffer[..n]);
    }
    assert_eq!(collected, value);
}

#[test]
fn references_are_read_back_from_their_bytes() {
    let references = [
        ValueRef::Inline,
        ValueRef::SinglePage { page_id: 7, offset: 9, length: 300 },
        ValueRef::OverflowChain { first_page_id: 3, total_length: 1 << 40, page_count: 12 },
    ];
    for r in references {
        assert_eq!(ValueRef::decode(&r.encode()).unwrap(), r);
    }
    assert_eq!(
        ValueRef::decode(b"xx").err(),
        Some(TableError::Corruption(Corruption::InvalidValueRef))
    );
}

#[test]
fn batches_in_a_paged_tree_are_counted() {
    let mut pager = Pager::create(PageSize::Size4KB);
    let mut tree = PagedBTree::new(TableId::from(1), "t".to_string(), &mut pager).unwrap();
    let mut writer =
        tree.writer(&mut pager, TransactionId::from(1), LogSequenceNumber::from(0)).unwrap();
    let report = writer
        .apply_batch(WriteBatch {
            mutations: vec![
                Mutation::Put { key: b"k".to_vec(), value: b"value".to_vec() },
                Mutation::Delete { key: b"missing".to_vec() },
            ],
        })
        .unwrap();
    assert_eq!(report.attempted, 2);
    assert_eq!(report.bytes_written, 6);
    assert_eq!(report.deleted, 0);
}

#[test]
fn vacuum_in_a_paged_tree_keeps_reads() {
    let mut pager = Pager::create(PageSize::Size4KB);
    let mut tree = PagedBTree::new(TableId::from(1), "t".to_string(), &mut pager).unwrap();
    for n in 1..=3u64 {
        let mut writer = tree
            .writer(&mut pager, TransactionId::from(n), LogSequenceNumber::from(n))
            .unwrap();
        writer.put(b"k", &[n as u8]).unwrap();
        writer.flush().unwrap();
        writer.commit_versions(LogSequenceNumber::from(n * 10)).unwrap();
    }
    assert_eq!(tree.vacuum(&mut pager, LogSequenceNumber::from(25)).unwrap(), 1);
    let reader = tree.reader(&pager, LogSequenceNumber::from(25)).unwrap();
    assert_eq!(
        reader.get(b"k", LogSequenceNumber::from(25)).unwrap(),
        Some(ValueBuf(vec![2]))
    );
    assert_eq!(
        reader.get(b"k", LogSequenceNumber::from(30)).unwrap(),
        Some(ValueBuf(vec![3]))
    );
}

#[test]
fn an_index_entry_points_at_its_primary_key() {
    let mut table = MemoryBTree::new(TableId::from(1), "index".to_string());
    let tx = TransactionId::from(1);
    let lsn = LogSequenceNumber::from(1);
    table.insert_entry(b"name:ann", b"pk1", tx, lsn).unwrap();
    table.insert_entry(b"name:bob", b"pk2", tx, lsn).unwrap();
    let mut cursor = table.scan(ScanBounds::All).unwrap();
    assert_eq!(cursor.index_key(), Some(b"name:ann".as_ref()));
    assert_eq!(cursor.primary_key(), Some(b"pk1".as_ref()));
    cursor.next().unwrap();
    assert_eq!(cursor.primary_key(), Some(b"pk2".as_ref()));
    drop(cursor);
    table.delete_entry(b"name:ann", b"other", tx, lsn).unwrap();
    assert_eq!(table.data.len(), 2);
    table.delete_entry(b"name:ann", b"pk1", tx, lsn).unwrap();
    assert_eq!(table.data.len(), 1);
}

#[test]
fn scans_of_a_paged_tree_leave_out_nothing() {
    let mut pager = Pager::create(PageSize::Size4KB);
    let mut tree = PagedBTree::new(TableId::from(1), "t".to_string(), &mut pager).unwrap();
    {
        let mut writer =
            tree.writer(&mut pager, TransactionId::from(1), LogSequenceNumber::from(0)).unwrap();
        for i in 0..400u32 {
            let key = format!("{}{:04}", if i % 2 == 0 { "a" } else { "b" }, i);
            writer.put(key.as_bytes(), &[7u8; 40]).unwrap();
        }
        writer.flush().unwrap();
        writer.commit_versions(LogSequenceNumber::from(1)).unwrap();
    }
    let lsn = LogSequenceNumber::from(5);
    let listed = |bounds: ScanBounds| -> Vec<String> {
        let reader = tree.reader(&pager, lsn).unwrap();
        let mut cursor = reader.scan(bounds, lsn).unwrap();
        let mut keys = Vec::new();
        while cursor.valid() {
            keys.push(String::from_utf8(cursor.key().unwrap().to_vec()).unwrap());
            assert_eq!(cursor.value(), Some([7u8; 40].as_slice()));
            cursor.next().unwrap();
        }
        keys
    };
    let mut all: Vec<String> = (0..400u32)
        .map(|i| format!("{}{:04}", if i % 2 == 0 { "a" } else { "b" }, i))
        .collect();
    all.sort();
    assert_eq!(listed(ScanBounds::All), all);
    let some: Vec<String> = all.iter().filter(|k| k.starts_with("b01")).cloned().collect();
    assert_eq!(some.len(), 50);
    assert_eq!(listed(ScanBounds::Prefix(KeyBuf(b"b01".to_vec()))), some);
    let bounds = ScanBounds::Range {
        start: Bound::Excluded(KeyBuf(b"a0100".to_vec())),
        end: Bound::Included(KeyBuf(b"a0110".to_vec())),
    };
    assert_eq!(listed(bounds), vec!["a0102", "a0104", "a0106", "a0108", "a0110"]);
    let bounds = ScanBounds::Range {
        start: Bound::Included(KeyBuf(b"b".to_vec())),
        end: Bound::Excluded(KeyBuf(b"a".to_vec())),
    };
    assert_eq!(listed(bounds), Vec::<String>::new());
}

#[test]
fn deletions_in_memory_wait_for_their_commit() {
    let mut table = MemoryBTree::new(TableId::from(1), "t".to_string());
    let at = LogSequenceNumber::from;
    let mut writer = table.writer(TransactionId::from(1), at(1)).unwrap();
    writer.put(b"k", b"v").unwrap();
    writer.flush().unwrap();
    writer.commit_versions(at(10)).unwrap();
    let mut writer = table.writer(TransactionId::from(2), at(11)).unwrap();
    assert!(writer.delete(b"k").unwrap());
    writer.flush().unwrap();
    let reader = table.reader(at(15)).unwrap();
    assert_eq!(reader.get(b"k", at(15)).unwrap(), Some(ValueBuf(b"v".to_vec())));
    let mut writer = table.writer(TransactionId::from(2), at(11)).unwrap();
    writer.commit_versions(at(20)).unwrap();
    let reader = table.reader(at(20)).unwrap();
    assert_eq!(reader.get(b"k", at(20)).unwrap(), None);
    assert_eq!(reader.get(b"k", at(19)).unwrap(), Some(ValueBuf(b"v".to_vec())));
    assert!(!reader.scan(ScanBounds::All, at(20)).unwrap().valid());
}

#[test]
fn a_commit_in_memory_takes_every_version_of_its_transaction() {
    let mut table = MemoryBTree::new(TableId::from(1), "t".to_string());
    let at = LogSequenceNumber::from;
    for (tx, value) in [(1u64, b"one"), (2, b"two")] {
        let mut writer = table.writer(TransactionId::from(tx), at(1)).unwrap();
        writer.put(b"k", value).unwrap();
        writer.flush().unwrap();
    }
    let mut writer = table.writer(TransactionId::from(1), at(1)).unwrap();
    writer.commit_versions(at(5)).unwrap();
    let reader = table.reader(at(5)).unwrap();
    assert_eq!(reader.get(b"k", at(5)).unwrap(), Some(ValueBuf(b"one".to_vec())));
}

#[test]
fn a_vacuum_in_memory_keeps_reads_and_scans() {
    let mut table = MemoryBTree::new(TableId::from(1), "t".to_string());
    let at = LogSequenceNumber::from;
    for n in 1..=4u64 {
        let mut writer = table.writer(TransactionId::from(n), at(n)).unwrap();
        writer.put(b"a", &[n as u8]).unwrap();
        if n % 2 == 1 {
            writer.put(b"b", &[n as u8]).unwrap();
        }
        writer.flush().unwrap();
        writer.commit_versions(at(10 * n)).unwrap();
    }
    let scanned = |table: &MemoryBTree, lsn: u64| {
        let reader = table.reader(at(lsn)).unwrap();
        let mut cursor = reader.scan(ScanBounds::All, at(lsn)).unwrap();
        let mut out: Vec<(Vec<u8>, Vec<u8>)> = Vec::new();
        while cursor.valid() {
            out.push((cursor.key().unwrap().to_vec(), cursor.value().unwrap().to_vec()));
            cursor.next().unwrap();
        }
        out
    };
    let before: Vec<_> = [35u64, 40, 99].iter().map(|l| scanned(&table, *l)).collect();
    assert_eq!(before[0], vec![(b"a".to_vec(), vec![3]), (b"b".to_vec(), vec![3])]);
    assert_eq!(table.vacuum(at(35)).unwrap(), 3);
    let after: Vec<_> = [35u64, 40, 99].iter().map(|l| scanned(&table, *l)).collect();
    assert_eq!(after, before);
    assert_eq!(table.data.entries.len(), 2);
    assert_eq!(table.vacuum(at(35)).unwrap(), 0);
}

struct FailingStream;

impl ValueStream for FailingStream {
    fn read(&mut self, _buf: &mut [u8]) -> TableResult<usize> {
        Err(TableError::OperationNotSupported)
    }

    fn size_hint(&self) -> Option<u64> {
        None
    }
}

#[test]
fn errors_of_a_stream_come_back() {
    let mut table = MemoryBTree::new(TableId::from(1), "t".to_string());
    let mut writer = table.writer(TransactionId::from(1), LogSequenceNumber::from(1)).unwrap();
    assert_eq!(
        writer.put_stream(b"k", &mut FailingStream).unwrap_err(),
        TableError::OperationNotSupported
    );
    let mut pager = Pager::create(PageSize::Size4KB);
    let mut tree = PagedBTree::new(TableId::from(1), "t".to_string(), &mut pager).unwrap();
    let mut writer =
        tree.writer(&mut pager, TransactionId::from(1), LogSequenceNumber::from(0)).unwrap();
    assert_eq!(
        writer.put_stream(b"k", &mut FailingStream).unwrap_err(),
        TableError::OperationNotSupported
    );
}

#[test]
fn replaced_values_stay_for_earlier_readers() {
    let mut pager = Pager::create(PageSize::Size4KB);
    let mut tree = PagedBTree::new(TableId::from(1), "t".to_string(), &mut pager).unwrap();
    let at = LogSequenceNumber::from;
    for n in 1..=2u64 {
        let mut writer = tree.writer(&mut pager, TransactionId::from(n), at(0)).unwrap();
        writer.put_stream(b"k", &mut SliceValueStream::new(vec![n as u8; 20000])).unwrap();
        writer.flush().unwrap();
        writer.commit_versions(at(10 * n)).unwrap();
    }
    let reader = tree.reader(&pager, at(20)).unwrap();
    assert_eq!(reader.get(b"k", at(10)).unwrap(), Some(ValueBuf(vec![1; 20000])));
    assert_eq!(reader.get(b"k", at(20)).unwrap(), Some(ValueBuf(vec![2; 20000])));
}

fn filled(keys: &[&[u8]]) -> MemoryBTree {
    let mut table = MemoryBTree::new(TableId::from(1), "t".to_string());
    let mut writer =
        table.writer(TransactionId::from(1), LogSequenceNumber::from(1)).unwrap();
    for key in keys {
        writer.put(key, b"v").unwrap();
    }
    writer.flush().unwrap();
    writer.commit_versions(LogSequenceNumber::from(2)).unwrap();
    table
}

fn keys_within(table: &MemoryBTree, bounds: ScanBounds, lsn: u64) -> Vec<Vec<u8>> {
    let at = LogSequenceNumber::from(lsn);
    let reader = table.reader(at).unwrap();
    let mut cursor = reader.scan(bounds, at).unwrap();
    let mut keys = Vec::new();
    while cursor.valid() {
        keys.push(cursor.key().unwrap().to_vec());
        cursor.next().unwrap();
    }
    keys
}

fn last_within(table: &MemoryBTree, bounds: ScanBounds) -> Option<Vec<u8>> {
    let at = LogSequenceNumber::from(2);
    let reader = table.reader(at).unwrap();
    let mut cursor = reader.scan(bounds, at).unwrap();
    cursor.last().unwrap();
    cursor.key().map(|k| k.to_vec())
}

#[test]
fn empty_values_in_memory_are_values() {
    let mut table = MemoryBTree::new(TableId::from(1), "t".to_string());
    let at = LogSequenceNumber::from;
    let mut writer = table.writer(TransactionId::from(1), at(1)).unwrap();
    writer.put(b"e", b"").unwrap();
    writer.flush().unwrap();
    writer.commit_versions(at(2)).unwrap();
    let reader = table.reader(at(2)).unwrap();
    assert_eq!(reader.get(b"e", at(2)).unwrap(), Some(ValueBuf(vec![])));
    assert_eq!(keys_within(&table, ScanBounds::All, 2), vec![b"e".to_vec()]);
    let mut writer = table.writer(TransactionId::from(2), at(3)).unwrap();
    assert!(writer.delete(b"e").unwrap());
    writer.flush().unwrap();
    writer.commit_versions(at(4)).unwrap();
    let reader = table.reader(at(4)).unwrap();
    assert_eq!(reader.get(b"e", at(4)).unwrap(), None);
    assert_eq!(reader.get(b"e", at(3)).unwrap(), Some(ValueBuf(vec![])));
    assert!(keys_within(&table, ScanBounds::All, 4).is_empty());
}

#[test]
fn scans_in_memory_keep_to_their_bounds() {
    let table = filled(&[b"a", b"b", b"c", b"d"]);
    let key = |k: &[u8]| KeyBuf(k.to_vec());
    let open = ScanBounds::Range {
        start: Bound::Excluded(key(b"a")),
        end: Bound::Excluded(key(b"d")),
    };
    assert_eq!(keys_within(&table, open.clone(), 2), vec![b"b".to_vec(), b"c".to_vec()]);
    assert_eq!(last_within(&table, open), Some(b"c".to_vec()));
    let closed = ScanBounds::Range {
        start: Bound::Included(key(b"b")),
        end: Bound::Included(key(b"c")),
    };
    assert_eq!(keys_within(&table, closed.clone(), 2), vec![b"b".to_vec(), b"c".to_vec()]);
    assert_eq!(last_within(&table, closed), Some(b"c".to_vec()));
    let table = filled(&[&[1, 0xff], &[1, 0xff, 0], &[1, 0xff, 0xff, 0xff], &[2]]);
    let prefix = ScanBounds::Prefix(key(&[1, 0xff]));
    assert_eq!(keys_within(&table, prefix.clone(), 2).len(), 3);
    assert_eq!(last_within(&table, prefix), Some(vec![1, 0xff, 0xff, 0xff]));
}

#[test]
fn range_deletions_in_memory_keep_to_their_bounds() {
    let mut table = filled(&[b"a", b"b", b"c", b"d", b"e"]);
    let at = LogSequenceNumber::from;
    let mut writer = table.writer(TransactionId::from(2), at(3)).unwrap();
    let bounds = ScanBounds::Range {
        start: Bound::Excluded(KeyBuf(b"a".to_vec())),
        end: Bound::Included(KeyBuf(b"d".to_vec())),
    };
    assert_eq!(writer.range_delete(bounds).unwrap(), 3);
    writer.flush().unwrap();
    writer.commit_versions(at(4)).unwrap();
    assert_eq!(
        keys_within(&table, ScanBounds::All, 4),
        vec![b"a".to_vec(), b"e".to_vec()]
    );
}

#[test]
fn flushed_changes_in_memory_wait_for_their_commit() {
    let mut table = filled(&[b"a", b"b"]);
    let at = LogSequenceNumber::from;
    let mut writer = table.writer(TransactionId::from(2), at(3)).unwrap();
    writer.put(b"a", b"new").unwrap();
    writer.delete(b"b").unwrap();
    writer.flush().unwrap();
    let reader = table.reader(at(9)).unwrap();
    assert_eq!(reader.get(b"a", at(9)).unwrap(), Some(ValueBuf(b"v".to_vec())));
    assert_eq!(reader.get(b"b", at(9)).unwrap(), Some(ValueBuf(b"v".to_vec())));
    let mut writer = table.writer(TransactionId::from(2), at(3)).unwrap();
    writer.commit_versions(at(5)).unwrap();
    let reader = table.reader(at(9)).unwrap();
    assert_eq!(reader.get(b"a", at(5)).unwrap(), Some(ValueBuf(b"new".to_vec())));
    assert_eq!(reader.get(b"b", at(5)).unwrap(), None);
    assert_eq!(reader.get(b"b", at(4)).unwrap(), Some(ValueBuf(b"v".to_vec())));
}

#[test]
fn damaged_trees_are_told_from_sound_ones() {
    let mut pager = Pager::create(PageSize::Size4KB);
    let mut tree = PagedBTree::new(TableId::from(1), "t".to_string(), &mut pager).unwrap();
    {
        let mut writer =
            tree.writer(&mut pager, TransactionId::from(1), LogSequenceNumber::from(0)).unwrap();
        for i in 0..400u32 {
            writer.put(format!("key{:05}", i).as_bytes(), &[7u8; 50]).unwrap();
        }
        writer.flush().unwrap();
    }
    let open = |pager: &Pager, root: PageId| {
        PagedBTree::open(TableId::from(1), "t".to_string(), pager, root)
    };
    let root = tree.get_root_page_id();
    assert!(open(&pager, root).is_sound(&pager));
    let missing = PageId::from(9999);
    assert!(!open(&pager, missing).is_sound(&pager));

    let write = |pager: &mut Pager, id: PageId, node: &BTreeNode| {
        let mut page = pager.read_page(id).unwrap();
        page.data = node.to_bytes();
        pager.write_page(page).unwrap();
    };
    // A node that is its own child.
    let id = pager.allocate_page(PageType::BTreeInternal);
    let mut node = BTreeNode::new_internal();
    if let BTreeNode::Internal { rightmost_child, .. } = &mut node {
        *rightmost_child = id;
    }
    write(&mut pager, id, &node);
    assert!(!open(&pager, id).is_sound(&pager));
    // A child that stands in two places.
    let leaf = pager.allocate_page(PageType::BTreeLeaf);
    write(&mut pager, leaf, &BTreeNode::new_leaf());
    if let BTreeNode::Internal { entries, rightmost_child, .. } = &mut node {
        *rightmost_child = leaf;
        entries.push(InternalEntry { key: b"k".to_vec(), child_page_id: leaf });
    }
    write(&mut pager, id, &node);
    assert!(!open(&pager, id).is_sound(&pager));
    // Keys out of order.
    let entry = |key: &[u8]| LeafEntry {
        key: key.to_vec(),
        chain: VersionChain::new(b"v".to_vec(), TransactionId::from(1)),
    };
    let mut node = BTreeNode::new_leaf();
    if let BTreeNode::Leaf { entries, .. } = &mut node {
        entries.push(entry(b"a"));
        entries.push(entry(b"b"));
    }
    write(&mut pager, leaf, &node);
    assert!(open(&pager, leaf).is_sound(&pager));
    if let BTreeNode::Leaf { entries, .. } = &mut node {
        entries.push(entry(b"a"));
    }
    write(&mut pager, leaf, &node);
    assert!(!open(&pager, leaf).is_sound(&pager));
}

#[test]
fn parents_take_in_a_split_or_say_why_not() {
    let mut pager = Pager::create(PageSize::Size4KB);
    let tree = PagedBTree::new(TableId::from(1), "t".to_string(), &mut pager).unwrap();
    let leaf = tree.get_root_page_id();
    let other = PageId::from(77);
    let before = pager.read_page(leaf).unwrap().data;
    let kept = tree.insert_into_parent(&mut pager, leaf, other, b"m".to_vec(), other).unwrap();
    assert_eq!(kept.node_type(), NodeType::Leaf);
    assert_eq!(pager.read_page(leaf).unwrap().data, before);
    assert_eq!(
        tree.insert_into_parent(&mut pager, other, leaf, b"m".to_vec(), leaf).err(),
        Some(TableError::Pager(PagerError::PageNotFound(other)))
    );
    let parent = pager.allocate_page(PageType::BTreeInternal);
    let mut node = BTreeNode::new_internal();
    if let BTreeNode::Internal { rightmost_child, .. } = &mut node {
        *rightmost_child = leaf;
    }
    let mut page = pager.read_page(parent).unwrap();
    page.data = node.to_bytes();
    pager.write_page(page).unwrap();
    assert_eq!(
        tree.insert_into_parent(&mut pager, parent, other, b"m".to_vec(), leaf).err(),
        Some(TableError::Corruption(Corruption::MissingChild { parent, child: other }))
    );
    let updated =
        tree.insert_into_parent(&mut pager, parent, leaf, b"m".to_vec(), other).unwrap();
    assert_eq!(updated.key_count(), 1);
    if let BTreeNode::Internal { entries, rightmost_child, .. } = updated {
        assert_eq!(entries[0].key, b"m".to_vec());
        assert_eq!(entries[0].child_page_id, leaf);
        assert_eq!(rightmost_child, other);
    }
}

#[test]
fn ways_are_valid_until_a_page_on_them_is_written() {
    let mut pager = Pager::create(PageSize::Size4KB);
    let tree = PagedBTree::new(TableId::from(1), "t".to_string(), &mut pager).unwrap();
    let root = tree.get_root_page_id();
    let step = |page_id: PageId, version: u64| PathEntry {
        page_id,
        version: PageVersion(version),
        child_index: 0,
    };
    let version = tree.read_node(&pager, root).unwrap().get_version().0;
    let end = step(PageId::from(88), 0);
    let missing = PageId::from(77);
    assert_eq!(tree.validate_optimistic_path(&pager, &vec![]), Ok(true));
    assert_eq!(
        tree.validate_optimistic_path(&pager, &vec![step(root, version), end]),
        Ok(true)
    );
    let end = step(PageId::from(88), 0);
    assert_eq!(
        tree.validate_optimistic_path(&pager, &vec![step(root, version + 1), end]),
        Ok(false)
    );
    let end = step(PageId::from(88), 0);
    assert_eq!(
        tree.validate_optimistic_path(&pager, &vec![step(missing, 0), end]),
        Err(TableError::Pager(PagerError::PageNotFound(missing)))
    );
}

#[test]
fn entries_that_fit_no_page_are_refused() {
    let mut pager = Pager::create(PageSize::Size4KB);
    let mut tree = PagedBTree::new(TableId::from(1), "t".to_string(), &mut pager).unwrap();
    let at = LogSequenceNumber::from;
    {
        let mut writer = tree.writer(&mut pager, TransactionId::from(1), at(0)).unwrap();
        writer.put(&[b'k'; 3000], b"v").unwrap();
        writer.flush().unwrap();
        writer.commit_versions(at(1)).unwrap();
    }
    {
        let reader = tree.reader(&pager, at(1)).unwrap();
        assert_eq!(reader.get(&[b'k'; 3000], at(1)).unwrap(), Some(ValueBuf(b"v".to_vec())));
    }
    let mut writer = tree.writer(&mut pager, TransactionId::from(2), at(1)).unwrap();
    writer.put(&[b'k'; 5000], b"v").unwrap();
    assert!(matches!(
        writer.flush(),
        Err(TableError::Pager(PagerError::PageOverflow { .. }))
    ));
}

#[test]
fn chains_have_known_bytes() {
    let mut chain = VersionChain::new(b"ab".to_vec(), TransactionId::from(300));
    assert_eq!(write_chain(&chain), vec![2, b'a', b'b', 0xac, 0x02, 0, 0]);
    chain.commit(LogSequenceNumber::from(5));
    let chain = chain.prepend(vec![7; 130], TransactionId::from(1));
    let mut bytes = vec![0x82, 0x01];
    bytes.extend(vec![7u8; 130]);
    bytes.extend([1, 0, 1]);
    bytes.extend([2, b'a', b'b', 0xac, 0x02, 1, 5, 0]);
    assert_eq!(write_chain(&chain), bytes);
    let back = read_chain(&bytes).unwrap();
    assert_eq!(write_chain(&back), bytes);
}

#[test]
fn chains_are_read_as_they_are_written_and_not_otherwise() {
    // A length may take more bytes than it needs.
    let long = read_chain(&[0x82, 0x00, b'a', b'b', 1, 0, 0]).unwrap();
    assert_eq!(long.value, b"ab".to_vec());
    assert_eq!(long.created_by, TransactionId::from(1));
    let most = [0u8, 0xff, 0xff, 0xff, 0xff, 0xff, 0xff, 0xff, 0xff, 0xff, 0x01, 0, 0];
    assert_eq!(read_chain(&most).unwrap().created_by, TransactionId::from(u64::MAX));
    let more = [0u8, 0xff, 0xff, 0xff, 0xff, 0xff, 0xff, 0xff, 0xff, 0xff, 0x02, 0, 0];
    assert!(read_chain(&more).is_none());
    // Neither of the two marks can be anything but zero or one.
    assert!(read_chain(&[0, 1, 0, 0]).is_some());
    assert!(read_chain(&[0, 1, 2, 0]).is_none());
    for mark in [2u8, 3, 255] {
        assert!(read_chain(&[0, 1, 0, mark]).is_none());
    }
    // The input ends early.
    assert!(read_chain(&[0, 1, 0]).is_none());
    assert!(read_chain(&[3, b'a', b'b']).is_none());
    assert!(read_chain(&[]).is_none());
}

#[test]
fn values_in_memory_may_look_like_deletions() {
    let mut table = MemoryBTree::new(TableId::from(1), "t".to_string());
    let at = LogSequenceNumber::from;
    let values: [&[u8]; 5] = [b"", &[0xff], &[0xff, 0xff], &[0xff, 1], &[1, 0xff]];
    let mut writer = table.writer(TransactionId::from(1), at(1)).unwrap();
    for (i, value) in values.iter().enumerate() {
        writer.put(&[i as u8], value).unwrap();
    }
    writer.flush().unwrap();
    writer.commit_versions(at(2)).unwrap();
    // Each entry takes the bytes of its key and value and an overhead that is the same for all.
    let bytes: usize = values.iter().map(|v| v.len()).sum();
    assert_eq!(table.memory_usage, bytes + values.len() * (1 + 24 + 64));
    let reader = table.reader(at(2)).unwrap();
    for (i, value) in values.iter().enumerate() {
        assert_eq!(reader.get(&[i as u8], at(2)).unwrap(), Some(ValueBuf(value.to_vec())));
    }
    let mut cursor = reader.scan(ScanBounds::All, at(2)).unwrap();
    for value in values {
        assert_eq!(cursor.value(), Some(value));
        cursor.next().unwrap();
    }
}

fn paged(keys: &[&[u8]]) -> (Pager, PagedBTree) {
    let mut pager = Pager::create(PageSize::Size4KB);
    let mut tree = PagedBTree::new(TableId::from(1), "t".to_string(), &mut pager).unwrap();
    {
        let mut writer =
            tree.writer(&mut pager, TransactionId::from(1), LogSequenceNumber::from(0)).unwrap();
        for key in keys {
            writer.put(key, b"v").unwrap();
        }
        writer.flush().unwrap();
        writer.commit_versions(LogSequenceNumber::from(1)).unwrap();
    }
    (pager, tree)
}

fn range(start: Bound, end: Bound) -> ScanBounds {
    ScanBounds::Range { start, end }
}

fn key(k: &[u8]) -> KeyBuf {
    KeyBuf(k.to_vec())
}

#[test]
fn excluded_starts_that_are_not_held_pass_over_nothing() {
    let (mut pager, mut tree) = paged(&[b"a", b"c", b"d", b"e"]);
    let at = LogSequenceNumber::from(1);
    for (start, first) in [(b"b", b"c"), (b"a", b"c"), (b"c", b"d")] {
        let reader = tree.reader(&pager, at).unwrap();
        let bounds = range(Bound::Excluded(key(start)), Bound::Unbounded);
        let mut cursor = reader.scan(bounds, at).unwrap();
        assert_eq!(cursor.key(), Some(first.as_slice()));
        cursor.seek(b"a").unwrap();
        assert_eq!(cursor.key(), Some(first.as_slice()));
    }
    let mut writer = tree.writer(&mut pager, TransactionId::from(2), at).unwrap();
    let bounds = range(Bound::Excluded(key(b"b")), Bound::Excluded(key(b"e")));
    assert_eq!(writer.range_delete(bounds).unwrap(), 2);
    writer.flush().unwrap();
    writer.commit_versions(LogSequenceNumber::from(2)).unwrap();
    let at = LogSequenceNumber::from(2);
    let reader = tree.reader(&pager, at).unwrap();
    let mut cursor = reader.scan(ScanBounds::All, at).unwrap();
    assert_eq!(cursor.key(), Some(b"a".as_slice()));
    cursor.next().unwrap();
    assert_eq!(cursor.key(), Some(b"e".as_slice()));
}

#[test]
fn scans_backwards_show_entries_within_bounds() {
    let (mut pager, mut tree) = paged(&[b"a", b"b", b"c", b"d", b"e"]);
    {
        let mut writer =
            tree.writer(&mut pager, TransactionId::from(2), LogSequenceNumber::from(1)).unwrap();
        writer.delete(b"c").unwrap();
        writer.flush().unwrap();
        writer.commit_versions(LogSequenceNumber::from(2)).unwrap();
    }
    let at = LogSequenceNumber::from(2);
    let reader = tree.reader(&pager, at).unwrap();
    let bounds = range(Bound::Included(key(b"b")), Bound::Excluded(key(b"e")));
    let mut cursor = reader.scan(bounds, at).unwrap();
    cursor.last().unwrap();
    assert!(cursor.valid());
    assert_eq!(cursor.key(), Some(b"d".as_slice()));
    cursor.prev().unwrap();
    assert!(cursor.valid());
    assert_eq!(cursor.key(), Some(b"b".as_slice()));
    cursor.prev().unwrap();
    assert!(!cursor.valid());
    assert_eq!(cursor.key(), None);
    // The key that is sought was deleted, so the one before it is shown.
    cursor.seek_for_prev(b"c").unwrap();
    assert!(cursor.valid());
    assert_eq!(cursor.key(), Some(b"b".as_slice()));
    cursor.seek_for_prev(b"d").unwrap();
    assert_eq!(cursor.key(), Some(b"d".as_slice()));
    cursor.seek_for_prev(b"zz").unwrap();
    assert!(cursor.valid());
    assert_eq!(cursor.key(), Some(b"d".as_slice()));
    cursor.seek_for_prev(b"a").unwrap();
    assert!(!cursor.valid());
}

#[test]
fn a_put_without_room_for_its_separator_tears_the_tree() {
    let small = vec![b'a'; 1];
    let left = vec![b'd'; 2300];
    let late = vec![b'e'; 1000];
    let right = vec![b'm'; 2300];
    let end = vec![b'n'; 1500];
    let (mut pager, mut tree) = paged(&[&small, &right, &end]);
    let at = LogSequenceNumber::from;
    {
        let mut writer = tree.writer(&mut pager, TransactionId::from(2), at(1)).unwrap();
        writer.put(&left, b"v").unwrap();
        writer.flush().unwrap();
        writer.commit_versions(at(2)).unwrap();
    }
    let root = tree.get_root_page_id();
    {
        let mut writer = tree.writer(&mut pager, TransactionId::from(3), at(2)).unwrap();
        writer.put(&late, b"v").unwrap();
        assert!(matches!(
            writer.flush(),
            Err(TableError::Pager(PagerError::PageOverflow { .. }))
        ));
    }
    assert_eq!(tree.get_root_page_id(), root);
    // The node that was split is known by its left half alone.
    let found = |k: &[u8]| tree.get_internal(&pager, k, at(9)).unwrap().is_some();
    assert!(found(&small));
    assert!(!found(&left));
    assert!(!found(&late));
    assert!(found(&right));
    assert!(found(&end));
}
