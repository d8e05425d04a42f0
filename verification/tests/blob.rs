use nanostore::blob::file::FileBlob;
use nanostore::blob::memory::MemoryBlob;
use nanostore::blob::paged::PagedBlob;
use nanostore::pager::{PageId, PageSize, Pager, PagerError};
use nanostore::snap::Snapshot;
use nanostore::table::{TableEngineKind, TableError};
use nanostore::types::{LogSequenceNumber, TableId, TransactionId, ValueBuf};

fn at(lsn: u64) -> Snapshot {
    Snapshot::at(LogSequenceNumber::from(lsn))
}

#[test]
fn blobs_in_memory_are_read_once_committed() {
    let mut table = MemoryBlob::new(TableId::from(1), "blobs".to_string());
    assert_eq!(table.put(b"k", &[7u8; 1000]).unwrap(), 1000 + 1 + 16);
    assert_eq!(table.memory_usage, 1000 + 1 + 48);
    assert_eq!(table.get(b"k").unwrap(), None);
    table.commit_versions(TransactionId::from(0), LogSequenceNumber::from(5)).unwrap();
    assert_eq!(table.get(b"k").unwrap(), Some(ValueBuf(vec![7u8; 1000])));
    assert_eq!(table.get_snapshot(b"k", &at(4)).unwrap(), None);
    assert_eq!(table.get_snapshot(b"k", &at(5)).unwrap(), Some(ValueBuf(vec![7u8; 1000])));
    table.put_tx(b"k", b"new", TransactionId::from(2)).unwrap();
    assert_eq!(table.memory_usage, 3 + 1 + 48);
    table.commit_versions(TransactionId::from(2), LogSequenceNumber::from(9)).unwrap();
    assert_eq!(table.vacuum(LogSequenceNumber::from(10)).unwrap(), 1);
    assert_eq!(table.get(b"k").unwrap(), Some(ValueBuf(b"new".to_vec())));
    assert!(table.delete(b"k").unwrap());
    assert!(!table.delete(b"unknown").unwrap());
    table.commit_versions(TransactionId::from(0), LogSequenceNumber::from(11)).unwrap();
    assert_eq!(table.get(b"k").unwrap(), None);
    assert_eq!(table.get_snapshot(b"k", &at(10)).unwrap(), Some(ValueBuf(b"new".to_vec())));
    assert_eq!(table.get_snapshot(b"k", &at(11)).unwrap(), None);
    assert_eq!(table.kind(), TableEngineKind::Blob);
    assert_eq!(table.max_value_size(), 16 * 1024 * 1024);
    assert_eq!(table.max_inline_size(), 4096);
}

#[test]
fn limits_on_blobs_are_kept() {
    let mut table =
        MemoryBlob::with_config(TableId::from(1), "small".to_string(), 200, 100, 10);
    assert_eq!(
        table.put(b"k", &[0u8; 101]).unwrap_err(),
        TableError::ValueTooLarge { size: 101, max: 100 }
    );
    table.put(b"a", &[0u8; 100]).unwrap();
    assert_eq!(
        table.put(b"b", &[0u8; 100]).unwrap_err(),
        TableError::MemoryBudgetExceeded { usage: 298, budget: 200 }
    );
    table.put(b"b", b"").unwrap();
}

#[test]
fn blobs_in_pages_come_back_as_they_were() {
    let mut pager = Pager::create(PageSize::Size4KB);
    let mut table = PagedBlob::new(TableId::from(1), "blobs".to_string(), &mut pager).unwrap();
    let value: Vec<u8> = (0..9000u32).map(|i| (i % 255) as u8 + 1).collect();
    assert_eq!(table.put(&mut pager, b"k", &value).unwrap(), 9000);
    assert_eq!(table.get(&pager, b"k").unwrap(), None);
    table.commit_versions(TransactionId::from(0), LogSequenceNumber::from(1)).unwrap();
    assert_eq!(table.get(&pager, b"k").unwrap(), Some(ValueBuf(value.clone())));
    assert_eq!(table.get_snapshot(&pager, b"k", &at(0)).unwrap(), None);

    table.put_tx(&mut pager, b"k", b"second", TransactionId::from(2)).unwrap();
    table.commit_versions(TransactionId::from(2), LogSequenceNumber::from(5)).unwrap();
    assert_eq!(table.get(&pager, b"k").unwrap(), Some(ValueBuf(b"second".to_vec())));
    assert_eq!(table.get_snapshot(&pager, b"k", &at(4)).unwrap(), Some(ValueBuf(value)));
    assert_eq!(table.vacuum(&mut pager, LogSequenceNumber::from(9)).unwrap(), 1);
    assert_eq!(table.get(&pager, b"k").unwrap(), Some(ValueBuf(b"second".to_vec())));
    assert_eq!(pager.read_page(PageId::from(2)).err(), Some(PagerError::PageNotFound(PageId(2))));

    assert!(table.delete(b"k").unwrap());
    table.commit_versions(TransactionId::from(0), LogSequenceNumber::from(12)).unwrap();
    assert_eq!(table.get(&pager, b"k").unwrap(), None);
    assert_eq!(table.stats().unwrap().row_count, Some(1));
}

#[test]
fn empty_blobs_take_one_page() {
    let mut pager = Pager::create(PageSize::Size4KB);
    let mut table = PagedBlob::new(TableId::from(1), "blobs".to_string(), &mut pager).unwrap();
    table.put(&mut pager, b"e", b"").unwrap();
    table.commit_versions(TransactionId::from(0), LogSequenceNumber::from(1)).unwrap();
    assert_eq!(table.get(&pager, b"e").unwrap(), Some(ValueBuf(vec![])));
}

#[test]
fn blobs_in_files_have_a_file_for_each_version() {
    let mut table = FileBlob::new(TableId::from(1), "files".to_string(), b"/data".to_vec());
    assert_eq!(
        table.key_to_path(&[0x00, 0xab, 0x7f]),
        b"/data/00ab7f.0000000000000000".to_vec()
    );
    let slash = FileBlob::new(TableId::from(1), "files".to_string(), b"dir/".to_vec());
    assert_eq!(slash.key_to_path(b"A"), b"dir/41.0000000000000000".to_vec());
    let here = FileBlob::new(TableId::from(1), "files".to_string(), b"".to_vec());
    assert_eq!(here.key_to_path(b"A"), b"41.0000000000000000".to_vec());

    let first = b"/data/6b.0000000000000000".to_vec();
    let second = b"/data/6b.0100000000000000".to_vec();
    assert_eq!(table.put(b"k", 12).unwrap(), 12);
    assert_eq!(table.get(b"k").unwrap(), None);
    table.commit_versions(TransactionId::from(0), LogSequenceNumber::from(1)).unwrap();
    assert_eq!(table.get(b"k").unwrap(), Some(first.clone()));
    assert_eq!(table.get_snapshot(b"k", &at(0)).unwrap(), None);

    assert_eq!(table.key_to_path(b"k"), second);
    table.put_tx(b"k", 20, TransactionId::from(3)).unwrap();
    table.commit_versions(TransactionId::from(3), LogSequenceNumber::from(5)).unwrap();
    // A reader of the older version still finds its file.
    assert_eq!(table.get_snapshot(b"k", &at(4)).unwrap(), Some(first.clone()));
    assert_eq!(table.get_snapshot(b"k", &at(5)).unwrap(), Some(second.clone()));
    assert_eq!(table.vacuum(LogSequenceNumber::from(9)).unwrap(), (1, vec![first]));
    assert_eq!(table.get(b"k").unwrap(), Some(second.clone()));
    assert!(table.delete_tx(b"k", TransactionId::from(4)).unwrap());
    table.commit_versions(TransactionId::from(4), LogSequenceNumber::from(10)).unwrap();
    assert_eq!(table.get(b"k").unwrap(), None);
    assert_eq!(table.vacuum(LogSequenceNumber::from(11)).unwrap(), (1, vec![second]));
    assert_eq!(table.get(b"k").unwrap(), None);
    assert_eq!(table.vacuum(LogSequenceNumber::from(11)).unwrap(), (0, vec![]));
}

#[test]
fn a_commit_takes_the_versions_of_its_transaction() {
    let mut table = MemoryBlob::new(TableId::from(1), "blobs".to_string());
    table.put_tx(b"a", b"one", TransactionId::from(1)).unwrap();
    table.put_tx(b"b", b"two", TransactionId::from(2)).unwrap();
    table.commit_versions(TransactionId::from(2), LogSequenceNumber::from(5)).unwrap();
    assert_eq!(table.get(b"a").unwrap(), None);
    assert_eq!(table.get(b"b").unwrap(), Some(ValueBuf(b"two".to_vec())));
    table.put_tx(b"a", b"three", TransactionId::from(2)).unwrap();
    table.commit_versions(TransactionId::from(1), LogSequenceNumber::from(7)).unwrap();
    assert_eq!(table.get(b"a").unwrap(), Some(ValueBuf(b"one".to_vec())));

    let mut pager = Pager::create(PageSize::Size4KB);
    let mut table = PagedBlob::new(TableId::from(1), "blobs".to_string(), &mut pager).unwrap();
    table.put_tx(&mut pager, b"a", b"one", TransactionId::from(1)).unwrap();
    table.put_tx(&mut pager, b"b", b"two", TransactionId::from(2)).unwrap();
    table.commit_versions(TransactionId::from(2), LogSequenceNumber::from(5)).unwrap();
    assert_eq!(table.get(&pager, b"a").unwrap(), None);
    assert_eq!(table.get(&pager, b"b").unwrap(), Some(ValueBuf(b"two".to_vec())));

    let mut table = FileBlob::new(TableId::from(1), "files".to_string(), b"d".to_vec());
    table.put_tx(b"a", 1, TransactionId::from(1)).unwrap();
    table.put_tx(b"b", 1, TransactionId::from(2)).unwrap();
    table.commit_versions(TransactionId::from(2), LogSequenceNumber::from(5)).unwrap();
    assert_eq!(table.get(b"a").unwrap(), None);
    assert_eq!(table.get(b"b").unwrap(), Some(b"d/62.0100000000000000".to_vec()));
}

#[test]
fn a_vacuum_keeps_the_blobs_of_other_keys() {
    let mut pager = Pager::create(PageSize::Size4KB);
    let mut table = PagedBlob::new(TableId::from(1), "blobs".to_string(), &mut pager).unwrap();
    for i in 0..5u8 {
        table.put_tx(&mut pager, &[i], &[i; 6000], TransactionId::from(1)).unwrap();
    }
    table.commit_versions(TransactionId::from(1), LogSequenceNumber::from(1)).unwrap();
    table.put_tx(&mut pager, &[2], &[9; 6000], TransactionId::from(2)).unwrap();
    table.commit_versions(TransactionId::from(2), LogSequenceNumber::from(2)).unwrap();
    assert_eq!(table.vacuum(&mut pager, LogSequenceNumber::from(3)).unwrap(), 1);
    for i in 0..5u8 {
        let byte = if i == 2 { 9 } else { i };
        assert_eq!(table.get(&pager, &[i]).unwrap(), Some(ValueBuf(vec![byte; 6000])));
    }
}

#[test]
fn empty_blobs_in_memory_are_blobs() {
    let mut table = MemoryBlob::new(TableId::from(1), "blobs".to_string());
    table.put(b"e", b"").unwrap();
    assert_eq!(table.get(b"e").unwrap(), None);
    table.commit_versions(TransactionId::from(0), LogSequenceNumber::from(1)).unwrap();
    assert_eq!(table.get(b"e").unwrap(), Some(ValueBuf(vec![])));
    assert_eq!(table.get_snapshot(b"e", &at(1)).unwrap(), Some(ValueBuf(vec![])));
    assert!(table.delete(b"e").unwrap());
    table.commit_versions(TransactionId::from(0), LogSequenceNumber::from(2)).unwrap();
    assert_eq!(table.get(b"e").unwrap(), None);
    assert_eq!(table.get_snapshot(b"e", &at(1)).unwrap(), Some(ValueBuf(vec![])));
}

#[test]
fn a_vacuum_keeps_what_later_snapshots_see_of_blobs() {
    let mut pager = Pager::create(PageSize::Size4KB);
    let mut table = PagedBlob::new(TableId::from(1), "blobs".to_string(), &mut pager).unwrap();
    for n in 1..=4u64 {
        let tx = TransactionId::from(n);
        table.put_tx(&mut pager, b"a", &vec![n as u8; 9000], tx).unwrap();
        if n == 2 {
            table.put_tx(&mut pager, b"b", b"two", tx).unwrap();
        }
        if n == 3 {
            table.delete_tx(b"b", tx).unwrap();
        }
        table.commit_versions(tx, LogSequenceNumber::from(10 * n)).unwrap();
    }
    let seen = |table: &PagedBlob, pager: &Pager| {
        [20u64, 25, 30, 40, 99]
            .iter()
            .map(|l| {
                (
                    table.get_snapshot(pager, b"a", &at(*l)).unwrap(),
                    table.get_snapshot(pager, b"b", &at(*l)).unwrap(),
                )
            })
            .collect::<Vec<_>>()
    };
    let before = seen(&table, &pager);
    assert_eq!(before[1].0, Some(ValueBuf(vec![2; 9000])));
    assert_eq!(before[1].1, Some(ValueBuf(b"two".to_vec())));
    assert_eq!(before[2].1, None);
    assert_eq!(table.vacuum(&mut pager, LogSequenceNumber::from(20)).unwrap(), 0);
    assert_eq!(table.vacuum(&mut pager, LogSequenceNumber::from(21)).unwrap(), 1);
    assert_eq!(seen(&table, &pager)[1..], before[1..]);
    assert_eq!(table.get_snapshot(&pager, b"a", &at(15)).unwrap(), None);
}
