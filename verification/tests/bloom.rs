use nanostore::bloom::bits::{hash_count, hash_key};
use nanostore::bloom::memory::{BloomFilter, BloomFilterBuilder};
use nanostore::bloom::paged::PagedBloomFilter;
use nanostore::bloom::tombstone::{BloomTombstone, BloomTombstoneSet};
use nanostore::pager::{PageId, PageSize, PageType, Pager, PagerError};
use nanostore::snap::{Snapshot, SnapshotId};
use nanostore::table::{ConsistencyErrorType, Corruption, TableEngineKind, TableError};
use nanostore::types::{LogSequenceNumber, TableId, TransactionId};

#[test]
fn memory_test_basic_operations() {
    let mut filter = BloomFilter::new(100, 10, None);

    filter.insert(b"key1");
    filter.insert(b"key2");
    filter.insert(b"key3");

    assert!(filter.contains(b"key1"));
    assert!(filter.contains(b"key2"));
    assert!(filter.contains(b"key3"));
    assert!(!filter.contains(b"key4"));
}

#[test]
fn memory_test_false_positive_rate() {
    let num_items: usize = 1000;
    let mut filter = BloomFilter::new(num_items, 10, None);

    for i in 0..num_items {
        filter.insert(&i.to_le_bytes());
    }

    let mut false_positives = 0;
    let test_items = 10000;
    for i in num_items..(num_items + test_items) {
        if filter.contains(&i.to_le_bytes()) {
            false_positives += 1;
        }
    }

    let actual_fpr = false_positives as f64 / test_items as f64;
    assert!(
        actual_fpr < 0.05,
        "Actual FPR ({:.4}) should be less than 5% with 10 bits/key",
        actual_fpr
    );
    assert!(actual_fpr > 0.0, "FPR should be greater than 0");
}

#[test]
fn test_serialization() {
    let mut filter = BloomFilter::new(100, 10, Some(7));

    filter.insert(b"test1");
    filter.insert(b"test2");

    let bytes = filter.as_bytes().to_vec();
    let num_hash = filter.num_hash_functions();

    let restored = BloomFilter::from_bytes(bytes, num_hash);

    assert!(restored.contains(b"test1"));
    assert!(restored.contains(b"test2"));
}

#[test]
fn test_builder() {
    let filter = BloomFilterBuilder::new(1000)
        .bits_per_key(12)
        .num_hash_functions(8)
        .build();

    assert_eq!(filter.num_bits(), 1000 * 12);
    assert_eq!(filter.num_hash_functions(), 8);
}

#[test]
fn test_builder_with_fpr() {
    let rate: f64 = 0.01;
    let bits = ((-rate.ln()) / (0.693 * 0.693)).ceil() as usize;
    let filter = BloomFilterBuilder::new(1000).bits_per_key(bits).build();

    assert!(filter.num_bits() / 1000 >= 9);
    assert!(filter.num_bits() / 1000 <= 11);
}

#[test]
fn memory_test_clear() {
    let mut filter = BloomFilter::new(100, 10, None);

    filter.insert(b"key1");
    assert!(filter.contains(b"key1"));

    filter.clear();
    assert_eq!(filter.num_items(), 0);
    assert!(!filter.contains(b"key1"));
}

#[test]
fn test_empty_filter() {
    let filter = BloomFilter::new(100, 10, None);

    assert!(!filter.contains(b"anything"));
    assert_eq!(filter.num_items(), 0);
}

#[test]
fn test_hash_consistency() {
    let key = b"test_key";
    let (h1_1, h2_1) = hash_key(key);
    let (h1_2, h2_2) = hash_key(key);

    assert_eq!(h1_1, h1_2);
    assert_eq!(h2_1, h2_2);
}

#[test]
fn hashes_have_known_values() {
    assert_eq!(hash_key(b""), (0xcbf29ce484222325, 0));
    assert_eq!(hash_key(b"a"), (0xaf63dc4c8601ec8c, 97));
    assert_eq!(hash_key(b"ab").1, 97 * 31 + 98);
}

#[test]
fn the_number_of_hash_functions_follows_the_bits_per_key() {
    for bits in [0usize, 1, 2, 9, 10, 12, 16, 100, 1000, 12345] {
        assert_eq!(hash_count(bits), ((bits as f64) * 0.693).ceil() as usize);
    }
    assert_eq!(hash_count(10), 7);
}

#[test]
fn a_wrong_bit_array_is_reported() {
    let filter = BloomFilter::from_bytes_with_size(vec![0u8; 3], 100, 2);
    let report = filter.verify(false).unwrap();
    assert_eq!(report.errors.len(), 1);
    assert_eq!(report.errors[0].error_type, ConsistencyErrorType::InvalidPointer);
    assert_eq!(report.errors[0].expected, 13);
    assert_eq!(report.errors[0].found, 3);
    let mut filter = BloomFilter::new(8, 10, None);
    assert!(filter.verify(true).unwrap().warnings.is_empty());
    filter.insert(b"x");
    assert_eq!(filter.verify(true).unwrap().warnings[0].location, "bloom_filter");
    assert_eq!(filter.stats().unwrap().size_bytes, Some(10));
    assert_eq!(filter.name(), "bloom_filter");
}

fn create_test_pager() -> Pager {
    Pager::create(PageSize::Size4KB)
}

#[test]
fn test_create_and_insert() {
    let mut pager = create_test_pager();
    let mut filter = PagedBloomFilter::new(
        TableId::from(1),
        "test_bloom".to_string(),
        &mut pager,
        100,
        10,
        None,
    )
    .unwrap();

    filter.insert(&mut pager, b"key1").unwrap();
    filter.insert(&mut pager, b"key2").unwrap();
    filter.insert(&mut pager, b"key3").unwrap();

    assert!(filter.contains(&pager, b"key1").unwrap());
    assert!(filter.contains(&pager, b"key2").unwrap());
    assert!(filter.contains(&pager, b"key3").unwrap());
}

#[test]
fn test_persistence() {
    let mut pager = create_test_pager();
    let table_id = TableId::from(1);
    let name = "test_bloom".to_string();

    let root_page_id = {
        let mut filter =
            PagedBloomFilter::new(table_id, name.clone(), &mut pager, 100, 10, None).unwrap();

        filter.insert(&mut pager, b"key1").unwrap();
        filter.insert(&mut pager, b"key2").unwrap();

        filter.root_page_id()
    };

    let filter = PagedBloomFilter::open(table_id, name, &pager, root_page_id).unwrap();

    assert!(filter.contains(&pager, b"key1").unwrap());
    assert!(filter.contains(&pager, b"key2").unwrap());
    assert_eq!(filter.num_items, 2);
}

#[test]
fn paged_test_false_positive_rate() {
    let mut pager = create_test_pager();
    let num_items: usize = 1000;
    let mut filter = PagedBloomFilter::new(
        TableId::from(1),
        "test_bloom".to_string(),
        &mut pager,
        num_items,
        10,
        None,
    )
    .unwrap();

    for i in 0..num_items {
        filter.insert(&mut pager, &i.to_le_bytes()).unwrap();
    }

    let mut false_positives = 0;
    let test_items = 10000;
    for i in num_items..(num_items + test_items) {
        if filter.contains(&pager, &i.to_le_bytes()).unwrap() {
            false_positives += 1;
        }
    }

    let actual_fpr = false_positives as f64 / test_items as f64;
    assert!(
        actual_fpr < 0.05,
        "Actual FPR ({:.4}) should be less than 5%",
        actual_fpr
    );
}

#[test]
fn paged_test_clear() {
    let mut pager = create_test_pager();
    let mut filter = PagedBloomFilter::new(
        TableId::from(1),
        "test_bloom".to_string(),
        &mut pager,
        100,
        10,
        None,
    )
    .unwrap();

    filter.insert(&mut pager, b"key1").unwrap();
    assert!(filter.contains(&pager, b"key1").unwrap());

    filter.clear(&mut pager).unwrap();
    assert_eq!(filter.num_items, 0);
    assert!(!filter.contains(&pager, b"key1").unwrap());
}

#[test]
fn a_filter_over_several_pages_holds_what_one_in_memory_holds() {
    let mut pager = create_test_pager();
    let mut paged = PagedBloomFilter::new(
        TableId::from(1),
        "wide".to_string(),
        &mut pager,
        10000,
        10,
        Some(3),
    )
    .unwrap();
    assert_eq!(paged.bitmap_pages.len(), 4);
    let mut plain = BloomFilter::new(10000, 10, Some(3));
    for i in 0..200u32 {
        paged.insert(&mut pager, &i.to_be_bytes()).unwrap();
        plain.insert(&i.to_be_bytes());
    }
    for i in 0..400u32 {
        assert_eq!(
            paged.contains(&pager, &i.to_be_bytes()).unwrap(),
            plain.contains(&i.to_be_bytes())
        );
    }
    assert_eq!(paged.stats(&pager).unwrap().total_size_bytes, Some(4 * 4096));
    assert_eq!(paged.kind(), TableEngineKind::Bloom);
    assert!(paged.verify(false).unwrap().errors.is_empty());
}

#[test]
fn bad_root_pages_are_refused() {
    let mut pager = create_test_pager();
    let open = |pager: &Pager, id: PageId| {
        PagedBloomFilter::open(TableId::from(1), String::new(), pager, id).err().unwrap()
    };
    let missing = PageId::from(77);
    assert_eq!(
        open(&pager, missing),
        TableError::Pager(PagerError::PageNotFound(missing))
    );
    let id = pager.allocate_page(PageType::BloomMeta);
    assert_eq!(
        open(&pager, id),
        TableError::Corruption(Corruption::ShortBloomPage(id))
    );
    let mut page = pager.read_page(id).unwrap();
    page.data = vec![0u8; 100];
    page.data[0] = 5;
    pager.write_page(page).unwrap();
    assert_eq!(
        open(&pager, id),
        TableError::Corruption(Corruption::InvalidBloomMagic(5))
    );
    let mut page = pager.read_page(id).unwrap();
    page.data[0..4].copy_from_slice(&0x424C4F4Du32.to_le_bytes());
    page.data[4] = 9;
    pager.write_page(page).unwrap();
    assert_eq!(open(&pager, id), TableError::InvalidFormatVersion(9));
    let mut page = pager.read_page(id).unwrap();
    page.data[4] = 1;
    page.data[32] = 200;
    pager.write_page(page).unwrap();
    assert_eq!(
        open(&pager, id),
        TableError::Corruption(Corruption::ShortBloomPage(id))
    );
}

fn snapshot_at(lsn: u64) -> Snapshot {
    Snapshot::new(
        SnapshotId::from(1),
        "test".to_string(),
        LogSequenceNumber::from(lsn),
        0,
        0,
        vec![],
    )
}

#[test]
fn test_tombstone_visibility() {
    let mut tombstone = BloomTombstone::new(b"key1".to_vec(), TransactionId::from(1));
    let snapshot = snapshot_at(100);

    assert!(!tombstone.is_visible(&snapshot));

    tombstone.commit(LogSequenceNumber::from(50));

    assert!(tombstone.is_visible(&snapshot));

    let old_snapshot = snapshot_at(40);
    assert!(!tombstone.is_visible(&old_snapshot));
}

#[test]
fn test_tombstone_set_operations() {
    let mut set = BloomTombstoneSet::new();
    let snapshot = snapshot_at(100);

    set.add(b"key1".to_vec(), TransactionId::from(1));
    set.add(b"key2".to_vec(), TransactionId::from(1));
    assert_eq!(set.len(), 2);

    assert!(!set.is_tombstoned(b"key1", &snapshot));
    assert!(!set.is_tombstoned(b"key2", &snapshot));

    set.commit_tombstones(TransactionId::from(1), LogSequenceNumber::from(50));

    assert!(set.is_tombstoned(b"key1", &snapshot));
    assert!(set.is_tombstoned(b"key2", &snapshot));
    assert!(!set.is_tombstoned(b"key3", &snapshot));
}

#[test]
fn test_tombstone_vacuum() {
    let mut set = BloomTombstoneSet::new();

    set.add(b"key1".to_vec(), TransactionId::from(1));
    set.add(b"key2".to_vec(), TransactionId::from(2));
    set.add(b"key3".to_vec(), TransactionId::from(3));

    set.commit_tombstones(TransactionId::from(1), LogSequenceNumber::from(50));
    set.commit_tombstones(TransactionId::from(2), LogSequenceNumber::from(100));
    set.commit_tombstones(TransactionId::from(3), LogSequenceNumber::from(150));

    assert_eq!(set.len(), 3);

    let removed = set.vacuum(LogSequenceNumber::from(75));
    assert_eq!(removed, 1);
    assert_eq!(set.len(), 2);

    let removed = set.vacuum(LogSequenceNumber::from(125));
    assert_eq!(removed, 1);
    assert_eq!(set.len(), 1);
}

#[test]
fn equal_tombstones_are_held_once() {
    let mut set = BloomTombstoneSet::default();
    assert!(set.is_empty());
    set.add(b"k".to_vec(), TransactionId::from(1));
    set.add(b"k".to_vec(), TransactionId::from(1));
    assert_eq!(set.len(), 1);
    set.commit_tombstones(TransactionId::from(1), LogSequenceNumber::from(5));
    set.add(b"k".to_vec(), TransactionId::from(1));
    assert_eq!(set.len(), 2);
    set.commit_tombstones(TransactionId::from(1), LogSequenceNumber::from(5));
    assert_eq!(set.len(), 1);
    assert_eq!(set.iter()[0].tombstone_lsn, Some(LogSequenceNumber::from(5)));
    set.clear();
    assert!(set.is_empty());
}

#[test]
fn an_insertion_sets_no_more_bits_than_there_are_hash_functions() {
    let mut filter = BloomFilter::new(20, 10, None);
    let ones = |f: &BloomFilter| f.bits.iter().map(|b| b.count_ones() as usize).sum::<usize>();
    for i in 0..20u8 {
        let before = filter.bits.clone();
        let count = ones(&filter);
        filter.insert(&[i]);
        assert!(ones(&filter) <= count + filter.num_hash_functions());
        assert!(before.iter().zip(filter.bits.iter()).all(|(a, b)| a & b == *a));
    }
    let count = ones(&filter);
    filter.insert(&[3]);
    assert_eq!(ones(&filter), count);
}

#[test]
fn a_cleared_filter_is_opened_without_keys() {
    let mut pager = create_test_pager();
    let id = TableId::from(1);
    let mut filter =
        PagedBloomFilter::new(id, "f".to_string(), &mut pager, 100, 10, None).unwrap();
    filter.insert(&mut pager, b"key1").unwrap();
    assert!(filter.contains(&pager, b"key1").unwrap());
    filter.clear(&mut pager).unwrap();
    let root = filter.root_page_id();
    let opened = PagedBloomFilter::open(id, "f".to_string(), &pager, root).unwrap();
    assert!(opened.is_sound(&pager));
    assert_eq!(opened.num_items, 0);
    for key in [b"key1", b"key2"] {
        assert!(!opened.contains(&pager, key).unwrap());
    }
}

#[test]
fn filters_whose_pages_are_gone_are_not_sound() {
    let mut pager = create_test_pager();
    let id = TableId::from(1);
    let filter =
        PagedBloomFilter::new(id, "f".to_string(), &mut pager, 10000, 10, None).unwrap();
    let root = filter.root_page_id();
    let opened = PagedBloomFilter::open(id, "f".to_string(), &pager, root).unwrap();
    assert!(opened.is_sound(&pager));
    let mut doubled = PagedBloomFilter::open(id, "f".to_string(), &pager, root).unwrap();
    doubled.bitmap_pages[1] = doubled.bitmap_pages[0];
    assert!(!doubled.is_sound(&pager));
    pager.free_page(opened.bitmap_pages[1]).unwrap();
    assert!(!opened.is_sound(&pager));
}
