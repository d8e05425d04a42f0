use nanostore::hnsw::cache::{NodeCache, NodeCacheStats, NODE_CACHE_SIZE};
use nanostore::hnsw::mapping::{read_metadata, write_metadata, HNSW_MAGIC};
use nanostore::hnsw::node::{load_node, HnswNode};
use nanostore::hnsw::query::VectorSearchOptions;
use nanostore::hnsw::search::{select_neighbors, sort_candidates, Candidate};
use nanostore::hnsw::table::{HnswConfig, PagedHnswVector, VectorMetric};
use nanostore::hnsw::verify::{count_reachable_nodes, VectorFault, VectorWarning};
use nanostore::pager::{Page, PageId, PageSize, PageType, Pager, PagerError};
use nanostore::snap::Snapshot;
use nanostore::table::{Corruption, TableEngineKind, TableError};
use nanostore::types::{LogSequenceNumber, TableId, TransactionId};

fn bits(v: &[f32]) -> Vec<u32> {
    v.iter().map(|x| x.to_bits()).collect()
}

/// The squared distance, in thousandths.
fn squared(a: &[u32], b: &[u32]) -> i64 {
    let mut sum = 0.0f64;
    for i in 0..a.len() {
        let d = f32::from_bits(a[i]) as f64 - f32::from_bits(b[i]) as f64;
        sum += d * d;
    }
    (sum * 1000.0).round() as i64
}

fn small_config(dimensions: usize) -> HnswConfig {
    HnswConfig {
        dimensions,
        metric: VectorMetric::Euclidean,
        max_connections: 4,
        max_connections_layer0: 8,
        ef_construction: 32,
        ..HnswConfig::default()
    }
}

fn index(pager: &mut Pager, dimensions: usize) -> PagedHnswVector {
    PagedHnswVector::new(
        TableId::from(1),
        "vectors".to_string(),
        pager,
        small_config(dimensions),
    )
    .unwrap()
}

fn at(lsn: u64) -> Snapshot {
    Snapshot::at(LogSequenceNumber::from(lsn))
}

fn best(limit: usize) -> VectorSearchOptions {
    VectorSearchOptions { limit, ef_search: None }
}

fn fill(t: &mut PagedHnswVector, pager: &mut Pager, n: u8) {
    for i in 0..n {
        let layer = if i % 7 == 3 { 2 } else { (i % 2) as usize };
        t.insert_vector(pager, &squared, &[i], &bits(&[i as f32, 0.0]), layer)
            .unwrap();
    }
}

#[test]
fn default_parameters() {
    let c = HnswConfig::default();
    assert_eq!(c.dimensions, 128);
    assert_eq!(c.metric, VectorMetric::Cosine);
    assert_eq!(c.max_connections, 16);
    assert_eq!(c.max_connections_layer0, 32);
    assert_eq!(c.ef_construction, 200);
    assert_eq!(f64::from_bits(c.ml), 1.0 / (16.0_f64).ln());
    assert_eq!(c.cache_capacity, 100_000);
    for code in 0..4 {
        assert_eq!(VectorMetric::from_code(code).unwrap().code(), code);
    }
    assert_eq!(VectorMetric::from_code(4), None);
}

#[test]
fn node_bytes_are_read_back() {
    let mut node = HnswNode::new(b"key".to_vec(), bits(&[1.0, -2.5]), 2, TransactionId::from(7));
    node.neighbors[0].push(11);
    node.neighbors[0].push(12);
    node.neighbors[2].push(13);
    let bytes = node.serialize();
    let back = HnswNode::deserialize(&bytes).unwrap();
    assert_eq!(back.id, b"key".to_vec());
    assert_eq!(back.vector, bits(&[1.0, -2.5]));
    assert_eq!(back.layer, 2);
    assert_eq!(back.neighbors, vec![vec![11, 12], vec![], vec![13]]);
    assert_eq!(back.version_chain.created_by, TransactionId::from(7));
    assert!(back.version_chain.commit_lsn.is_none());
    for cut in 0..bytes.len() {
        assert!(HnswNode::deserialize(&bytes[..cut]).is_none());
    }
}

#[test]
fn candidates_are_sorted_and_equals_keep_their_order() {
    let cs = vec![
        Candidate { node_id: 1, distance: 5 },
        Candidate { node_id: 2, distance: -1 },
        Candidate { node_id: 3, distance: 5 },
        Candidate { node_id: 4, distance: 0 },
    ];
    let ids: Vec<u32> = sort_candidates(&cs).iter().map(|c| c.node_id).collect();
    assert_eq!(ids, vec![2, 4, 1, 3]);
}

#[test]
fn redundant_neighbors_are_passed_over() {
    let mut pager = Pager::create(PageSize::Size4KB);
    let mut t = index(&mut pager, 2);
    // Two close to each other on one side, one alone on the other side.
    let points = [[10.0, 0.0], [10.5, 0.0], [-12.0, 0.0]];
    for (i, p) in points.iter().enumerate() {
        t.insert_vector(&mut pager, &squared, &[i as u8], &bits(p), 0).unwrap();
    }
    let ids: Vec<u32> = (0..3u8).map(|i| *t.id_to_node.get(&[i]).unwrap()).collect();
    let query = bits(&[0.0, 0.0]);
    let cs: Vec<Candidate> = (0..3)
        .map(|i| Candidate { node_id: ids[i], distance: squared(&query, &bits(&points[i])) })
        .collect();
    assert_eq!(select_neighbors(&pager, &squared, &cs, 2, true), vec![ids[0], ids[2]]);
    assert_eq!(select_neighbors(&pager, &squared, &cs, 2, false), vec![ids[0], ids[1]]);
    assert_eq!(select_neighbors(&pager, &squared, &cs, 3, true), vec![ids[0], ids[1], ids[2]]);
}

#[test]
fn nearest_vectors_are_found() {
    let mut pager = Pager::create(PageSize::Size4KB);
    let mut t = index(&mut pager, 2);
    fill(&mut t, &mut pager, 30);
    assert_eq!(t.num_vectors, 30);
    assert_eq!(t.max_layer, 2);
    let hits = t
        .search_vector(&pager, &squared, &bits(&[17.2, 0.0]), best(3))
        .unwrap();
    let ids: Vec<u8> = hits.iter().map(|h| h.id[0]).collect();
    assert_eq!(ids, vec![17, 18, 16]);
    assert_eq!(hits[0].distance, 40);
    for i in 0..30u8 {
        let hits = t
            .search_vector(&pager, &squared, &bits(&[i as f32, 0.0]), best(1))
            .unwrap();
        assert_eq!(hits.len(), 1);
        assert_eq!(hits[0].id, vec![i]);
        assert_eq!(hits[0].distance, 0);
    }
    let none = t
        .search_vector(&pager, &squared, &bits(&[1.0, 0.0]), best(0))
        .unwrap();
    assert_eq!(none.len(), 0);
}

#[test]
fn links_stay_within_their_limits() {
    let mut pager = Pager::create(PageSize::Size8KB);
    let mut t = index(&mut pager, 2);
    fill(&mut t, &mut pager, 40);
    let report = t.verify(&pager, &NodeCache::new(NODE_CACHE_SIZE));
    assert_eq!(report.checked_items, 40);
    assert_eq!(report.errors, vec![]);
    for w in &report.warnings {
        assert!(!matches!(w, VectorWarning::Disconnected { .. }));
        assert!(!matches!(w, VectorWarning::TooManyLinks { .. }));
        assert!(!matches!(w, VectorWarning::LowReciprocity { .. }));
    }
    let quality = report
        .warnings
        .iter()
        .find(|w| matches!(w, VectorWarning::GraphQuality { .. }))
        .unwrap();
    match quality {
        VectorWarning::GraphQuality { links, mutual, nodes } => {
            assert_eq!(*nodes, 40);
            assert_eq!(mutual, links);
            assert!(*links > 0);
        }
        _ => unreachable!(),
    }
    assert_eq!(count_reachable_nodes(&pager, t.entry_point.unwrap()), 40);
}

#[test]
fn refused_vectors_change_nothing() {
    let mut pager = Pager::create(PageSize::Size4KB);
    let mut t = index(&mut pager, 2);
    let v = bits(&[1.0, 2.0]);
    t.insert_vector(&mut pager, &squared, b"a", &v, 0).unwrap();
    assert_eq!(
        t.insert_vector(&mut pager, &squared, b"a", &v, 0),
        Err(TableError::AlreadyExists)
    );
    assert_eq!(
        t.insert_vector(&mut pager, &squared, b"b", &bits(&[1.0]), 0),
        Err(TableError::DimensionMismatch { expected: 2, found: 1 })
    );
    assert_eq!(
        t.insert_vector_tx(&mut pager, &squared, b"b", &bits(&[1.0]), 0, TransactionId::from(1)),
        Err(TableError::DimensionMismatch { expected: 2, found: 1 })
    );
    assert_eq!(
        t.search_vector(&pager, &squared, &bits(&[1.0]), best(1)).err(),
        Some(TableError::DimensionMismatch { expected: 2, found: 1 })
    );
    assert_eq!(
        t.search_vector_snapshot(&pager, &squared, &bits(&[1.0]), 1, None, &at(1)).err(),
        Some(TableError::DimensionMismatch { expected: 2, found: 1 })
    );
    assert_eq!(
        t.delete_vector(&mut pager, &squared, b"x"),
        Err(TableError::KeyNotFound)
    );
    assert_eq!(
        t.delete_vector_tx(&mut pager, b"x", TransactionId::from(1)),
        Err(TableError::KeyNotFound)
    );
    assert_eq!(t.num_vectors, 1);
}

#[test]
fn vectors_that_fit_no_page_are_refused() {
    let mut pager = Pager::create(PageSize::Size4KB);
    let mut t = index(&mut pager, 1200);
    let v = vec![0u32; 1200];
    let r = t.insert_vector(&mut pager, &squared, b"a", &v, 0);
    assert!(matches!(r, Err(TableError::Pager(PagerError::PageOverflow { .. }))));
    assert_eq!(t.num_vectors, 0);
    assert_eq!(t.entry_point, None);
}

#[test]
fn empty_index_finds_nothing() {
    let mut pager = Pager::create(PageSize::Size4KB);
    let t = index(&mut pager, 2);
    let q = bits(&[0.0, 0.0]);
    assert_eq!(t.search_vector(&pager, &squared, &q, best(5)).unwrap().len(), 0);
    assert_eq!(
        t.search_vector_snapshot(&pager, &squared, &q, 5, None, &at(9)).unwrap().len(),
        0
    );
    let report = t.verify(&pager, &NodeCache::new(NODE_CACHE_SIZE));
    assert_eq!(report.checked_items, 0);
    assert_eq!(report.errors, vec![]);
    assert_eq!(
        report.warnings,
        vec![VectorWarning::NodeCache { hits: 0, misses: 0, evictions: 0 }]
    );
}

#[test]
fn deleted_vectors_are_not_found() {
    let mut pager = Pager::create(PageSize::Size4KB);
    let mut t = index(&mut pager, 2);
    fill(&mut t, &mut pager, 20);
    let gone = *t.id_to_node.get(&[10]).unwrap();
    t.delete_vector(&mut pager, &squared, &[10]).unwrap();
    assert_eq!(t.num_vectors, 19);
    let hits = t
        .search_vector(&pager, &squared, &bits(&[10.1, 0.0]), best(2))
        .unwrap();
    let ids: Vec<u8> = hits.iter().map(|h| h.id[0]).collect();
    assert_eq!(ids, vec![11, 9]);
    for i in 0..20u8 {
        if i != 10 {
            let node = load_node(&pager, *t.id_to_node.get(&[i]).unwrap()).unwrap();
            for list in &node.neighbors {
                assert!(!list.contains(&gone));
            }
        }
    }
    assert_eq!(
        t.delete_vector(&mut pager, &squared, &[10]),
        Err(TableError::KeyNotFound)
    );
}

#[test]
fn links_lead_both_ways() {
    let mut pager = Pager::create(PageSize::Size4KB);
    let mut t = index(&mut pager, 2);
    fill(&mut t, &mut pager, 25);
    t.delete_vector(&mut pager, &squared, &[3]).unwrap();
    t.delete_vector(&mut pager, &squared, &[17]).unwrap();
    let ids: Vec<u32> = (0..25u8).filter_map(|i| t.id_to_node.get(&[i]).copied()).collect();
    assert_eq!(ids.len(), 23);
    for id in &ids {
        let node = load_node(&pager, *id).unwrap();
        for (layer, list) in node.neighbors.iter().enumerate() {
            assert!(list.len() <= if layer == 0 { 8 } else { 4 });
            for other in list {
                assert!(ids.contains(other));
                let back = load_node(&pager, *other).unwrap();
                assert!(back.neighbors[layer].contains(id));
            }
        }
    }
}

#[test]
fn entry_point_is_replaced_by_the_highest_node() {
    let mut pager = Pager::create(PageSize::Size4KB);
    let mut t = index(&mut pager, 1);
    for (i, layer) in [0usize, 3, 1, 2, 2].iter().enumerate() {
        t.insert_vector(&mut pager, &squared, &[i as u8], &bits(&[i as f32]), *layer)
            .unwrap();
    }
    assert_eq!(t.entry_point, t.id_to_node.get(&[1]).copied());
    assert_eq!(t.max_layer, 3);
    t.delete_vector(&mut pager, &squared, &[1]).unwrap();
    assert_eq!(t.entry_point, t.id_to_node.get(&[3]).copied());
    assert_eq!(t.max_layer, 2);
    for i in [0u8, 2, 3, 4] {
        t.delete_vector(&mut pager, &squared, &[i]).unwrap();
    }
    assert_eq!(t.entry_point, None);
    assert_eq!(t.max_layer, 0);
    assert_eq!(t.num_vectors, 0);
}

#[test]
fn snapshots_see_committed_vectors_only() {
    let mut pager = Pager::create(PageSize::Size4KB);
    let mut t = index(&mut pager, 1);
    let tx = TransactionId::from(5);
    let q = bits(&[1.0]);
    t.insert_vector_tx(&mut pager, &squared, b"a", &q, 0, tx).unwrap();
    t.insert_vector_tx(&mut pager, &squared, b"b", &bits(&[4.0]), 0, TransactionId::from(6))
        .unwrap();
    let seen = |t: &PagedHnswVector, pager: &Pager, lsn: u64| -> Vec<Vec<u8>> {
        t.search_vector_snapshot(pager, &squared, &q, 10, None, &at(lsn))
            .unwrap()
            .into_iter()
            .map(|h| h.id)
            .collect()
    };
    assert_eq!(seen(&t, &pager, 100), Vec::<Vec<u8>>::new());
    t.commit_versions(&mut pager, tx, LogSequenceNumber::from(10)).unwrap();
    assert_eq!(seen(&t, &pager, 9), Vec::<Vec<u8>>::new());
    assert_eq!(seen(&t, &pager, 10), vec![b"a".to_vec()]);
    t.commit_versions(&mut pager, TransactionId::from(6), LogSequenceNumber::from(12))
        .unwrap();
    assert_eq!(seen(&t, &pager, 12), vec![b"a".to_vec(), b"b".to_vec()]);

    let del = TransactionId::from(7);
    t.delete_vector_tx(&mut pager, b"a", del).unwrap();
    assert_eq!(seen(&t, &pager, 50), vec![b"a".to_vec(), b"b".to_vec()]);
    t.commit_versions(&mut pager, del, LogSequenceNumber::from(20)).unwrap();
    assert_eq!(seen(&t, &pager, 50), vec![b"b".to_vec()]);
    assert_eq!(seen(&t, &pager, 19), vec![b"a".to_vec(), b"b".to_vec()]);
    assert_eq!(t.vacuum(&mut pager, LogSequenceNumber::from(30)).unwrap(), 1);
    assert_eq!(seen(&t, &pager, 50), vec![b"b".to_vec()]);
    assert_eq!(t.vacuum(&mut pager, LogSequenceNumber::from(30)).unwrap(), 0);
}

#[test]
fn a_snapshot_search_gives_at_least_one() {
    let mut pager = Pager::create(PageSize::Size4KB);
    let mut t = index(&mut pager, 1);
    let tx = TransactionId::from(5);
    t.insert_vector_tx(&mut pager, &squared, b"a", &bits(&[1.0]), 0, tx).unwrap();
    t.insert_vector_tx(&mut pager, &squared, b"b", &bits(&[2.0]), 0, tx).unwrap();
    t.commit_versions(&mut pager, tx, LogSequenceNumber::from(1)).unwrap();
    let hits = t
        .search_vector_snapshot(&pager, &squared, &bits(&[1.9]), 0, None, &at(1))
        .unwrap();
    assert_eq!(hits.len(), 1);
    assert_eq!(hits[0].id, b"b".to_vec());
    let hits = t
        .search_vector_snapshot(&pager, &squared, &bits(&[1.9]), 1, Some(1), &at(1))
        .unwrap();
    assert_eq!(hits.len(), 1);
}

#[test]
fn stored_index_is_opened_again() {
    let mut pager = Pager::create(PageSize::Size4KB);
    let mut t = index(&mut pager, 2);
    let tx = TransactionId::from(1);
    for i in 0..60u8 {
        // Long keys, so that the map takes several pages.
        let mut key = vec![i; 120];
        key[1] = 0;
        t.insert_vector_tx(&mut pager, &squared, &key, &bits(&[i as f32, 1.0]), (i % 3) as usize, tx)
            .unwrap();
    }
    let root = t.root_page_id();
    let u = PagedHnswVector::load(TableId::from(2), "again".to_string(), &pager, root).unwrap();
    assert_eq!(u.num_vectors, 60);
    assert_eq!(u.entry_point, t.entry_point);
    assert_eq!(u.max_layer, t.max_layer);
    assert_eq!(u.config.dimensions, 2);
    assert_eq!(u.config.metric, VectorMetric::Euclidean);
    assert_eq!(u.config.max_connections, 4);
    assert_eq!(u.config.ml, t.config.ml);
    assert_eq!(u.config.cache_capacity, 100_000);
    assert_eq!(u.name(), "again");
    for i in 0..60u8 {
        let mut key = vec![i; 120];
        key[1] = 0;
        assert_eq!(u.id_to_node.get(&key), t.id_to_node.get(&key));
        assert!(u.id_to_node.get(&key).is_some());
    }
    let hits = u
        .search_vector(&pager, &squared, &bits(&[41.0, 1.0]), best(1))
        .unwrap();
    assert_eq!(hits[0].id[0], 41);
}

#[test]
fn damaged_roots_are_refused() {
    let mut pager = Pager::create(PageSize::Size4KB);
    let t = index(&mut pager, 2);
    let root = t.root_page_id();
    let open = |pager: &Pager, id: PageId| {
        PagedHnswVector::load(TableId::from(2), "x".to_string(), pager, id).err()
    };
    assert_eq!(open(&pager, root), None);
    let good = read_metadata(&pager, root).unwrap();
    assert_eq!(good.magic, HNSW_MAGIC);
    let mut m = good;
    m.magic = 1;
    write_metadata(&mut pager, root, &m).unwrap();
    assert_eq!(
        open(&pager, root),
        Some(TableError::Corruption(Corruption::InvalidVectorMagic(1)))
    );
    m = good;
    m.version = 2;
    write_metadata(&mut pager, root, &m).unwrap();
    assert_eq!(open(&pager, root), Some(TableError::InvalidFormatVersion(2)));
    m = good;
    m.metric = 4;
    write_metadata(&mut pager, root, &m).unwrap();
    assert_eq!(
        open(&pager, root),
        Some(TableError::Corruption(Corruption::InvalidMetric(4)))
    );
    m = good;
    m.mapping_page_id = 99;
    write_metadata(&mut pager, root, &m).unwrap();
    assert_eq!(
        open(&pager, root),
        Some(TableError::Pager(PagerError::PageNotFound(PageId(99))))
    );
    let short = pager.allocate_page(PageType::VectorIndex);
    assert_eq!(
        open(&pager, short),
        Some(TableError::Corruption(Corruption::ShortVectorPage(short)))
    );
    m.mapping_page_id = short.0;
    write_metadata(&mut pager, root, &m).unwrap();
    assert_eq!(
        open(&pager, root),
        Some(TableError::Corruption(Corruption::ShortVectorPage(short)))
    );
    let mut page = Page::new(short, PageType::VectorIndex);
    page.data = vec![5, 0, 0, 0, 0, 0, 0, 0, 0, 0, 0, 0];
    pager.write_page(page).unwrap();
    assert_eq!(
        open(&pager, root),
        Some(TableError::Corruption(Corruption::TruncatedVectorMap))
    );
    let mut page = Page::new(short, PageType::VectorIndex);
    page.data = short.0.to_le_bytes().to_vec();
    pager.write_page(page).unwrap();
    assert_eq!(
        open(&pager, root),
        Some(TableError::Corruption(Corruption::OverflowCycle(short)))
    );
}

#[test]
fn verification_reports_damage() {
    let mut pager = Pager::create(PageSize::Size4KB);
    let mut t = index(&mut pager, 1);
    for i in 0..3u8 {
        t.insert_vector(&mut pager, &squared, &[i], &bits(&[i as f32]), 0).unwrap();
    }
    let broken = *t.id_to_node.get(&[2]).unwrap();
    let other = *t.id_to_node.get(&[0]).unwrap();
    pager.free_page(PageId(broken as u64)).unwrap();
    t.config.dimensions = 2;
    let report = t.verify(&pager, &NodeCache::new(NODE_CACHE_SIZE));
    let lost = TableError::Pager(PagerError::PageNotFound(PageId(broken as u64)));
    assert!(report
        .errors
        .contains(&VectorFault::UnreadableNode { node: broken, error: lost }));
    assert!(report.errors.contains(&VectorFault::BadNeighbor {
        node: other,
        layer: 0,
        neighbor: broken,
        error: lost
    }));
    assert!(report.errors.contains(&VectorFault::WrongDimensions {
        node: other,
        expected: 2,
        found: 1
    }));
    t.entry_point = None;
    t.config.dimensions = 1;
    t.config.max_connections_layer0 = 1;
    let report = t.verify(&pager, &NodeCache::new(NODE_CACHE_SIZE));
    assert_eq!(report.errors[0], VectorFault::NoEntryPoint);
    assert!(report
        .warnings
        .contains(&VectorWarning::TooManyLinks { node: other, layer: 0, links: 2, max: 1 }));
    assert!(report
        .warnings
        .contains(&VectorWarning::LayerLinks { layer: 0, links: 4, nodes: 3 }));
    assert!(report
        .warnings
        .contains(&VectorWarning::GraphQuality { links: 4, mutual: 2, nodes: 3 }));
    assert!(report
        .warnings
        .contains(&VectorWarning::LowReciprocity { links: 4, mutual: 2 }));
}

#[test]
fn statistics_and_settings() {
    let mut pager = Pager::create(PageSize::Size4KB);
    let mut t = index(&mut pager, 2);
    fill(&mut t, &mut pager, 3);
    let s = t.stats();
    assert_eq!(s.row_count, Some(3));
    assert_eq!(s.total_size_bytes, Some(3 * 2 * 4 + 3 * 32 + 3 * 8 * 4 + 4096));
    let s = t.specialty_stats();
    assert_eq!(s.entry_count, Some(3));
    assert_eq!(s.distinct_keys, Some(3));
    assert_eq!(s.size_bytes, Some(3 * 2 * 4 + 3 * 32 + 3 * 8 * 4 + 4096));
    assert_eq!(t.kind(), TableEngineKind::VectorHnsw);
    assert!(t.capabilities().memory_resident);
    assert!(t.specialty_capabilities().approximate);
    assert_eq!(t.table_id(), TableId::from(1));
    assert_eq!(t.dimensions(), 2);
    assert_eq!(t.metric(), VectorMetric::Euclidean);
    t.set_ef_construction(9);
    t.set_max_connections(5);
    assert_eq!(t.config.ef_construction, 9);
    assert_eq!(t.config.max_connections, 5);
    assert_eq!(t.config.max_connections_layer0, 10);
    assert_eq!(t.next_random(), 21_562_465_348);
    assert_eq!(t.rng_state, 21_562_465_348);
}

#[test]
fn nodes_are_read_from_their_pages_once() {
    let mut pager = Pager::create(PageSize::Size4KB);
    let mut t = index(&mut pager, 2);
    fill(&mut t, &mut pager, 3);
    let ids: Vec<u32> = (0..3u8).map(|i| *t.id_to_node.get(&[i]).unwrap()).collect();
    let mut cache = NodeCache::new(2);
    assert_eq!(cache.load(&pager, ids[0]).unwrap().id, vec![0]);
    assert_eq!(cache.load(&pager, ids[0]).unwrap().id, vec![0]);
    cache.load(&pager, ids[1]).unwrap();
    assert_eq!(cache.len(), 2);
    assert_eq!(cache.stats, NodeCacheStats { hits: 1, misses: 2, evictions: 0 });
    // The third node makes the others go.
    cache.load(&pager, ids[2]).unwrap();
    assert_eq!(cache.len(), 1);
    assert!(cache.get(ids[0]).is_none());
    assert_eq!(cache.stats, NodeCacheStats { hits: 1, misses: 3, evictions: 1 });
    let missing = PageId(999);
    assert_eq!(
        cache.load(&pager, 999).err(),
        Some(TableError::Pager(PagerError::PageNotFound(missing)))
    );
    let report = t.verify(&pager, &cache);
    assert_eq!(
        report.warnings.last(),
        Some(&VectorWarning::NodeCache { hits: 1, misses: 4, evictions: 1 })
    );
    let mut node = load_node(&pager, ids[2]).unwrap();
    node.neighbors[0] = vec![ids[0]];
    cache.update(&mut pager, ids[2], node).unwrap();
    assert_eq!(cache.get(ids[2]).unwrap().neighbors[0], vec![ids[0]]);
    assert_eq!(load_node(&pager, ids[2]).unwrap().neighbors[0], vec![ids[0]]);
    let copy = load_node(&pager, ids[2]).unwrap();
    let id = cache.store(&mut pager, copy).unwrap();
    assert_eq!(load_node(&pager, id).unwrap().id, vec![2]);
    assert_eq!(cache.get(id).unwrap().id, vec![2]);
}

#[test]
fn preloaded_nodes_stay_in_memory() {
    let mut pager = Pager::create(PageSize::Size4KB);
    let mut t = index(&mut pager, 2);
    fill(&mut t, &mut pager, 10);
    let mut cache = NodeCache::new(4);
    t.preload_all_nodes(&pager, &mut cache).unwrap();
    assert_eq!(cache.len(), 10);
    assert!(cache.preloaded);
    for i in 0..10u8 {
        let id = *t.id_to_node.get(&[i]).unwrap();
        assert_eq!(cache.load(&pager, id).unwrap().id, vec![i]);
    }
    assert_eq!(cache.stats, NodeCacheStats { hits: 10, misses: 0, evictions: 0 });
    let gone = *t.id_to_node.get(&[5]).unwrap();
    pager.free_page(PageId(gone as u64)).unwrap();
    let mut cache = NodeCache::new(4);
    assert_eq!(
        t.preload_all_nodes(&pager, &mut cache),
        Err(TableError::Pager(PagerError::PageNotFound(PageId(gone as u64))))
    );
    assert!(!cache.preloaded);
    assert_eq!(cache.len(), 5);
}

#[test]
fn searches_give_no_more_than_they_are_asked_for() {
    let mut pager = Pager::create(PageSize::Size4KB);
    let mut t = index(&mut pager, 2);
    fill(&mut t, &mut pager, 30);
    for limit in [1usize, 3, 10] {
        let hits = t
            .search_vector(&pager, &squared, &bits(&[12.2, 0.0]), best(limit))
            .unwrap();
        assert_eq!(hits.len(), limit);
        assert_eq!(hits[0].id, vec![12]);
    }
}
