use nanostore::graph::memory::{GraphConfig, MemoryGraphTable};
use nanostore::graph::walk::{Trail, Visitor};
use nanostore::table::{TableEngineKind, TableError};
use nanostore::types::{LogSequenceNumber, TableId, TransactionId};

fn graph(config: GraphConfig) -> MemoryGraphTable {
    MemoryGraphTable::new(TableId::from(1), "social_network".to_string(), config)
}

fn add(graph: &mut MemoryGraphTable, source: &[u8], target: &[u8], id: &[u8]) {
    graph
        .add_edge(
            source,
            b"follows",
            target,
            id,
            TransactionId::from(1),
            LogSequenceNumber::from(1),
        )
        .unwrap();
}

fn commit(graph: &mut MemoryGraphTable, lsn: u64) {
    graph
        .commit_versions(TransactionId::from(1), LogSequenceNumber::from(lsn))
        .unwrap();
}

#[test]
fn edges_are_seen_from_both_ends_once_committed() {
    let mut g = graph(GraphConfig::new().with_directed(true));
    add(&mut g, b"alice", b"bob", b"edge1");
    add(&mut g, b"bob", b"charlie", b"edge2");
    add(&mut g, b"alice", b"charlie", b"edge3");
    assert!(g.neighbors(b"alice").unwrap().is_empty());
    commit(&mut g, 2);
    assert_eq!(
        g.neighbors(b"alice").unwrap(),
        vec![b"bob".to_vec(), b"charlie".to_vec()]
    );
    let incoming = g.incoming(b"charlie", Some(b"follows")).unwrap().collect_all().unwrap();
    assert_eq!(incoming.len(), 2);
    assert_eq!(incoming[0].source, b"bob".to_vec());
    assert_eq!(incoming[0].edge_id, b"edge2".to_vec());
    assert!(g.has_edge(b"alice", b"bob", None).unwrap());
    assert!(!g.has_edge(b"bob", b"alice", None).unwrap());
    assert!(!g.has_edge(b"alice", b"bob", Some(b"likes")).unwrap());
    assert_eq!(g.vertices().unwrap().len(), 3);
    let stats = g.specialty_stats().unwrap();
    assert_eq!(stats.entry_count, Some(3));
    assert_eq!(stats.distinct_keys, Some(3));
    assert_eq!(g.stats().unwrap().row_count, Some(9));
    assert_eq!(g.kind(), TableEngineKind::GraphAdjacency);
}

#[test]
fn undirected_edges_lead_both_ways() {
    let mut g = graph(GraphConfig::new().with_directed(false));
    g.add_edge_with_weight(
        b"a",
        b"road",
        b"b",
        b"e",
        Some(2.5f64.to_bits()),
        TransactionId::from(1),
        LogSequenceNumber::from(1),
    )
    .unwrap();
    commit(&mut g, 2);
    assert!(g.has_edge(b"a", b"b", None).unwrap());
    assert!(g.has_edge(b"b", b"a", None).unwrap());
    let there = g.outgoing(b"a", None).unwrap();
    assert_eq!(there.edges[0].weight, Some(2.5f64.to_bits()));
    let back = g.outgoing(b"b", None).unwrap();
    assert_eq!(back.edges[0].weight, None);
    g.remove_edge(
        b"a",
        b"road",
        b"b",
        b"e",
        TransactionId::from(2),
        LogSequenceNumber::from(3),
    )
    .unwrap();
    assert!(g.has_edge(b"a", b"b", None).unwrap());
    commit(&mut g, 4);
    assert!(!g.has_edge(b"a", b"b", None).unwrap());
    assert!(!g.has_edge(b"b", b"a", None).unwrap());
    assert_eq!(g.vacuum(LogSequenceNumber::from(9)).unwrap(), 9);
    assert!(!g.has_edge(b"a", b"b", None).unwrap());
}

#[test]
fn without_an_index_nothing_is_listed() {
    let mut g = graph(GraphConfig::new().with_memory_index(false));
    add(&mut g, b"a", b"b", b"e");
    commit(&mut g, 2);
    assert!(g.neighbors(b"a").unwrap().is_empty());
    assert_eq!(g.vertices().unwrap_err(), TableError::OperationNotSupported);
    assert_eq!(g.specialty_stats().unwrap().entry_count, Some(3));
}

fn sample() -> MemoryGraphTable {
    let mut g = graph(GraphConfig::new());
    add(&mut g, b"a", b"b", b"1");
    add(&mut g, b"a", b"c", b"2");
    add(&mut g, b"b", b"d", b"3");
    add(&mut g, b"c", b"d", b"4");
    add(&mut g, b"d", b"a", b"5");
    add(&mut g, b"x", b"a", b"6");
    commit(&mut g, 2);
    g
}

fn walked(vertices: &[Vec<u8>]) -> String {
    String::from_utf8(vertices.concat()).unwrap()
}

#[test]
fn walks_reach_every_vertex_once() {
    let g = sample();
    let mut trail = Trail::new(None);
    g.bfs(b"a", &mut trail).unwrap();
    assert_eq!(walked(&trail.vertices), "abcd");
    let mut trail = Trail::new(None);
    g.dfs(b"a", &mut trail).unwrap();
    assert_eq!(walked(&trail.vertices), "abdc");
}

#[test]
fn visitors_stop_a_walk() {
    let g = sample();
    let mut trail = Trail::new(Some(b"b".to_vec()));
    g.bfs(b"a", &mut trail).unwrap();
    assert_eq!(walked(&trail.vertices), "ab");
    let mut trail = Trail::new(Some(b"b".to_vec()));
    g.dfs(b"a", &mut trail).unwrap();
    assert_eq!(walked(&trail.vertices), "ab");
    let mut trail = Trail::new(Some(b"a".to_vec()));
    g.dfs(b"a", &mut trail).unwrap();
    assert_eq!(walked(&trail.vertices), "a");
}

struct Counter {
    left: usize,
    seen: Vec<Vec<u8>>,
}

impl Visitor for Counter {
    fn visit(&mut self, vertex: &[u8]) -> bool {
        self.seen.push(vertex.to_vec());
        self.left -= 1;
        self.left > 0
    }
}

#[test]
fn visitors_may_keep_a_state_of_their_own() {
    let g = sample();
    let mut counter = Counter { left: 3, seen: Vec::new() };
    g.bfs(b"a", &mut counter).unwrap();
    assert_eq!(walked(&counter.seen), "abc");
    let mut counter = Counter { left: 3, seen: Vec::new() };
    g.dfs(b"a", &mut counter).unwrap();
    assert_eq!(walked(&counter.seen), "abd");
}

#[test]
fn nearer_vertices_are_visited_first() {
    let mut g = graph(GraphConfig::new());
    add(&mut g, b"a", b"b", b"1");
    add(&mut g, b"b", b"c", b"2");
    add(&mut g, b"a", b"e", b"3");
    add(&mut g, b"c", b"d", b"4");
    add(&mut g, b"e", b"d", b"5");
    commit(&mut g, 2);
    let mut trail = Trail::new(None);
    g.bfs(b"a", &mut trail).unwrap();
    assert_eq!(walked(&trail.vertices), "abecd");
}

#[test]
fn weights_that_are_no_numbers_are_not_kept() {
    for weight in [f64::NAN, f64::INFINITY, f64::NEG_INFINITY] {
        let mut g = graph(GraphConfig::new());
        g.add_edge_with_weight(
            b"a",
            b"road",
            b"b",
            b"e",
            Some(weight.to_bits()),
            TransactionId::from(1),
            LogSequenceNumber::from(1),
        )
        .unwrap();
        commit(&mut g, 2);
        assert_eq!(g.outgoing(b"a", None).unwrap().edges[0].weight, None);
        assert_eq!(g.incoming(b"b", None).unwrap().edges[0].weight, None);
    }
}

#[test]
fn vertices_ascend_and_stay_after_their_edges_went() {
    let mut g = graph(GraphConfig::new());
    add(&mut g, b"c", b"a", b"1");
    add(&mut g, b"b", b"a", b"2");
    commit(&mut g, 2);
    let names = vec![b"a".to_vec(), b"b".to_vec(), b"c".to_vec()];
    assert_eq!(g.vertices().unwrap(), names);
    g.remove_edge(
        b"b",
        b"follows",
        b"a",
        b"2",
        TransactionId::from(1),
        LogSequenceNumber::from(3),
    )
    .unwrap();
    commit(&mut g, 4);
    assert_eq!(g.vertices().unwrap(), names);
}

#[test]
fn a_vacuum_keeps_edges_and_vertices() {
    let mut g = sample();
    add(&mut g, b"a", b"b", b"1");
    commit(&mut g, 3);
    let around: Vec<_> = [b"a", b"b", b"c", b"d", b"x"]
        .iter()
        .map(|v| g.neighbors(*v).unwrap())
        .collect();
    let vertices = g.vertices().unwrap();
    assert!(g.vacuum(LogSequenceNumber::from(9)).unwrap() > 0);
    let after: Vec<_> = [b"a", b"b", b"c", b"d", b"x"]
        .iter()
        .map(|v| g.neighbors(*v).unwrap())
        .collect();
    assert_eq!(after, around);
    assert_eq!(g.vertices().unwrap(), vertices);
    assert_eq!(g.incoming(b"a", None).unwrap().edges.len(), 2);
    assert_eq!(g.vacuum(LogSequenceNumber::from(9)).unwrap(), 0);
}

#[test]
fn listed_edges_are_those_that_were_asked_for() {
    let mut g = sample();
    g.add_edge(
        b"a",
        b"likes",
        b"b",
        b"7",
        TransactionId::from(1),
        LogSequenceNumber::from(3),
    )
    .unwrap();
    commit(&mut g, 4);
    let edges = g.outgoing(b"a", Some(b"follows")).unwrap().edges;
    assert_eq!(edges.len(), 2);
    assert!(edges.iter().all(|e| e.source == b"a".to_vec() && e.label == b"follows".to_vec()));
    let edges = g.incoming(b"d", None).unwrap().edges;
    assert_eq!(edges.len(), 2);
    assert!(edges.iter().all(|e| e.target == b"d".to_vec()));
}

#[test]
fn undirected_neighbours_are_mutual() {
    let mut g = graph(GraphConfig::new().with_directed(false));
    add(&mut g, b"a", b"b", b"1");
    add(&mut g, b"c", b"a", b"2");
    commit(&mut g, 2);
    for u in [b"a", b"b", b"c"] {
        for v in [b"a", b"b", b"c"] {
            assert_eq!(
                g.neighbors(u).unwrap().contains(&v.to_vec()),
                g.neighbors(v).unwrap().contains(&u.to_vec())
            );
        }
    }
    assert_eq!(g.neighbors(b"a").unwrap(), vec![b"b".to_vec(), b"c".to_vec()]);
}

#[test]
fn walks_visit_what_they_can_reach_and_nothing_else() {
    let mut g = sample();
    add(&mut g, b"y", b"z", b"7");
    commit(&mut g, 3);
    for (start, reached) in [(b"x", "abcdx"), (b"y", "yz"), (b"z", "z")] {
        let mut wide = Trail::new(None);
        g.bfs(start, &mut wide).unwrap();
        let mut deep = Trail::new(None);
        g.dfs(start, &mut deep).unwrap();
        for trail in [wide, deep] {
            let mut sorted = trail.vertices.clone();
            sorted.sort();
            assert_eq!(walked(&sorted), reached);
        }
    }
    let mut stopped = Trail::new(Some(b"c".to_vec()));
    g.bfs(b"a", &mut stopped).unwrap();
    assert_eq!(walked(&stopped.vertices), "abc");
}

#[test]
fn neighbours_are_listed_once_for_each_edge() {
    let mut g = graph(GraphConfig::new().with_directed(false));
    add(&mut g, b"a", b"b", b"1");
    add(&mut g, b"b", b"a", b"2");
    add(&mut g, b"a", b"c", b"3");
    commit(&mut g, 2);
    let sorted = |vertex: &[u8]| {
        let mut list = g.neighbors(vertex).unwrap();
        list.sort();
        walked(&list)
    };
    assert_eq!(sorted(b"a"), "bbc");
    assert_eq!(sorted(b"b"), "aa");
    assert_eq!(sorted(b"c"), "a");
}
