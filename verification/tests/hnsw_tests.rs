use rawkit::hnsw::HnswGraph;

/// Points on a line, stored by node id beside the graph, with the
/// distance between two of them as the key.
struct LineIndex {
    graph: HnswGraph,
    points: Vec<i64>,
}

impl LineIndex {
    fn new(m: usize, ef_construction: usize, ef_search: usize) -> Self {
        LineIndex { graph: HnswGraph::with_params(m, ef_construction, ef_search), points: Vec::new() }
    }

    fn upsert(&mut self, soul: &str, at: i64, level: usize) -> (usize, Option<usize>) {
        self.points.push(at);
        let points = &self.points;
        let dist = |a: usize, b: usize| (points[a] - points[b]).unsigned_abs() as u32;
        self.graph.upsert_at_level(soul, level, &dist)
    }

    fn search(&self, at: i64, top_k: usize) -> Vec<(String, u32)> {
        let points = &self.points;
        let dist = |j: usize| (points[j] - at).unsigned_abs() as u32;
        self.graph.search(top_k, &dist)
    }
}

fn souls(results: &[(String, u32)]) -> Vec<&str> {
    results.iter().map(|(s, _)| s.as_str()).collect()
}

#[test]
fn empty_graph_finds_nothing() {
    let index = LineIndex::new(4, 10, 10);
    assert!(index.graph.is_empty());
    assert_eq!(index.graph.len(), 0);
    assert!(index.search(5, 3).is_empty());
}

#[test]
fn default_parameters() {
    let g = HnswGraph::new();
    assert_eq!(g.node_count(), 0);
    assert!(g.is_empty());
}

#[test]
fn nearest_first() {
    let mut index = LineIndex::new(4, 10, 10);
    assert_eq!(index.upsert("a", 0, 0), (0, None));
    assert_eq!(index.upsert("b", 10, 1), (1, None));
    assert_eq!(index.upsert("c", 20, 0), (2, None));

    let r = index.search(11, 1);
    assert_eq!(souls(&r), vec!["b"]);
    assert_eq!(r[0].1, 1);

    let r = index.search(11, 3);
    assert_eq!(souls(&r), vec!["b", "c", "a"]);
    assert_eq!(r.iter().map(|(_, k)| *k).collect::<Vec<_>>(), vec![1, 9, 11]);
}

#[test]
fn top_k_zero_finds_nothing() {
    let mut index = LineIndex::new(4, 10, 10);
    index.upsert("a", 0, 0);
    assert!(index.search(0, 0).is_empty());
}

#[test]
fn upsert_replaces_the_soul() {
    let mut index = LineIndex::new(4, 10, 10);
    index.upsert("a", 0, 0);
    index.upsert("b", 100, 0);
    assert_eq!(index.upsert("a", 50, 0), (2, Some(0)));
    assert_eq!(index.graph.len(), 2);
    assert_eq!(index.graph.node_count(), 3);
    assert_eq!(index.graph.id_of("a"), Some(2));

    let r = index.search(0, 5);
    assert_eq!(souls(&r), vec!["a", "b"]);
    assert_eq!(r[0].1, 50);
}

#[test]
fn removed_souls_are_not_found() {
    let mut index = LineIndex::new(4, 10, 10);
    index.upsert("a", 0, 0);
    index.upsert("b", 5, 0);
    index.upsert("c", 10, 0);
    assert_eq!(index.graph.remove("b"), Some(1));
    assert_eq!(index.graph.remove("b"), None);
    assert_eq!(index.graph.len(), 2);
    assert_eq!(index.graph.id_of("b"), None);

    let r = index.search(5, 3);
    assert_eq!(r.len(), 2);
    assert!(!souls(&r).contains(&"b"));
}

#[test]
fn removing_everything_empties_results() {
    let mut index = LineIndex::new(4, 10, 10);
    index.upsert("a", 0, 2);
    index.graph.remove("a");
    assert!(index.search(0, 3).is_empty());
}

#[test]
fn exact_nearest_when_search_keeps_every_candidate() {
    let mut index = LineIndex::new(8, 64, 500);
    let mut seed: u64 = 7;
    for i in 0..200 {
        seed = seed.wrapping_mul(6364136223846793005).wrapping_add(1442695040888963407);
        let level = (seed >> 62) as usize;
        index.upsert(&format!("p/{i}"), (i * 3) as i64, level);
    }
    assert_eq!(index.graph.len(), 200);
    for query in [0i64, 1, 299, 451, 597, 1000] {
        let r = index.search(query, 3);
        assert_eq!(r.len(), 3);
        let nearest = (query.clamp(0, 597) + 1) / 3;
        let expected = format!("p/{}", nearest);
        assert_eq!(r[0].0, expected);
        assert!(r[0].1 <= r[1].1 && r[1].1 <= r[2].1);
    }
}

#[test]
fn search_keeps_top_k_candidates_when_ef_search_is_smaller() {
    let mut index = LineIndex::new(4, 10, 1);
    for (i, soul) in ["a", "b", "c", "d", "e", "f"].iter().enumerate() {
        index.upsert(soul, (i as i64) * 10, 0);
    }
    let r = index.search(0, 6);
    assert_eq!(r.len(), 6);
    assert_eq!(souls(&r), vec!["a", "b", "c", "d", "e", "f"]);
    let r = index.search(0, 4);
    assert_eq!(souls(&r), vec!["a", "b", "c", "d"]);
}

#[test]
fn pruned_links_keep_the_nearest() {
    // With m = 1 the bottom layer keeps two links per node. Once "c" and
    // "d" are in, "a" and "c" keep their two nearest links and drop the
    // far "b", which no search from the entry reaches any more.
    let mut index = LineIndex::new(1, 10, 10);
    index.upsert("a", 0, 0);
    index.upsert("b", 100, 0);
    index.upsert("c", 1, 0);
    index.upsert("d", 2, 0);
    let r = index.search(0, 4);
    assert_eq!(souls(&r), vec!["a", "c", "d"]);
}
