use rawkit::hnsw::HnswGraph;

/// Cosine distance: one minus the cosine similarity; one where either
/// vector is zero.
fn cosine_distance(a: &[f32], b: &[f32]) -> f32 {
    let mut dot = 0.0f32;
    let mut norm_a = 0.0f32;
    let mut norm_b = 0.0f32;
    for (x, y) in a.iter().zip(b.iter()) {
        dot += x * y;
        norm_a += x * x;
        norm_b += y * y;
    }
    let denom = norm_a.sqrt() * norm_b.sqrt();
    if denom == 0.0 {
        return 1.0;
    }
    1.0 - (dot / denom)
}

fn distance_key(d: f32) -> u32 {
    if d.is_nan() {
        return u32::MAX;
    }
    let d = if d == 0.0 { 0.0f32 } else { d };
    let bits = d.to_bits();
    if bits & 0x8000_0000 != 0 {
        !bits
    } else {
        bits | 0x8000_0000
    }
}

fn key_distance(k: u32) -> f32 {
    if k == u32::MAX {
        return f32::NAN;
    }
    if k & 0x8000_0000 != 0 {
        f32::from_bits(k & 0x7fff_ffff)
    } else {
        f32::from_bits(!k)
    }
}

/// The graph with f32 vectors kept beside it by node id, compared by
/// cosine distance.
struct HnswIndex {
    dimensions: usize,
    ml: f64,
    graph: HnswGraph,
    vectors: Vec<Vec<f32>>,
}

impl HnswIndex {
    fn new(dimensions: usize) -> Self {
        HnswIndex { dimensions, ml: 1.0 / (16f64).ln(), graph: HnswGraph::new(), vectors: Vec::new() }
    }

    fn upsert(&mut self, soul: &str, vector: Vec<f32>) {
        if let Some(old_id) = self.graph.id_of(soul) {
            self.vectors[old_id] = vec![0.0; self.dimensions];
        }
        let r: f64 = rand::random();
        let level = (-r.ln() * self.ml).floor() as usize;
        self.vectors.push(vector);
        let vectors = &self.vectors;
        let dist = |a: usize, b: usize| distance_key(cosine_distance(&vectors[a], &vectors[b]));
        self.graph.upsert_at_level(soul, level, &dist);
    }

    fn remove(&mut self, soul: &str) {
        if let Some(id) = self.graph.remove(soul) {
            self.vectors[id] = vec![0.0; self.dimensions];
        }
    }

    fn search(&self, query: &[f32], top_k: usize) -> Vec<(String, f32)> {
        let vectors = &self.vectors;
        let dist = |j: usize| distance_key(cosine_distance(query, &vectors[j]));
        self.graph.search(top_k, &dist).into_iter().map(|(s, k)| (s, 1.0 - key_distance(k))).collect()
    }

    fn len(&self) -> usize {
        self.graph.len()
    }
}

#[test]
fn distance_keys_order_as_distances() {
    let ds = [-2.0f32, -0.5, -0.0, 0.0, 1e-9, 0.5, 1.0, 2.0, f32::INFINITY];
    for w in ds.windows(2) {
        assert!(distance_key(w[0]) <= distance_key(w[1]));
    }
    assert_eq!(distance_key(-0.0), distance_key(0.0));
    assert!(distance_key(f32::NAN) > distance_key(f32::INFINITY));
    for d in ds {
        assert_eq!(key_distance(distance_key(d)), if d == 0.0 { 0.0 } else { d });
    }
}

#[test]
fn test_hnsw_basic() {
    let mut index = HnswIndex::new(3);
    index.upsert("a", vec![1.0, 0.0, 0.0]);
    index.upsert("b", vec![0.0, 1.0, 0.0]);
    index.upsert("c", vec![0.9, 0.1, 0.0]);

    let results = index.search(&[1.0, 0.0, 0.0], 2);
    assert_eq!(results.len(), 2);
    assert_eq!(results[0].0, "a");
    assert!(results[0].1 > 0.99);
}

#[test]
fn test_hnsw_remove() {
    let mut index = HnswIndex::new(3);
    index.upsert("a", vec![1.0, 0.0, 0.0]);
    index.upsert("b", vec![0.0, 1.0, 0.0]);
    assert_eq!(index.len(), 2);

    index.remove("a");
    assert_eq!(index.len(), 1);

    let results = index.search(&[1.0, 0.0, 0.0], 5);
    assert!(results.iter().all(|(soul, _)| soul != "a"));
}

#[test]
fn test_hnsw_update() {
    let mut index = HnswIndex::new(3);
    index.upsert("a", vec![1.0, 0.0, 0.0]);
    index.upsert("a", vec![0.0, 1.0, 0.0]);

    let results = index.search(&[0.0, 1.0, 0.0], 1);
    assert_eq!(results[0].0, "a");
    assert!(results[0].1 > 0.99);
}

#[test]
fn test_hnsw_empty() {
    let index = HnswIndex::new(3);
    let results = index.search(&[1.0, 0.0, 0.0], 5);
    assert!(results.is_empty());
}

#[test]
fn test_hnsw_performance_improvement() {
    let mut index = HnswIndex::new(128);
    for i in 0..5000 {
        let mut v = vec![0.0f32; 128];
        v[i % 128] = 1.0;
        v[(i * 7) % 128] = 0.5;
        index.upsert(&format!("v/{i}"), v);
    }

    let query = vec![1.0f32; 128];
    let start = std::time::Instant::now();
    for _ in 0..100 {
        index.search(&query, 10);
    }
    let elapsed = start.elapsed();
    let ops_sec = 100.0 / elapsed.as_secs_f64();

    println!("HNSW search: {ops_sec:.0} ops/sec (5K vectors, 128 dims)");
    assert!(ops_sec > 100.0, "HNSW should be faster than brute force");
}

#[test]
fn test_hnsw_many_vectors() {
    let mut index = HnswIndex::new(64);

    for i in 0..1000 {
        let mut v = vec![0.0f32; 64];
        v[i % 64] = 1.0;
        v[(i + 1) % 64] = 0.5;
        index.upsert(&format!("doc/{i}"), v);
    }

    assert_eq!(index.len(), 1000);

    let mut query = vec![0.0f32; 64];
    query[0] = 1.0;
    query[1] = 0.5;

    let results = index.search(&query, 5);
    assert_eq!(results.len(), 5);
    assert!(results[0].1 > 0.9);
}
