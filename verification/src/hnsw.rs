//! The layered proximity graph of an HNSW (Hierarchical Navigable Small
//! World) index, after Malkov and Yashunin: which node links to which at
//! each layer, the entry point, and the soul each node stands for.
//!
//! The graph holds no vectors. Every operation that compares distances
//! takes the distance as a function of node ids, returning a key that
//! orders as the distance does; a smaller key is a nearer node.

use vstd::prelude::*;
use vstd::set_lib::{lemma_int_range, lemma_len_subset, set_int_range};
use crate::assoc::{assoc_map, find_key, has_key, keys_unique, lemma_assoc_dom, lemma_assoc_index, lemma_assoc_len, lemma_assoc_push, lemma_assoc_remove, lemma_assoc_update};

verus! {

/// Keys in ascending order.
pub open spec fn keys_sorted(s: Seq<(usize, u32)>) -> bool {
    forall|i: int, j: int| 0 <= i < j < s.len() ==> s[i].1 <= s[j].1
}

/// No node id occurs twice.
pub open spec fn ids_distinct(s: Seq<(usize, u32)>) -> bool {
    forall|i: int, j: int| 0 <= i < s.len() && 0 <= j < s.len() && i != j ==> s[i].0 != s[j].0
}

/// Every node id is below `n`.
pub open spec fn ids_below(s: Seq<(usize, u32)>, n: int) -> bool {
    forall|i: int| 0 <= i < s.len() ==> s[i].0 < n
}

/// The pairs of the soul index, by the views of their souls.
pub open spec fn index_seq(v: Seq<(String, usize)>) -> Seq<(Seq<char>, usize)> {
    v.map_values(|p: (String, usize)| (p.0@, p.1))
}

/// The mathematical model of an [`HnswGraph`].
pub struct HnswView {
    /// Maximum links per node on the layers above the bottom one.
    pub m: usize,
    /// Maximum links per node on the bottom layer.
    pub m_max0: usize,
    /// Candidates kept while inserting.
    pub ef_construction: usize,
    /// Candidates kept while searching.
    pub ef_search: usize,
    /// The soul of each node, by id. A replaced or removed soul keeps its
    /// node, unreachable from the index.
    pub souls: Seq<Seq<char>>,
    /// The top layer of each node.
    pub levels: Seq<usize>,
    /// The links of each node on each of its layers.
    pub links: Seq<Seq<Seq<usize>>>,
    /// The live souls and their node ids.
    pub index: Map<Seq<char>, usize>,
    /// The node where searches start.
    pub entry: Option<usize>,
    /// The highest layer of any node.
    pub max_level: usize,
}

/// The layered graph of an HNSW index.
pub struct HnswGraph {
    m: usize,
    m_max0: usize,
    ef_construction: usize,
    ef_search: usize,
    souls: Vec<String>,
    levels: Vec<usize>,
    links: Vec<Vec<Vec<usize>>>,
    index: Vec<(String, usize)>,
    entry_point: Option<usize>,
    max_level: usize,
}

/// Node `x` links back to node `id` on layer `l`, or has the most links
/// the layer allows, or has no such layer.
pub open spec fn linked_back(links: Seq<Seq<Seq<usize>>>, x: int, id: int, l: int, cap: int) -> bool {
    l < links[x].len() ==> links[x][l].contains(id as usize) || links[x][l].len() == cap
}

/// Every node that `id` links to on layer `l` links back to it or is full.
pub open spec fn links_back(links: Seq<Seq<Seq<usize>>>, id: int, l: int, cap: int) -> bool {
    forall|j: int| 0 <= j < links[id][l].len() ==> #[trigger] linked_back(links, links[id][l][j] as int, id, l, cap)
}

/// The links of every node, by the views of the lists.
pub open spec fn links_view(links: Seq<Vec<Vec<usize>>>) -> Seq<Seq<Seq<usize>>> {
    links.map_values(|row: Vec<Vec<usize>>| row@.map_values(|l: Vec<usize>| l@))
}

proof fn lemma_links_view(links: Seq<Vec<Vec<usize>>>, a: int, l: int)
    requires
        0 <= a < links.len(),
    ensures
        links_view(links).len() == links.len(),
        links_view(links)[a].len() == links[a]@.len(),
        0 <= l < links[a]@.len() ==> links_view(links)[a][l] == links[a]@[l]@,
{
}

/// Whether some candidate is node `v`.
#[verifier::opaque]
pub open spec fn has_id(s: Seq<(usize, u32)>, v: int) -> bool {
    exists|i: int| 0 <= i < s.len() && s[i].0 == v
}

proof fn lemma_has_id(s: Seq<(usize, u32)>, v: int, i: int)
    requires
        0 <= i < s.len(),
        s[i].0 == v,
    ensures
        has_id(s, v),
{
    reveal(has_id);
}

proof fn lemma_has_id_witness(s: Seq<(usize, u32)>, v: int) -> (i: int)
    requires
        has_id(s, v),
    ensures
        0 <= i < s.len(),
        s[i].0 == v,
{
    reveal(has_id);
    choose|i: int| 0 <= i < s.len() && s[i].0 == v
}

/// The conditions of [`explored`], for given explored nodes and keys.
pub open spec fn explored_by<F: Fn(usize) -> u32>(
    links: Seq<Seq<Seq<usize>>>,
    n: int,
    layer: int,
    start: int,
    dist: F,
    cands: Seq<(usize, u32)>,
    visited: Set<int>,
    keys: Map<int, u32>,
) -> bool {
    &&& visited.contains(start)
    &&& forall|v: int| #[trigger] visited.contains(v)
        ==> 0 <= v < n && keys.contains_key(v) && dist.ensures((v as usize,), keys[v])
    &&& forall|i: int| 0 <= i < cands.len()
        ==> visited.contains(#[trigger] cands[i].0 as int) && keys[cands[i].0 as int] == cands[i].1
    &&& forall|v: int, i: int| #![trigger visited.contains(v), cands[i]]
        visited.contains(v) && !has_id(cands, v) && 0 <= i < cands.len() ==> cands[i].1 <= keys[v]
    &&& forall|i: int, k: int|
        0 <= i < cands.len() && 0 <= layer < links[cands[i].0 as int].len()
            && 0 <= k < links[cands[i].0 as int][layer].len()
            ==> visited.contains(#[trigger] links[cands[i].0 as int][layer][k] as int)
}

/// What a best-first search of `layer` from `start` has found in `cands`:
/// there is a set of explored nodes, each with the key `dist` gave for it,
/// that holds `start`, every candidate, and every link on `layer` of every
/// candidate; and no explored node left out of the candidates is nearer
/// than a candidate.
pub open spec fn explored<F: Fn(usize) -> u32>(
    links: Seq<Seq<Seq<usize>>>,
    n: int,
    layer: int,
    start: int,
    dist: F,
    cands: Seq<(usize, u32)>,
) -> bool {
    exists|visited: Set<int>, keys: Map<int, u32>|
        #[trigger] explored_by(links, n, layer, start, dist, cands, visited, keys)
}

/// The conditions of [`explored_from`], for given explored nodes and keys.
pub open spec fn explored_from_by<P: Fn(usize, usize) -> u32>(
    links: Seq<Seq<Seq<usize>>>,
    n: int,
    layer: int,
    start: int,
    dist: P,
    q: int,
    cands: Seq<(usize, u32)>,
    visited: Set<int>,
    keys: Map<int, u32>,
) -> bool {
    &&& visited.contains(start)
    &&& forall|v: int| #[trigger] visited.contains(v)
        ==> 0 <= v < n && keys.contains_key(v) && dist.ensures((q as usize, v as usize), keys[v])
    &&& forall|i: int| 0 <= i < cands.len()
        ==> visited.contains(#[trigger] cands[i].0 as int) && keys[cands[i].0 as int] == cands[i].1
    &&& forall|v: int, i: int| #![trigger visited.contains(v), cands[i]]
        visited.contains(v) && !has_id(cands, v) && 0 <= i < cands.len() ==> cands[i].1 <= keys[v]
    &&& forall|i: int, k: int|
        0 <= i < cands.len() && 0 <= layer < links[cands[i].0 as int].len()
            && 0 <= k < links[cands[i].0 as int][layer].len()
            ==> visited.contains(#[trigger] links[cands[i].0 as int][layer][k] as int)
}

/// [`explored`], with the distance to node `q` as the key: what a
/// best-first search of `layer` from `start` for the nodes nearest to `q`
/// has found in `cands`.
pub open spec fn explored_from<P: Fn(usize, usize) -> u32>(
    links: Seq<Seq<Seq<usize>>>,
    n: int,
    layer: int,
    start: int,
    dist: P,
    q: int,
    cands: Seq<(usize, u32)>,
) -> bool {
    exists|visited: Set<int>, keys: Map<int, u32>|
        #[trigger] explored_from_by(links, n, layer, start, dist, q, cands, visited, keys)
}

/// The node ids of the first `k` candidates (all of them if fewer).
pub open spec fn first_ids(cands: Seq<(usize, u32)>, k: int) -> Seq<usize> {
    Seq::new(if k < cands.len() { k as nat } else { cands.len() }, |i: int| cands[i].0)
}

/// Node `q`'s links on `layer`, `own`, are (unless `q` is itself among
/// them) the first `cap` candidates of a best-first search of the layer
/// for the nodes nearest to `q` that keeps `ef` candidates: it kept no
/// more (at least one), and where it kept fewer it found every node
/// reachable from where it started.
pub open spec fn nearest_linked<P: Fn(usize, usize) -> u32>(
    links: Seq<Seq<Seq<usize>>>,
    n: int,
    layer: int,
    dist: P,
    q: int,
    own: Seq<usize>,
    cap: int,
    ef: int,
) -> bool {
    exists|start: usize, cands: Seq<(usize, u32)>| #![trigger explored_from(links, n, layer, start as int, dist, q, cands)] {
        &&& start < n
        &&& 1 <= cands.len()
        &&& (cands.len() <= ef || cands.len() == 1)
        &&& (cands.len() < ef ==> holds_reachable(links, layer, start as int, cands))
        &&& keys_sorted(cands)
        &&& ids_distinct(cands)
        &&& explored_from(links, n, layer, start as int, dist, q, cands)
        &&& (!first_ids(cands, cap).contains(q as usize) ==> own == first_ids(cands, cap))
    }
}

/// `kept` is what node `b` keeps of the links `grown`: none of the links
/// dropped is nearer to `b` than one kept. `gk` and `kk` are the keys that
/// `dist` gave from `b` to the nodes of `grown` and of `kept`, in order,
/// and every kept key is at most every dropped node's key.
pub open spec fn keeps_nearest_by<P: Fn(usize, usize) -> u32>(
    b: usize,
    grown: Seq<usize>,
    kept: Seq<usize>,
    dist: P,
    gk: Seq<u32>,
    kk: Seq<u32>,
) -> bool {
    &&& gk.len() == grown.len()
    &&& kk.len() == kept.len()
    &&& forall|j: int| 0 <= j < grown.len() ==> dist.ensures((b, grown[j]), #[trigger] gk[j])
    &&& forall|q: int| 0 <= q < kept.len() ==> dist.ensures((b, kept[q]), #[trigger] kk[q])
    &&& forall|j: int, q: int| 0 <= j < grown.len() && 0 <= q < kept.len() && !kept.contains(grown[j])
        ==> #[trigger] kk[q] <= #[trigger] gk[j]
}

/// [`keeps_nearest_by`], for some keys.
pub open spec fn keeps_nearest<P: Fn(usize, usize) -> u32>(b: usize, grown: Seq<usize>, kept: Seq<usize>, dist: P) -> bool {
    exists|gk: Seq<u32>, kk: Seq<u32>| #[trigger] keeps_nearest_by(b, grown, kept, dist, gk, kk)
}

/// What linking node `id` back did to node `a`'s links on a layer, from
/// `before` to `after`: nothing, `id` appended, or, where appending it
/// went past the layer's cap, the list cut to `cap` links, keeping the
/// nearest to `a`.
pub open spec fn relinked<P: Fn(usize, usize) -> u32>(
    a: usize,
    before: Seq<usize>,
    after: Seq<usize>,
    id: usize,
    dist: P,
    cap: int,
) -> bool {
    ||| after == before
    ||| (before.len() + 1 <= cap && after == before.push(id))
    ||| (before.len() + 1 > cap && after.len() == cap && keeps_nearest(a, before.push(id), after, dist))
}

/// `k` layers without links.
pub open spec fn empty_rows(k: nat) -> Seq<Seq<usize>> {
    Seq::new(k, |_i: int| Seq::<usize>::empty())
}

/// Every node reachable from `start` on `layer` is among the candidates:
/// `start` is, and so is every node that a candidate links to there.
pub open spec fn holds_reachable(links: Seq<Seq<Seq<usize>>>, layer: int, start: int, cands: Seq<(usize, u32)>) -> bool {
    &&& has_id(cands, start)
    &&& forall|i: int, k: int|
        0 <= i < cands.len() && 0 <= layer < links[cands[i].0 as int].len()
            && 0 <= k < links[cands[i].0 as int][layer].len()
            ==> has_id(cands, #[trigger] links[cands[i].0 as int][layer][k] as int)
}

/// Node `a` links to node `b` on `layer`.
pub open spec fn links_to(links: Seq<Seq<Seq<usize>>>, layer: int, a: int, b: int) -> bool {
    &&& 0 <= layer < links[a].len()
    &&& exists|k: int| 0 <= k < links[a][layer].len() && links[a][layer][k] as int == b
}

/// Node `i` of `path` links to node `i + 1` on `layer`.
pub open spec fn path_step(links: Seq<Seq<Seq<usize>>>, layer: int, path: Seq<int>, i: int) -> bool {
    links_to(links, layer, path[i], path[i + 1])
}

/// `path` walks the links of `layer` from `start`: each node after the
/// first is linked to by the one before it.
pub open spec fn is_path(links: Seq<Seq<Seq<usize>>>, layer: int, start: int, path: Seq<int>) -> bool {
    &&& path.len() >= 1
    &&& path[0] == start
    &&& forall|i: int| 0 <= i < path.len() - 1 ==> #[trigger] path_step(links, layer, path, i)
}

/// Node `i` of a path from the start is among candidates that hold what
/// is reachable.
proof fn lemma_path_found(links: Seq<Seq<Seq<usize>>>, layer: int, start: int, cands: Seq<(usize, u32)>, path: Seq<int>, i: int)
    requires
        holds_reachable(links, layer, start, cands),
        is_path(links, layer, start, path),
        0 <= i < path.len(),
    ensures
        has_id(cands, path[i]),
    decreases i,
{
    if i > 0 {
        lemma_path_found(links, layer, start, cands, path, i - 1);
        assert(path_step(links, layer, path, i - 1));
        let j = lemma_has_id_witness(cands, path[i - 1]);
        let a = path[i - 1];
        let row = links[a][layer];
        let k = choose|k: int| 0 <= k < row.len() && #[trigger] row[k] as int == path[i];
        assert(has_id(cands, links[cands[j].0 as int][layer][k] as int));
    }
}

/// Candidates that hold what is reachable hold every node of every path
/// on that layer from the start.
pub proof fn law_reachable_found(links: Seq<Seq<Seq<usize>>>, layer: int, start: int, cands: Seq<(usize, u32)>, path: Seq<int>)
    requires
        holds_reachable(links, layer, start, cands),
        is_path(links, layer, start, path),
    ensures
        forall|i: int| 0 <= i < path.len() ==> has_id(cands, #[trigger] path[i]),
{
    assert forall|i: int| 0 <= i < path.len() implies has_id(cands, #[trigger] path[i]) by {
        lemma_path_found(links, layer, start, cands, path, i);
    }
}

/// How many of the candidates are live.
pub open spec fn live_count(g: HnswView, cands: Seq<(usize, u32)>) -> nat
    decreases cands.len(),
{
    if cands.len() == 0 {
        0
    } else {
        live_count(g, cands.drop_first()) + if g.live(cands[0].0 as int) { 1nat } else { 0nat }
    }
}

/// The souls of the first `k` live candidates, in order, each with its
/// key.
pub open spec fn live_prefix(g: HnswView, cands: Seq<(usize, u32)>, k: nat) -> Seq<(Seq<char>, u32)>
    decreases cands.len(),
{
    if cands.len() == 0 || k == 0 {
        Seq::empty()
    } else if g.live(cands[0].0 as int) {
        seq![(g.souls[cands[0].0 as int], cands[0].1)] + live_prefix(g, cands.drop_first(), (k - 1) as nat)
    } else {
        live_prefix(g, cands.drop_first(), k)
    }
}

/// The number of candidates a search keeps on the bottom layer: the
/// larger of `ef_search` and `top_k`.
pub open spec fn search_width(ef_search: nat, top_k: nat) -> nat {
    if ef_search > top_k {
        ef_search
    } else {
        top_k
    }
}

/// The first `k` live candidates are `k` of them, or all of them where
/// fewer are live.
proof fn lemma_live_prefix_len(g: HnswView, cands: Seq<(usize, u32)>, k: nat)
    ensures
        live_prefix(g, cands, k).len() == (if live_count(g, cands) < k { live_count(g, cands) } else { k }),
    decreases cands.len(),
{
    if cands.len() > 0 && k > 0 {
        if g.live(cands[0].0 as int) {
            lemma_live_prefix_len(g, cands.drop_first(), (k - 1) as nat);
        } else {
            lemma_live_prefix_len(g, cands.drop_first(), k);
        }
    } else if cands.len() > 0 {
        lemma_live_prefix_len(g, cands.drop_first(), k);
    }
}

/// The souls of search results, by their views, with their keys.
pub open spec fn found_view(r: Seq<(String, u32)>) -> Seq<(Seq<char>, u32)> {
    r.map_values(|p: (String, u32)| (p.0@, p.1))
}

/// The keys `ks` are what `dist` gave for the nodes of `row`, in order,
/// and none of them is below `kr`: no node of `row` is nearer.
pub open spec fn no_nearer<F: Fn(usize) -> u32>(row: Seq<usize>, dist: F, kr: u32, ks: Seq<u32>) -> bool {
    &&& ks.len() == row.len()
    &&& forall|k: int| 0 <= k < row.len() ==> dist.ensures((row[k],), #[trigger] ks[k]) && kr <= ks[k]
}

/// Appending a key to a node's link keys leaves the best link among the
/// earlier ones as it was, and the new one is best where it is nearer
/// still.
proof fn lemma_best_link_push(ks: Seq<u32>, d: u32, kf: u32)
    ensures
        forall|k: nat| k <= ks.len() ==> #[trigger] best_link(ks.push(d), kf, k) == best_link(ks, kf, k),
        best_link(ks.push(d), kf, ks.len() + 1) == ({
            let b = best_link(ks, kf, ks.len());
            let cur = match b {
                Some(j) => ks[j],
                None => kf,
            };
            if d < cur { Some(ks.len() as int) } else { b }
        }),
{
    assert forall|k: nat| k <= ks.len() implies #[trigger] best_link(ks.push(d), kf, k) == best_link(ks, kf, k) by {
        lemma_best_link_prefix(ks, d, kf, k);
    }
    lemma_best_link_prefix(ks, d, kf, ks.len());
    let b = best_link(ks, kf, ks.len());
    if b is Some {
        lemma_best_link_bound(ks, kf, ks.len());
        assert(ks.push(d)[b->0] == ks[b->0]);
    }
}

/// The best link among the first `k` keys is one of them.
proof fn lemma_best_link_bound(ks: Seq<u32>, kf: u32, k: nat)
    ensures
        best_link(ks, kf, k) matches Some(j) ==> 0 <= j < k,
    decreases k,
{
    if k > 0 {
        lemma_best_link_bound(ks, kf, (k - 1) as nat);
    }
}

/// The best link among the first `k` keys is the same after a key is
/// appended, where `k` does not reach past the old keys.
proof fn lemma_best_link_prefix(ks: Seq<u32>, d: u32, kf: u32, k: nat)
    requires
        k <= ks.len(),
    ensures
        best_link(ks.push(d), kf, k) == best_link(ks, kf, k),
    decreases k,
{
    if k > 0 {
        lemma_best_link_prefix(ks, d, kf, (k - 1) as nat);
        lemma_best_link_bound(ks, kf, (k - 1) as nat);
        assert(ks.push(d)[k - 1] == ks[k - 1]);
    }
}

/// Where a greedy descent on `layer` that started at `entry` may stop at
/// `r`: `ke` and `kr` are the keys of `entry` and `r`, `r` is no farther
/// than `entry`, and no node that `r` links to on `layer` is nearer.
pub open spec fn greedy_stop<F: Fn(usize) -> u32>(
    g: HnswView,
    dist: F,
    entry: usize,
    r: usize,
    layer: usize,
    ke: u32,
    kr: u32,
    ks: Seq<u32>,
) -> bool {
    &&& dist.ensures((entry,), ke)
    &&& dist.ensures((r,), kr)
    &&& kr <= ke
    &&& (layer < g.links[r as int].len() ==> no_nearer(g.links[r as int][layer as int], dist, kr, ks))
}

/// Which of a node's links a greedy step moves to, looking at the first
/// `k` of them, whose keys are `ks`, from a node whose key is `kf`: the
/// first of the nearest, where one is nearer than `kf`; none otherwise.
pub open spec fn best_link(ks: Seq<u32>, kf: u32, k: nat) -> Option<int>
    decreases k,
{
    if k == 0 {
        None
    } else {
        let b = best_link(ks, kf, (k - 1) as nat);
        let cur = match b {
            Some(j) => ks[j],
            None => kf,
        };
        if ks[k - 1] < cur {
            Some(k - 1)
        } else {
            b
        }
    }
}

/// `ks` are the keys that `dist` gives for the links of node `a` on
/// `layer`, in order.
pub open spec fn row_keys<F: Fn(usize) -> u32>(links: Seq<Seq<Seq<usize>>>, layer: int, a: int, dist: F, ks: Seq<u32>) -> bool {
    &&& 0 <= layer < links[a].len()
    &&& ks.len() == links[a][layer].len()
    &&& forall|k: int| 0 <= k < ks.len() ==> dist.ensures((links[a][layer][k],), #[trigger] ks[k])
}

/// Step `i` of a greedy walk: node `i + 1` of `path` is the first of the
/// nearest links of node `i`, and nearer than it.
pub open spec fn walk_step<F: Fn(usize) -> u32>(
    links: Seq<Seq<Seq<usize>>>,
    layer: int,
    dist: F,
    path: Seq<usize>,
    keys: Seq<u32>,
    steps: Seq<Seq<u32>>,
    i: int,
) -> bool {
    &&& row_keys(links, layer, path[i] as int, dist, steps[i])
    &&& best_link(steps[i], keys[i], steps[i].len()) matches Some(j)
        && links[path[i] as int][layer][j] == path[i + 1] && steps[i][j] == keys[i + 1]
}

/// A greedy descent on `layer` from `entry`: `keys` are the keys of the
/// nodes of `path` and `steps` those of their links; each step moves to
/// the first of the nearest links, where one is nearer than the current
/// node, and the walk ends at a node with no nearer link (or no links on
/// the layer).
pub open spec fn greedy_walk<F: Fn(usize) -> u32>(
    links: Seq<Seq<Seq<usize>>>,
    layer: int,
    dist: F,
    entry: usize,
    path: Seq<usize>,
    keys: Seq<u32>,
    steps: Seq<Seq<u32>>,
) -> bool {
    &&& path.len() >= 1
    &&& path[0] == entry
    &&& keys.len() == path.len()
    &&& steps.len() == path.len()
    &&& forall|i: int| 0 <= i < path.len() ==> dist.ensures((path[i],), #[trigger] keys[i])
    &&& forall|i: int| 0 <= i < path.len() - 1 ==> #[trigger] walk_step(links, layer, dist, path, keys, steps, i)
    &&& (0 <= layer < links[path.last() as int].len() ==> {
        &&& row_keys(links, layer, path.last() as int, dist, steps.last())
        &&& best_link(steps.last(), keys.last(), steps.last().len()) is None
    })
}

/// Step `i` of a descent through the upper layers from layer `top`: a
/// greedy walk on layer `top - i` from node `i` of `eps` ends at node
/// `i + 1`.
pub open spec fn descent_step<F: Fn(usize) -> u32>(links: Seq<Seq<Seq<usize>>>, dist: F, top: int, eps: Seq<usize>, i: int) -> bool {
    exists|path: Seq<usize>, keys: Seq<u32>, steps: Seq<Seq<u32>>|
        #[trigger] greedy_walk(links, top - i, dist, eps[i], path, keys, steps) && path.last() == eps[i + 1]
}

/// `eps` are the nodes a descent passes through from layer `top` down to
/// layer 1: one greedy walk per layer, each starting where the one above
/// ended.
pub open spec fn descent<F: Fn(usize) -> u32>(links: Seq<Seq<Seq<usize>>>, dist: F, top: int, eps: Seq<usize>) -> bool {
    &&& eps.len() == top + 1
    &&& forall|i: int| 0 <= i < top ==> #[trigger] descent_step(links, dist, top, eps, i)
}

/// `start` is where a descent from the entry point through the layers
/// above the bottom one ends.
pub open spec fn descended<F: Fn(usize) -> u32>(g: HnswView, dist: F, start: usize) -> bool {
    exists|eps: Seq<usize>|
        #[trigger] descent(g.links, dist, g.max_level as int, eps) && g.entry == Some(eps[0]) && eps.last() == start
}

/// Each candidate's key is what `dist` gives for its node.
pub open spec fn keys_measured<F: Fn(usize) -> u32>(s: Seq<(usize, u32)>, dist: F) -> bool {
    forall|i: int| 0 <= i < s.len() ==> dist.ensures((s[i].0,), s[i].1)
}

/// What `swap_remove` leaves: the last element moved into the gap.
proof fn lemma_swap_remove(s: Seq<(usize, u32)>, w: int)
    requires
        0 <= w < s.len(),
    ensures
        ({
            let t = s.update(w, s.last()).drop_last();
            &&& t.len() == s.len() - 1
            &&& forall|i: int| 0 <= i < t.len() ==> #[trigger] t[i] == s[if i == w { s.len() - 1 } else { i }]
            &&& ids_distinct(s) ==> ids_distinct(t)
        }),
{
    let t = s.update(w, s.last()).drop_last();
    assert forall|i: int| 0 <= i < t.len() implies #[trigger] t[i] == s[if i == w { s.len() - 1 } else { i }] by {}
    if ids_distinct(s) {
        assert forall|i: int, j: int| 0 <= i < t.len() && 0 <= j < t.len() && i != j implies t[i].0 != t[j].0 by {
            assert(t[i] == s[if i == w { s.len() - 1 } else { i }]);
            assert(t[j] == s[if j == w { s.len() - 1 } else { j }]);
        }
    }
}

/// The greatest key, which the list has.
fn max_key(v: &Vec<(usize, u32)>) -> (r: u32)
    requires
        v.len() >= 1,
    ensures
        forall|i: int| 0 <= i < v.len() ==> v@[i].1 <= r,
        exists|i: int| 0 <= i < v.len() && v@[i].1 == r,
{
    let mut best = v[0].1;
    let mut i: usize = 1;
    while i < v.len()
        invariant
            1 <= i <= v.len(),
            forall|j: int| 0 <= j < i ==> v@[j].1 <= best,
            exists|j: int| 0 <= j < i && v@[j].1 == best,
        decreases v.len() - i,
    {
        if v[i].1 > best {
            best = v[i].1;
        }
        i = i + 1;
    }
    best
}

/// The position of the last of the elements with the greatest key.
fn last_max_index(v: &Vec<(usize, u32)>) -> (r: usize)
    requires
        v.len() >= 1,
    ensures
        r < v.len(),
        forall|i: int| 0 <= i < v.len() ==> v@[i].1 <= v@[r as int].1,
        forall|i: int| r < i < v.len() ==> v@[i].1 < v@[r as int].1,
{
    let mut best: usize = 0;
    let mut i: usize = 1;
    while i < v.len()
        invariant
            1 <= i <= v.len(),
            best < i,
            forall|j: int| 0 <= j < i ==> v@[j].1 <= v@[best as int].1,
            forall|j: int| best < j < i ==> v@[j].1 < v@[best as int].1,
        decreases v.len() - i,
    {
        if v[i].1 >= v[best].1 {
            best = i;
        }
        i = i + 1;
    }
    best
}

/// The candidates ordered by key, those with equal keys in their given
/// order.
fn sort_by_key(v: Vec<(usize, u32)>) -> (r: Vec<(usize, u32)>)
    ensures
        keys_sorted(r@),
        r@.to_multiset() == v@.to_multiset(),
        r.len() == v.len(),
        forall|i: int| 0 <= i < r.len() ==> v@.contains(#[trigger] r@[i]),
        forall|i: int| 0 <= i < v.len() ==> r@.contains(#[trigger] v@[i]),
        ids_distinct(v@) ==> ids_distinct(r@),
{
    broadcast use vstd::seq_lib::group_to_multiset_ensures;
    let mut out: Vec<(usize, u32)> = Vec::new();
    let mut i: usize = 0;
    while i < v.len()
        invariant
            i <= v.len(),
            keys_sorted(out@),
            out@.to_multiset() == v@.take(i as int).to_multiset(),
            ids_distinct(v@) ==> ids_distinct(out@),
        decreases v.len() - i,
    {
        let x = v[i];
        let mut pos: usize = 0;
        while pos < out.len() && out[pos].1 <= x.1
            invariant
                pos <= out.len(),
                forall|p: int| 0 <= p < pos ==> out@[p].1 <= x.1,
            decreases out.len() - pos,
        {
            pos = pos + 1;
        }
        let ghost before = out@;
        out.insert(pos, x);
        proof {
            assert(v@.take(i + 1) =~= v@.take(i as int).push(x));
            vstd::seq_lib::to_multiset_insert(before, pos as int, x);
            vstd::seq_lib::to_multiset_build(v@.take(i as int), x);
            assert(out@.to_multiset() == before.to_multiset().insert(x));
            assert(v@.take(i + 1).to_multiset() == v@.take(i as int).to_multiset().insert(x));
            assert forall|a: int, b: int| 0 <= a < b < out@.len() implies out@[a].1 <= out@[b].1 by {
                if b < pos {
                } else if b == pos {
                } else if a < pos {
                    assert(out@[b] == before[b - 1]);
                } else if a == pos {
                    assert(out@[b] == before[b - 1]);
                    assert(before[pos as int].1 > x.1);
                    assert(before[pos as int].1 <= before[b - 1].1);
                } else {
                    assert(out@[a] == before[a - 1]);
                    assert(out@[b] == before[b - 1]);
                }
            }
            if ids_distinct(v@) {
                assert forall|a: int, b: int| 0 <= a < out@.len() && 0 <= b < out@.len() && a != b
                    implies out@[a].0 != out@[b].0 by {
                    if a != pos && b != pos {
                        let a1 = if a < pos { a } else { a - 1 };
                        let b1 = if b < pos { b } else { b - 1 };
                        assert(out@[a] == before[a1]);
                        assert(out@[b] == before[b1]);
                    } else {
                        let o = if a == pos { b } else { a };
                        let o1 = if o < pos { o } else { o - 1 };
                        assert(out@[o] == before[o1]);
                        assert(before.contains(before[o1]));
                        vstd::seq_lib::to_multiset_contains(before, before[o1]);
                        vstd::seq_lib::to_multiset_contains(v@.take(i as int), before[o1]);
                        assert(v@.take(i as int).contains(before[o1]));
                        let q = choose|q: int| 0 <= q < i && v@.take(i as int)[q] == before[o1];
                        assert(v@[q] == before[o1]);
                        assert(v@[i as int] == x);
                    }
                }
            }
        }
        i = i + 1;
    }
    proof {
        assert(v@.take(v.len() as int) =~= v@);
        assert forall|p: int| 0 <= p < out.len() implies v@.contains(#[trigger] out@[p]) by {
            assert(out@.contains(out@[p]));
            assert(out@.to_multiset().count(out@[p]) > 0);
            assert(v@.to_multiset().count(out@[p]) > 0);
        }
        assert(out@.to_multiset().len() == v@.to_multiset().len());
        assert forall|p: int| 0 <= p < v.len() implies out@.contains(#[trigger] v@[p]) by {
            vstd::seq_lib::to_multiset_contains(v@, v@[p]);
            vstd::seq_lib::to_multiset_contains(out@, v@[p]);
        }
    }
    out
}

impl View for HnswGraph {
    type V = HnswView;

    closed spec fn view(&self) -> HnswView {
        HnswView {
            m: self.m,
            m_max0: self.m_max0,
            ef_construction: self.ef_construction,
            ef_search: self.ef_search,
            souls: self.souls@.map_values(|s: String| s@),
            levels: self.levels@,
            links: links_view(self.links@),
            index: assoc_map(index_seq(self.index@)),
            entry: self.entry_point,
            max_level: self.max_level,
        }
    }
}

impl HnswView {
    /// The number of nodes, live or not.
    pub open spec fn len(self) -> nat {
        self.souls.len()
    }

    /// The most links a node may have on `layer`.
    pub open spec fn cap(self, layer: int) -> int {
        if layer == 0 {
            self.m_max0 as int
        } else {
            self.m as int
        }
    }

    /// Whether node `id` stands for a live soul.
    pub open spec fn live(self, id: int) -> bool {
        exists|s: Seq<char>| #[trigger] self.index.contains_key(s) && self.index[s] == id
    }
}

/// A removed soul is never found: removal takes the soul out of the index,
/// and every soul that a search returns is in the index.
pub proof fn law_removed_never_found(before: HnswView, after: HnswView, soul: Seq<char>, found: Seq<(String, u32)>)
    requires
        after.index == before.index.remove(soul),
        forall|i: int| 0 <= i < found.len() ==> #[trigger] after.index.contains_key(found[i].0@),
    ensures
        forall|i: int| 0 <= i < found.len() ==> found[i].0@ != soul,
{
    assert forall|i: int| 0 <= i < found.len() implies found[i].0@ != soul by {
        assert(after.index.contains_key(found[i].0@));
    }
}

/// Upserting a soul as node `id` (new, so above every indexed node)
/// indexes the soul to it and keeps every other indexed soul where it was:
/// the number of indexed souls grows by one unless the soul was indexed
/// already, and then the soul's previous node, which no other soul shares,
/// is no longer live, so no search finds it again.
pub proof fn law_upsert_index(before: HnswView, after: HnswView, soul: Seq<char>, id: usize)
    requires
        before.index.dom().finite(),
        after.index == before.index.insert(soul, id),
        forall|s: Seq<char>| #[trigger] before.index.contains_key(s) ==> before.index[s] < id,
        forall|s: Seq<char>, t: Seq<char>| before.index.contains_key(s) && before.index.contains_key(t)
            && #[trigger] before.index[s] == #[trigger] before.index[t] ==> s == t,
    ensures
        after.index.len() == before.index.len() + (if before.index.contains_key(soul) { 0int } else { 1int }),
        after.index.contains_key(soul) && after.index[soul] == id,
        forall|s: Seq<char>| s != soul && #[trigger] before.index.contains_key(s)
            ==> after.index.contains_key(s) && after.index[s] == before.index[s],
        before.index.contains_key(soul) ==> !after.live(before.index[soul] as int),
{
    if before.index.contains_key(soul) {
        assert(before.index.insert(soul, id).dom() =~= before.index.dom());
        let old_id = before.index[soul];
        if after.live(old_id as int) {
            let s = choose|s: Seq<char>| #[trigger] after.index.contains_key(s) && after.index[s] == old_id as int;
            if s == soul {
                assert(after.index[s] == id);
            } else {
                assert(before.index[s] == before.index[soul]);
            }
        }
    } else {
        assert(before.index.insert(soul, id).dom() =~= before.index.dom().insert(soul));
    }
}

impl HnswGraph {
    /// The invariant of the graph: the parallel lists agree in length;
    /// every node has a list of links for each layer up to its level, and
    /// on each layer at most `cap` links, each to a node that exists; the
    /// index maps each live soul to a node that stands for it; the entry
    /// point exists exactly when a node does, and is on the top layer.
    pub closed spec fn wf(&self) -> bool {
        let n = self.souls@.len();
        &&& self.links_ok()
        &&& self.m_max0 == 2 * self.m
        &&& forall|a: int| 0 <= a < n ==> #[trigger] self.levels@[a] <= self.max_level
        &&& keys_unique(index_seq(self.index@))
        &&& forall|i: int| 0 <= i < self.index@.len() ==> #[trigger] self.index@[i].1 < n
        &&& forall|i: int| 0 <= i < self.index@.len() ==> self.souls@[#[trigger] self.index@[i].1 as int]@ == self.index@[i].0@
        &&& (self.entry_point is None <==> n == 0)
        &&& (self.entry_point matches Some(e) ==> e < n && self.levels@[e as int] == self.max_level)
    }

    /// The link structure: a list of links for each layer up to a node's
    /// level, at most `cap` links on each layer, each to a node that exists.
    closed spec fn links_ok(&self) -> bool {
        let n = self.souls@.len();
        &&& self.levels@.len() == n
        &&& self.links@.len() == n
        &&& forall|a: int| 0 <= a < n ==> #[trigger] self.links@[a].len() == self.levels@[a] + 1
        &&& forall|a: int, l: int| 0 <= a < n && 0 <= l < self.links@[a].len()
            ==> #[trigger] self.links@[a]@[l].len() <= self@.cap(l)
        &&& forall|a: int, l: int, k: int|
            0 <= a < n && 0 <= l < self.links@[a].len() && 0 <= k < self.links@[a]@[l].len()
            ==> #[trigger] self.links@[a]@[l]@[k] < n
    }

    /// What the invariant says of the model.
    pub proof fn lemma_wf(&self)
        requires
            self.wf(),
        ensures
            self@.levels.len() == self@.len(),
            self@.links.len() == self@.len(),
            self@.m_max0 == 2 * self@.m,
            forall|a: int| 0 <= a < self@.len() ==> #[trigger] self@.links[a].len() == self@.levels[a] + 1,
            forall|a: int| 0 <= a < self@.len() ==> #[trigger] self@.levels[a] <= self@.max_level,
            forall|a: int, l: int| 0 <= a < self@.len() && 0 <= l < self@.links[a].len()
                ==> #[trigger] self@.links[a][l].len() <= self@.cap(l),
            forall|a: int, l: int, k: int|
                0 <= a < self@.len() && 0 <= l < self@.links[a].len() && 0 <= k < self@.links[a][l].len()
                ==> #[trigger] self@.links[a][l][k] < self@.len(),
            forall|s: Seq<char>| #[trigger] self@.index.contains_key(s)
                ==> self@.index[s] < self@.len() && self@.souls[self@.index[s] as int] == s,
            self@.entry is None <==> self@.len() == 0,
            self@.entry matches Some(e) ==> e < self@.len() && self@.levels[e as int] == self@.max_level,
    {
        let s = index_seq(self.index@);
        lemma_assoc_dom(s);
        assert forall|a: int, l: int| 0 <= a < self@.len() && 0 <= l < self@.links[a].len()
            implies #[trigger] self@.links[a][l] == self.links@[a]@[l]@ && self@.links[a][l].len() <= self@.cap(l) by {
            lemma_links_view(self.links@, a, l);
            assert(self.links@[a]@[l].len() <= self@.cap(l));
        }
        assert forall|a: int| 0 <= a < self@.len() implies #[trigger] self@.links[a].len() == self.links@[a].len() by {
            lemma_links_view(self.links@, a, 0);
        }
        assert forall|k: Seq<char>| #[trigger] self@.index.contains_key(k)
            implies self@.index[k] < self@.len() && self@.souls[self@.index[k] as int] == k by {
            let i = choose|i: int| 0 <= i < s.len() && s[i].0 == k;
            lemma_assoc_index(s, i);
            assert(self.index@[i].1 < self.souls@.len());
            assert(self.souls@[self.index@[i].1 as int]@ == self.index@[i].0@);
        }
    }

    /// An empty graph with the usual parameters: 16 links per node
    /// (32 on the bottom layer), 200 candidates while inserting, 100 while
    /// searching.
    pub fn new() -> (r: HnswGraph)
        ensures
            r.wf(),
            r@.m == 16,
            r@.m_max0 == 32,
            r@.ef_construction == 200,
            r@.ef_search == 100,
            r@.len() == 0,
            r@.index == Map::<Seq<char>, usize>::empty(),
            r@.entry is None,
            r@.max_level == 0,
    {
        Self::with_params(16, 200, 100)
    }

    /// An empty graph: at most `m` links per node on the upper layers and
    /// `2 * m` on the bottom one.
    pub fn with_params(m: usize, ef_construction: usize, ef_search: usize) -> (r: HnswGraph)
        requires
            2 * m <= usize::MAX,
        ensures
            r.wf(),
            r@.m == m,
            r@.m_max0 == 2 * m,
            r@.ef_construction == ef_construction,
            r@.ef_search == ef_search,
            r@.len() == 0,
            r@.index == Map::<Seq<char>, usize>::empty(),
            r@.entry is None,
            r@.max_level == 0,
    {
        let r = HnswGraph {
            m,
            m_max0: m * 2,
            ef_construction,
            ef_search,
            souls: Vec::new(),
            levels: Vec::new(),
            links: Vec::new(),
            index: Vec::new(),
            entry_point: None,
            max_level: 0,
        };
        proof {
            assert(index_seq(r.index@) =~= Seq::<(Seq<char>, usize)>::empty());
            assert(r@.index =~= Map::<Seq<char>, usize>::empty());
        }
        r
    }

    /// The number of live souls.
    pub fn len(&self) -> (r: usize)
        requires
            self.wf(),
        ensures
            r == self@.index.len(),
    {
        proof {
            lemma_assoc_len(index_seq(self.index@));
        }
        self.index.len()
    }

    pub fn is_empty(&self) -> (r: bool)
        requires
            self.wf(),
        ensures
            r <==> self@.index.len() == 0,
    {
        self.len() == 0
    }

    /// The number of nodes, live or not: the id the next node gets.
    pub fn node_count(&self) -> (r: usize)
        ensures
            r == self@.len(),
    {
        self.souls.len()
    }

    /// The node that stands for a live soul.
    pub fn id_of(&self, soul: &str) -> (r: Option<usize>)
        requires
            self.wf(),
        ensures
            r == (if self@.index.contains_key(soul@) { Some(self@.index[soul@]) } else { None::<usize> }),
    {
        let ghost s = index_seq(self.index@);
        proof {
            lemma_assoc_dom(s);
        }
        match find_key(&self.index, soul) {
            Some(i) => {
                proof {
                    lemma_assoc_index(s, i as int);
                }
                Some(self.index[i].1)
            },
            None => {
                proof {
                    if has_key(s, soul@) {
                        let j = choose|j: int| 0 <= j < s.len() && s[j].0 == soul@;
                        assert(self.index@[j].0@ == soul@);
                    }
                }
                None
            },
        }
    }

    /// Remove a soul from the index; its node stays in the graph, out of
    /// search results. Returns the node it had, if it was live.
    pub fn remove(&mut self, soul: &str) -> (r: Option<usize>)
        requires
            old(self).wf(),
        ensures
            final(self).wf(),
            r == (if old(self)@.index.contains_key(soul@) { Some(old(self)@.index[soul@]) } else { None::<usize> }),
            final(self)@.index == old(self)@.index.remove(soul@),
            final(self)@.souls == old(self)@.souls,
            final(self)@.levels == old(self)@.levels,
            final(self)@.links == old(self)@.links,
            final(self)@.entry == old(self)@.entry,
            final(self)@.max_level == old(self)@.max_level,
    {
        let ghost s = index_seq(self.index@);
        proof {
            lemma_assoc_dom(s);
        }
        match find_key(&self.index, soul) {
            Some(i) => {
                proof {
                    lemma_assoc_index(s, i as int);
                    lemma_assoc_remove(s, i as int);
                }
                let (_, id) = self.index.remove(i);
                proof {
                    assert(index_seq(self.index@) =~= s.remove(i as int));
                    assert forall|j: int| 0 <= j < self.index@.len() implies #[trigger] self.index@[j].1 < self.souls@.len()
                        && self.souls@[self.index@[j].1 as int]@ == self.index@[j].0@ by {
                        if j < i {
                            assert(self.index@[j] == old(self).index@[j]);
                        } else {
                            assert(self.index@[j] == old(self).index@[j + 1]);
                        }
                    }
                }
                Some(id)
            },
            None => {
                proof {
                    if has_key(s, soul@) {
                        let j = choose|j: int| 0 <= j < s.len() && s[j].0 == soul@;
                        assert(self.index@[j].0@ == soul@);
                    }
                    assert(old(self)@.index.remove(soul@) =~= old(self)@.index);
                }
                None
            },
        }
    }

    /// Greedy descent on one layer: from `entry`, move to the nearest
    /// linked node while one is nearer than the current one.
    fn search_layer_single<F: Fn(usize) -> u32>(&self, dist: &F, entry: usize, layer: usize) -> (r: usize)
        requires
            self.links_ok(),
            entry < self@.len(),
            forall|j: usize| dist.requires((j,)),
        ensures
            r < self@.len(),
            exists|ke: u32, kr: u32, ks: Seq<u32>| #[trigger] greedy_stop(self@, *dist, entry, r, layer, ke, kr, ks),
            exists|path: Seq<usize>, keys: Seq<u32>, steps: Seq<Seq<u32>>|
                #[trigger] greedy_walk(self@.links, layer as int, *dist, entry, path, keys, steps) && path.last() == r,
    {
        let n = self.souls.len();
        let mut current = entry;
        let mut current_dist = dist(entry);
        let ghost ke = current_dist;
        let ghost mut ks: Seq<u32> = Seq::empty();
        let ghost lv = links_view(self.links@);
        let ghost mut path: Seq<usize> = seq![entry];
        let ghost mut keys: Seq<u32> = seq![current_dist];
        let ghost mut steps: Seq<Seq<u32>> = Seq::empty();
        loop
            invariant_except_break
                steps.len() == path.len() - 1,
            invariant
                self.links_ok(),
                n == self.souls@.len(),
                current < n,
                forall|j: usize| dist.requires((j,)),
                dist.ensures((entry,), ke),
                dist.ensures((current,), current_dist),
                current_dist <= ke,
                lv == links_view(self.links@),
                path.len() >= 1,
                path[0] == entry,
                keys.len() == path.len(),
                path.last() == current,
                keys.last() == current_dist,
                forall|i: int| 0 <= i < path.len() ==> dist.ensures((path[i],), #[trigger] keys[i]),
                forall|i: int| 0 <= i < path.len() - 1 ==> #[trigger] walk_step(lv, layer as int, *dist, path, keys, steps, i),
            ensures
                current < n,
                dist.ensures((current,), current_dist),
                current_dist <= ke,
                layer < self.links@[current as int].len()
                    ==> no_nearer(self.links@[current as int]@[layer as int]@, *dist, current_dist, ks),
                greedy_walk(lv, layer as int, *dist, entry, path, keys, steps),
                path.last() == current,
            decreases current_dist,
        {
            let start_dist = current_dist;
            let mut changed = false;
            let from = current;
            proof {
                ks = Seq::empty();
            }
            if layer < self.links[from].len() {
                let mut k: usize = 0;
                while k < self.links[from][layer].len()
                    invariant
                        self.links_ok(),
                        n == self.souls@.len(),
                        from < n,
                        layer < self.links@[from as int].len(),
                        current < n,
                        current_dist <= start_dist,
                        changed ==> current_dist < start_dist,
                        !changed ==> current == from && current_dist == start_dist,
                        forall|j: usize| dist.requires((j,)),
                        dist.ensures((current,), current_dist),
                        k <= self.links@[from as int]@[layer as int].len(),
                        ks.len() == k,
                        forall|j: int| 0 <= j < k ==> dist.ensures((self.links@[from as int]@[layer as int]@[j],), #[trigger] ks[j])
                            && (!changed ==> start_dist <= ks[j]),
                        match best_link(ks, start_dist, k as nat) {
                            Some(j) => changed && 0 <= j < k && current == self.links@[from as int]@[layer as int]@[j]
                                && current_dist == ks[j],
                            None => !changed,
                        },
                    decreases self.links@[from as int]@[layer as int].len() - k,
                {
                    let neighbor = self.links[from][layer][k];
                    proof {
                        assert(self.links@[from as int]@[layer as int]@[k as int] < n);
                    }
                    if neighbor < n {
                        let d = dist(neighbor);
                        proof {
                            let prior = ks;
                            ks = ks.push(d);
                            lemma_best_link_push(prior, d, start_dist);
                        }
                        if d < current_dist {
                            current = neighbor;
                            current_dist = d;
                            changed = true;
                        }
                    }
                    k = k + 1;
                }
            }
            proof {
                if layer < self.links@[from as int].len() {
                    lemma_links_view(self.links@, from as int, layer as int);
                    assert(row_keys(lv, layer as int, from as int, *dist, ks));
                }
            }
            if !changed {
                proof {
                    let old_steps = steps;
                    steps = steps.push(ks);
                    assert forall|i: int| 0 <= i < path.len() - 1 implies #[trigger] walk_step(lv, layer as int, *dist, path, keys, steps, i) by {
                        assert(walk_step(lv, layer as int, *dist, path, keys, old_steps, i));
                        assert(old_steps[i] == steps[i]);
                    }
                    assert(greedy_walk(lv, layer as int, *dist, entry, path, keys, steps));
                }
                break;
            }
            proof {
                let old_path = path;
                let old_keys = keys;
                let old_steps = steps;
                let j = best_link(ks, start_dist, ks.len())->0;
                assert(lv[from as int][layer as int][j] == self.links@[from as int]@[layer as int]@[j]);
                steps = steps.push(ks);
                path = path.push(current);
                keys = keys.push(current_dist);
                assert forall|i: int| 0 <= i < path.len() implies dist.ensures((path[i],), #[trigger] keys[i]) by {
                    if i < old_path.len() {
                        assert(path[i] == old_path[i] && keys[i] == old_keys[i]);
                    }
                }
                assert forall|i: int| 0 <= i < path.len() - 1 implies #[trigger] walk_step(lv, layer as int, *dist, path, keys, steps, i) by {
                    if i < old_path.len() - 1 {
                        assert(walk_step(lv, layer as int, *dist, old_path, old_keys, old_steps, i));
                        assert(path[i] == old_path[i] && path[i + 1] == old_path[i + 1]);
                        assert(keys[i] == old_keys[i] && keys[i + 1] == old_keys[i + 1]);
                        assert(steps[i] == old_steps[i]);
                    } else {
                        assert(i == old_path.len() - 1);
                        assert(path[i] == from && keys[i] == start_dist && steps[i] == ks);
                        assert(path[i + 1] == current && keys[i + 1] == current_dist);
                    }
                }
            }
        }
        proof {
            lemma_links_view(self.links@, current as int, layer as int);
            assert(self@.links == links_view(self.links@));
            assert(greedy_stop(self@, *dist, entry, current, layer, ke, current_dist, ks));
            assert(greedy_walk(self@.links, layer as int, *dist, entry, path, keys, steps));
        }
        current
    }

    /// Best-first search of one layer from `entry`, keeping the `ef`
    /// nearest nodes found (at least one): the candidates, nearest first.
    fn search_layer<F: Fn(usize) -> u32>(&self, dist: &F, entry: usize, ef: usize, layer: usize) -> (r: Vec<(usize, u32)>)
        requires
            self.links_ok(),
            entry < self@.len(),
            forall|j: usize| dist.requires((j,)),
        ensures
            1 <= r.len(),
            r.len() <= (if ef == 0 { 1 } else { ef }),
            keys_sorted(r@),
            ids_distinct(r@),
            ids_below(r@, self@.len() as int),
            keys_measured(r@, *dist),
            explored(links_view(self.links@), self@.len() as int, layer as int, entry as int, *dist, r@),
            r.len() < ef ==> holds_reachable(links_view(self.links@), layer as int, entry as int, r@),
    {
        let n = self.souls.len();
        let entry_dist = dist(entry);
        let mut visited: Vec<bool> = Vec::new();
        let mut t: usize = 0;
        while t < n
            invariant
                t <= n,
                visited@.len() == t,
                forall|j: int| 0 <= j < t ==> !visited@[j],
            decreases n - t,
        {
            visited.push(false);
            t = t + 1;
        }
        visited.set(entry, true);
        let ghost mut seen: Set<int> = Set::empty().insert(entry as int);
        let ghost mut keys: Map<int, u32> = Map::empty().insert(entry as int, entry_dist);
        let ghost mut expanded: Set<int> = Set::empty();
        let mut frontier: Vec<(usize, u32)> = Vec::new();
        frontier.push((entry, entry_dist));
        let mut results: Vec<(usize, u32)> = Vec::new();
        results.push((entry, entry_dist));
        let ghost cap: int = if ef == 0 { 1 } else { ef as int };
        proof {
            lemma_int_range(0, n as int);
            lemma_len_subset(seen, set_int_range(0, n as int));
            lemma_has_id(frontier@, entry as int, 0);
        }
        loop
            invariant
                self.links_ok(),
                n == self.souls@.len(),
                forall|j: usize| dist.requires((j,)),
                cap == (if ef == 0 { 1 } else { ef as int }),
                visited@.len() == n,
                forall|j: int| 0 <= j < n ==> visited@[j] == seen.contains(j),
                forall|j: int| #[trigger] seen.contains(j) ==> 0 <= j < n,
                seen.finite(),
                seen.len() <= n,
                seen.contains(entry as int),
                forall|v: int| #[trigger] seen.contains(v) ==> keys.contains_key(v) && dist.ensures((v as usize,), keys[v]),
                ids_below(frontier@, n as int),
                keys_measured(frontier@, *dist),
                forall|i: int| 0 <= i < frontier.len()
                    ==> seen.contains(#[trigger] frontier@[i].0 as int) && keys[frontier@[i].0 as int] == frontier@[i].1,
                1 <= results.len() <= cap,
                ids_below(results@, n as int),
                ids_distinct(results@),
                keys_measured(results@, *dist),
                forall|i: int| 0 <= i < results.len() ==> seen.contains(#[trigger] results@[i].0 as int),
                forall|i: int| 0 <= i < results.len() ==> keys[#[trigger] results@[i].0 as int] == results@[i].1,
                forall|v: int, i: int| #![trigger seen.contains(v), results@[i]]
                    seen.contains(v) && !has_id(results@, v) && 0 <= i < results.len() ==> results@[i].1 <= keys[v],
                results.len() < ef ==> forall|v: int| #[trigger] seen.contains(v) ==> has_id(results@, v),
                forall|e: int| #[trigger] expanded.contains(e) ==> seen.contains(e) && (layer < self.links@[e].len()
                    ==> forall|k: int| 0 <= k < self.links@[e]@[layer as int].len()
                        ==> seen.contains(#[trigger] self.links@[e]@[layer as int]@[k] as int)),
                forall|i: int| 0 <= i < results.len()
                    ==> expanded.contains(#[trigger] results@[i].0 as int) || has_id(frontier@, results@[i].0 as int),
            ensures
                1 <= results.len() <= cap,
                ids_below(results@, n as int),
                ids_distinct(results@),
                keys_measured(results@, *dist),
                seen.contains(entry as int),
                forall|v: int| #[trigger] seen.contains(v)
                    ==> 0 <= v < n && keys.contains_key(v) && dist.ensures((v as usize,), keys[v]),
                forall|i: int| 0 <= i < results.len() ==> seen.contains(#[trigger] results@[i].0 as int),
                forall|i: int| 0 <= i < results.len() ==> keys[#[trigger] results@[i].0 as int] == results@[i].1,
                forall|v: int, i: int| #![trigger seen.contains(v), results@[i]]
                    seen.contains(v) && !has_id(results@, v) && 0 <= i < results.len() ==> results@[i].1 <= keys[v],
                forall|e: int| #[trigger] expanded.contains(e) ==> seen.contains(e) && (layer < self.links@[e].len()
                    ==> forall|k: int| 0 <= k < self.links@[e]@[layer as int].len()
                        ==> seen.contains(#[trigger] self.links@[e]@[layer as int]@[k] as int)),
                forall|i: int| 0 <= i < results.len() ==> expanded.contains(#[trigger] results@[i].0 as int),
                results.len() < ef ==> forall|v: int| #[trigger] seen.contains(v) ==> has_id(results@, v),
            decreases n - seen.len() + frontier.len(),
        {
            if frontier.len() == 0 {
                proof {
                    assert forall|i: int| 0 <= i < results.len() implies expanded.contains(#[trigger] results@[i].0 as int) by {
                        if !expanded.contains(results@[i].0 as int) {
                            let j = lemma_has_id_witness(frontier@, results@[i].0 as int);
                        }
                    }
                }
                break;
            }
            let mut best: usize = 0;
            let mut b: usize = 1;
            while b < frontier.len()
                invariant
                    1 <= b <= frontier.len(),
                    best < b,
                    forall|j: int| 0 <= j < b ==> frontier@[best as int].1 <= frontier@[j].1,
                decreases frontier.len() - b,
            {
                if frontier[b].1 < frontier[best].1 {
                    best = b;
                }
                b = b + 1;
            }
            let ghost before_pop = frontier@;
            let current = frontier.swap_remove(best);
            proof {
                lemma_swap_remove(before_pop, best as int);
                assert forall|i: int| 0 <= i < frontier.len() implies frontier@[i].0 < n
                    && dist.ensures((frontier@[i].0,), frontier@[i].1)
                    && seen.contains(frontier@[i].0 as int) && keys[frontier@[i].0 as int] == frontier@[i].1 by {
                    assert(frontier@[i] == before_pop[if i == best { before_pop.len() - 1 } else { i }]);
                }
            }
            let worst = max_key(&results);
            if current.1 > worst && results.len() >= ef {
                proof {
                    assert forall|i: int| 0 <= i < results.len() implies expanded.contains(#[trigger] results@[i].0 as int) by {
                        let x = results@[i].0 as int;
                        if !expanded.contains(x) {
                            let j = lemma_has_id_witness(before_pop, x);
                            assert(before_pop[best as int].1 <= before_pop[j].1);
                            assert(keys[x] == results@[i].1);
                            assert(results@[i].1 <= worst);
                        }
                    }
                }
                break;
            }
            let ghost f_start = frontier.len() as int;
            let ghost s_start = seen.len() as int;
            let from = current.0;
            proof {
                assert(before_pop[best as int] == current);
                assert forall|i: int| 0 <= i < results.len() implies expanded.contains(#[trigger] results@[i].0 as int)
                    || has_id(frontier@, results@[i].0 as int) || results@[i].0 == from by {
                    let x = results@[i].0 as int;
                    if !expanded.contains(x) {
                        let j = lemma_has_id_witness(before_pop, x);
                        if j != best {
                            if j == before_pop.len() - 1 {
                                lemma_has_id(frontier@, x, best as int);
                            } else {
                                lemma_has_id(frontier@, x, j);
                            }
                        }
                    }
                }
            }
            if layer < self.links[from].len() {
                let mut k: usize = 0;
                while k < self.links[from][layer].len()
                    invariant
                        self.links_ok(),
                        n == self.souls@.len(),
                        from < n,
                        seen.contains(from as int),
                        layer < self.links@[from as int].len(),
                        forall|j: usize| dist.requires((j,)),
                        cap == (if ef == 0 { 1 } else { ef as int }),
                        visited@.len() == n,
                        forall|j: int| 0 <= j < n ==> visited@[j] == seen.contains(j),
                        forall|j: int| #[trigger] seen.contains(j) ==> 0 <= j < n,
                        seen.finite(),
                        seen.len() <= n,
                        seen.contains(entry as int),
                        forall|v: int| #[trigger] seen.contains(v) ==> keys.contains_key(v) && dist.ensures((v as usize,), keys[v]),
                        ids_below(frontier@, n as int),
                        keys_measured(frontier@, *dist),
                        forall|i: int| 0 <= i < frontier.len()
                            ==> seen.contains(#[trigger] frontier@[i].0 as int) && keys[frontier@[i].0 as int] == frontier@[i].1,
                        1 <= results.len() <= cap,
                        ids_below(results@, n as int),
                        ids_distinct(results@),
                        keys_measured(results@, *dist),
                        forall|i: int| 0 <= i < results.len() ==> seen.contains(#[trigger] results@[i].0 as int),
                        forall|i: int| 0 <= i < results.len() ==> keys[#[trigger] results@[i].0 as int] == results@[i].1,
                        forall|v: int, i: int| #![trigger seen.contains(v), results@[i]]
                            seen.contains(v) && !has_id(results@, v) && 0 <= i < results.len() ==> results@[i].1 <= keys[v],
                        results.len() < ef ==> forall|v: int| #[trigger] seen.contains(v) ==> has_id(results@, v),
                        forall|e: int| #[trigger] expanded.contains(e) ==> seen.contains(e) && (layer < self.links@[e].len()
                            ==> forall|k: int| 0 <= k < self.links@[e]@[layer as int].len()
                                ==> seen.contains(#[trigger] self.links@[e]@[layer as int]@[k] as int)),
                        forall|i: int| 0 <= i < results.len()
                            ==> expanded.contains(#[trigger] results@[i].0 as int) || has_id(frontier@, results@[i].0 as int)
                                || results@[i].0 == from,
                        forall|j: int| 0 <= j < k ==> seen.contains(#[trigger] self.links@[from as int]@[layer as int]@[j] as int),
                        frontier.len() - f_start <= seen.len() - s_start,
                    decreases self.links@[from as int]@[layer as int].len() - k,
                {
                    let neighbor = self.links[from][layer][k];
                    if neighbor < n && !visited[neighbor] {
                        visited.set(neighbor, true);
                        let ghost seen_before = seen;
                        let ghost keys_before = keys;
                        proof {
                            let s1 = seen.insert(neighbor as int);
                            lemma_int_range(0, n as int);
                            assert(s1.subset_of(set_int_range(0, n as int)));
                            lemma_len_subset(s1, set_int_range(0, n as int));
                            seen = s1;
                        }
                        let d = dist(neighbor);
                        proof {
                            keys = keys.insert(neighbor as int, d);
                            assert forall|i: int| 0 <= i < results.len() implies results@[i].0 != neighbor by {
                                assert(seen_before.contains(results@[i].0 as int));
                            }
                            assert forall|i: int| 0 <= i < frontier.len() implies frontier@[i].0 != neighbor by {
                                assert(seen_before.contains(frontier@[i].0 as int));
                            }
                            assert(!has_id(results@, neighbor as int)) by {
                                if has_id(results@, neighbor as int) {
                                    let j = lemma_has_id_witness(results@, neighbor as int);
                                }
                            }
                        }
                        let worst = max_key(&results);
                        if d < worst || results.len() < ef {
                            let ghost before_push = results@;
                            let ghost frontier_before = frontier@;
                            frontier.push((neighbor, d));
                            results.push((neighbor, d));
                            proof {
                                assert(ids_distinct(results@));
                                lemma_has_id(results@, neighbor as int, before_push.len() as int);
                                assert forall|x: int| has_id(before_push, x) implies has_id(results@, x) by {
                                    let j = lemma_has_id_witness(before_push, x);
                                    lemma_has_id(results@, x, j);
                                }
                                assert forall|x: int| has_id(frontier_before, x) implies has_id(frontier@, x) by {
                                    let j = lemma_has_id_witness(frontier_before, x);
                                    lemma_has_id(frontier@, x, j);
                                }
                                lemma_has_id(frontier@, neighbor as int, frontier_before.len() as int);
                            }
                            if results.len() > ef {
                                let w = last_max_index(&results);
                                let ghost before_drop = results@;
                                results.swap_remove(w);
                                proof {
                                    lemma_swap_remove(before_drop, w as int);
                                    assert forall|x: int| has_id(before_drop, x) && x != before_drop[w as int].0
                                        implies has_id(results@, x) by {
                                        let j = lemma_has_id_witness(before_drop, x);
                                        if j == before_drop.len() - 1 {
                                            lemma_has_id(results@, x, w as int);
                                        } else {
                                            lemma_has_id(results@, x, j);
                                        }
                                    }
                                    assert forall|i: int| 0 <= i < results.len() implies results@[i]
                                        == before_drop[if i == w { before_drop.len() - 1 } else { i }] by {}
                                    assert forall|v: int, i: int| #![trigger seen.contains(v), results@[i]]
                                        seen.contains(v) && !has_id(results@, v) && 0 <= i < results.len()
                                        implies results@[i].1 <= keys[v] by {
                                        let i0 = if i == w { before_drop.len() - 1 } else { i };
                                        assert(results@[i] == before_drop[i0]);
                                        if v == before_drop[w as int].0 {
                                            assert(keys[v] == before_drop[w as int].1);
                                        } else {
                                            assert(!has_id(before_drop, v));
                                            assert(v != neighbor);
                                            assert(seen_before.contains(v));
                                            assert(!has_id(before_push, v));
                                            assert(before_push.len() >= ef);
                                            if i0 < before_push.len() {
                                                assert(before_drop[i0] == before_push[i0]);
                                                assert(before_push[i0].1 <= keys_before[v]);
                                            } else {
                                                assert(before_push[before_push.len() - 1].1 <= worst);
                                                assert(keys_before[v] >= worst) by {
                                                    let m = choose|m: int| 0 <= m < before_push.len() && before_push[m].1 == worst;
                                                    assert(before_push[m].1 <= keys_before[v]);
                                                }
                                            }
                                        }
                                    }
                                }
                            } else {
                                proof {
                                    assert forall|v: int, i: int| #![trigger seen.contains(v), results@[i]]
                                        seen.contains(v) && !has_id(results@, v) && 0 <= i < results.len()
                                        implies results@[i].1 <= keys[v] by {
                                        if v != neighbor {
                                            assert(seen_before.contains(v));
                                            if before_push.len() < ef {
                                                assert(has_id(before_push, v));
                                            }
                                        }
                                    }
                                }
                            }
                        } else {
                            proof {
                                assert forall|v: int, i: int| #![trigger seen.contains(v), results@[i]]
                                    seen.contains(v) && !has_id(results@, v) && 0 <= i < results.len()
                                    implies results@[i].1 <= keys[v] by {
                                    if v == neighbor {
                                        assert(results@[i].1 <= worst);
                                    } else {
                                        assert(seen_before.contains(v));
                                    }
                                }
                            }
                        }
                    }
                    k = k + 1;
                }
            }
            proof {
                expanded = expanded.insert(from as int);
                assert forall|i: int| 0 <= i < results.len() implies expanded.contains(#[trigger] results@[i].0 as int)
                    || has_id(frontier@, results@[i].0 as int) by {}
            }
        }
        let sorted = sort_by_key(results);
        proof {
            assert forall|i: int| 0 <= i < sorted.len() implies sorted@[i].0 < n && dist.ensures((sorted@[i].0,), sorted@[i].1) by {
                let q = choose|q: int| 0 <= q < results@.len() && #[trigger] results@[q] == sorted@[i];
            }
            let lv = links_view(self.links@);
            assert forall|v: int, i: int| #![trigger seen.contains(v), sorted@[i]]
                seen.contains(v) && !has_id(sorted@, v) && 0 <= i < sorted.len() implies sorted@[i].1 <= keys[v] by {
                let q = choose|q: int| 0 <= q < results@.len() && #[trigger] results@[q] == sorted@[i];
                if has_id(results@, v) {
                    let j = lemma_has_id_witness(results@, v);
                    assert(sorted@.contains(results@[j]));
                    let p = choose|p: int| 0 <= p < sorted@.len() && sorted@[p] == results@[j];
                    lemma_has_id(sorted@, v, p);
                }
            }
            assert forall|i: int| 0 <= i < sorted.len()
                implies seen.contains(#[trigger] sorted@[i].0 as int) && keys[sorted@[i].0 as int] == sorted@[i].1 by {
                let q = choose|q: int| 0 <= q < results@.len() && #[trigger] results@[q] == sorted@[i];
            }
            assert forall|i: int, k: int|
                0 <= i < sorted.len() && 0 <= layer < lv[sorted@[i].0 as int].len()
                    && 0 <= k < lv[sorted@[i].0 as int][layer as int].len()
                implies seen.contains(#[trigger] lv[sorted@[i].0 as int][layer as int][k] as int) by {
                let q = choose|q: int| 0 <= q < results@.len() && #[trigger] results@[q] == sorted@[i];
                let e = sorted@[i].0 as int;
                assert(expanded.contains(e));
                lemma_links_view(self.links@, e, layer as int);
            }
            assert(explored_by(lv, n as int, layer as int, entry as int, *dist, sorted@, seen, keys));
            if sorted.len() < ef {
                assert forall|v: int| #[trigger] seen.contains(v) implies has_id(sorted@, v) by {
                    let j = lemma_has_id_witness(results@, v);
                    assert(sorted@.contains(results@[j]));
                    let p = choose|p: int| 0 <= p < sorted@.len() && sorted@[p] == results@[j];
                    lemma_has_id(sorted@, v, p);
                }
                assert(holds_reachable(lv, layer as int, entry as int, sorted@));
            }
        }
        sorted
    }

    /// Put `list` in place of the links of node `a` on layer `l`, and
    /// return the list it replaces.
    fn swap_links(&mut self, a: usize, l: usize, list: Vec<usize>) -> (prev: Vec<usize>)
        requires
            old(self).links_ok(),
            a < old(self).links@.len(),
            l < old(self).links@[a as int].len(),
            list@.len() <= old(self)@.cap(l as int),
            forall|k: int| 0 <= k < list@.len() ==> list@[k] < old(self).souls@.len(),
        ensures
            final(self).links_ok(),
            prev@ == old(self).links@[a as int]@[l as int]@,
            final(self).links@.len() == old(self).links@.len(),
            forall|b: int| 0 <= b < old(self).links@.len() ==> #[trigger] final(self).links@[b].len() == old(self).links@[b].len(),
            final(self).links@[a as int]@[l as int]@ == list@,
            forall|b: int, k: int| 0 <= b < old(self).links@.len() && 0 <= k < old(self).links@[b].len() && (b != a || k != l)
                ==> #[trigger] final(self).links@[b]@[k] == old(self).links@[b]@[k],
            final(self).souls == old(self).souls,
            final(self).levels == old(self).levels,
            final(self).index == old(self).index,
            final(self).entry_point == old(self).entry_point,
            final(self).max_level == old(self).max_level,
            final(self).m == old(self).m,
            final(self).m_max0 == old(self).m_max0,
            final(self).ef_construction == old(self).ef_construction,
            final(self).ef_search == old(self).ef_search,
    {
        let mut row: Vec<Vec<usize>> = Vec::new();
        std::mem::swap(&mut row, &mut self.links[a]);
        let mut list = list;
        std::mem::swap(&mut list, &mut row[l]);
        std::mem::swap(&mut row, &mut self.links[a]);
        proof {
            let n = self.souls@.len();
            assert forall|b: int| 0 <= b < n implies #[trigger] self.links@[b].len() == self.levels@[b] + 1 by {
                if b != a {
                    assert(self.links@[b] == old(self).links@[b]);
                }
            }
            assert forall|b: int, k: int| 0 <= b < n && 0 <= k < self.links@[b].len()
                implies #[trigger] self.links@[b]@[k].len() <= self@.cap(k) by {
                if b != a {
                    assert(self.links@[b] == old(self).links@[b]);
                } else if k != l {
                    assert(self.links@[b]@[k] == old(self).links@[b]@[k]);
                }
            }
            assert forall|b: int, k: int, j: int|
                0 <= b < n && 0 <= k < self.links@[b].len() && 0 <= j < self.links@[b]@[k].len()
                implies #[trigger] self.links@[b]@[k]@[j] < n by {
                if b != a {
                    assert(self.links@[b] == old(self).links@[b]);
                } else if k != l {
                    assert(self.links@[b]@[k] == old(self).links@[b]@[k]);
                }
            }
            assert forall|b: int, k: int| 0 <= b < old(self).links@.len() && 0 <= k < old(self).links@[b].len() && (b != a || k != l)
                implies #[trigger] self.links@[b]@[k] == old(self).links@[b]@[k] by {
                if b != a {
                    assert(self.links@[b] == old(self).links@[b]);
                }
            }
        }
        list
    }

    /// Index `soul` to node `id`, in place of its node if it had one.
    fn set_index(&mut self, soul: &str, id: usize)
        requires
            keys_unique(index_seq(old(self).index@)),
        ensures
            keys_unique(index_seq(final(self).index@)),
            assoc_map(index_seq(final(self).index@)) == assoc_map(index_seq(old(self).index@)).insert(soul@, id),
            forall|i: int| 0 <= i < final(self).index@.len() ==> {
                ||| (#[trigger] final(self).index@[i]).0@ == soul@ && final(self).index@[i].1 == id
                ||| i < old(self).index@.len() && final(self).index@[i] == old(self).index@[i]
            },
            final(self).souls == old(self).souls,
            final(self).levels == old(self).levels,
            final(self).links == old(self).links,
            final(self).entry_point == old(self).entry_point,
            final(self).max_level == old(self).max_level,
            final(self).m == old(self).m,
            final(self).m_max0 == old(self).m_max0,
            final(self).ef_construction == old(self).ef_construction,
            final(self).ef_search == old(self).ef_search,
    {
        let ghost s = index_seq(self.index@);
        match find_key(&self.index, soul) {
            Some(i) => {
                let k = self.index[i].0.clone();
                self.index.set(i, (k, id));
                proof {
                    lemma_assoc_update(s, i as int, id);
                    assert(index_seq(self.index@) =~= s.update(i as int, (s[i as int].0, id)));
                }
            },
            None => {
                self.index.push((soul.to_string(), id));
                proof {
                    assert(!has_key(s, soul@)) by {
                        if has_key(s, soul@) {
                            let j = choose|j: int| 0 <= j < s.len() && s[j].0 == soul@;
                            assert(old(self).index@[j].0@ == soul@);
                        }
                    }
                    lemma_assoc_push(s, soul@, id);
                    assert(index_seq(self.index@) =~= s.push((soul@, id)));
                }
            },
        }
    }

    /// Add a node for `soul` on layers up to `level`, with no links yet.
    fn push_node(&mut self, soul: &str, level: usize)
        requires
            old(self).links_ok(),
            level < usize::MAX,
        ensures
            final(self).links_ok(),
            final(self).souls@.len() == old(self).souls@.len() + 1,
            final(self)@.souls == old(self)@.souls.push(soul@),
            forall|a: int| 0 <= a < old(self).souls@.len() ==> #[trigger] final(self).souls@[a] == old(self).souls@[a],
            final(self).levels@ == old(self).levels@.push(level),
            final(self).links@.len() == old(self).links@.len() + 1,
            forall|a: int| 0 <= a < old(self).links@.len() ==> #[trigger] final(self).links@[a] == old(self).links@[a],
            forall|l: int| 0 <= l <= level ==> #[trigger] final(self).links@[old(self).links@.len() as int]@[l]@.len() == 0,
            final(self).index == old(self).index,
            final(self).entry_point == old(self).entry_point,
            final(self).max_level == old(self).max_level,
            final(self).m == old(self).m,
            final(self).m_max0 == old(self).m_max0,
            final(self).ef_construction == old(self).ef_construction,
            final(self).ef_search == old(self).ef_search,
    {
        let mut row: Vec<Vec<usize>> = Vec::new();
        let mut t: usize = 0;
        while t <= level
            invariant
                t <= level + 1,
                level < usize::MAX,
                row@.len() == t,
                forall|j: int| 0 <= j < t ==> (#[trigger] row@[j])@.len() == 0,
            decreases level + 1 - t,
        {
            row.push(Vec::new());
            t = t + 1;
        }
        let ghost n = self.souls@.len();
        self.souls.push(soul.to_string());
        self.levels.push(level);
        self.links.push(row);
        proof {
            assert(self@.souls =~= old(self)@.souls.push(soul@));
            assert forall|a: int| 0 <= a < n + 1 implies #[trigger] self.links@[a].len() == self.levels@[a] + 1 by {
                if a < n {
                    assert(self.links@[a] == old(self).links@[a]);
                }
            }
            assert forall|a: int, l: int| 0 <= a < n + 1 && 0 <= l < self.links@[a].len()
                implies #[trigger] self.links@[a]@[l].len() <= self@.cap(l) by {
                if a < n {
                    assert(self.links@[a] == old(self).links@[a]);
                } else {
                    assert(self.links@[a]@[l]@.len() == 0);
                }
            }
            assert forall|a: int, l: int, k: int|
                0 <= a < n + 1 && 0 <= l < self.links@[a].len() && 0 <= k < self.links@[a]@[l].len()
                implies #[trigger] self.links@[a]@[l]@[k] < n + 1 by {
                if a < n {
                    assert(self.links@[a] == old(self).links@[a]);
                } else {
                    assert(self.links@[a]@[l]@.len() == 0);
                }
            }
        }
    }

    /// Link node `b` on layer `lc` to node `id`; where that takes it past
    /// its cap, keep only its nearest links.
    fn link_back<P: Fn(usize, usize) -> u32>(&mut self, b: usize, lc: usize, id: usize, dist: &P)
        requires
            old(self).links_ok(),
            b < old(self).souls@.len(),
            lc < old(self).links@[b as int].len(),
            id < old(self).souls@.len(),
            forall|x: usize, y: usize| dist.requires((x, y)),
        ensures
            final(self).links_ok(),
            final(self).links@.len() == old(self).links@.len(),
            forall|c: int| 0 <= c < old(self).links@.len() ==> #[trigger] final(self).links@[c].len() == old(self).links@[c].len(),
            forall|c: int, k: int| 0 <= c < old(self).links@.len() && 0 <= k < old(self).links@[c].len() && (c != b || k != lc)
                ==> #[trigger] final(self).links@[c]@[k] == old(self).links@[c]@[k],
            forall|x: usize| #[trigger] final(self).links@[b as int]@[lc as int]@.contains(x)
                ==> old(self).links@[b as int]@[lc as int]@.contains(x) || x == id,
            final(self).links@[b as int]@[lc as int]@.contains(id)
                || final(self).links@[b as int]@[lc as int]@.len() == old(self)@.cap(lc as int),
            old(self).links@[b as int]@[lc as int]@.len() + 1 > old(self)@.cap(lc as int) ==> {
                &&& final(self).links@[b as int]@[lc as int]@.len() == old(self)@.cap(lc as int)
                &&& keeps_nearest(b, old(self).links@[b as int]@[lc as int]@.push(id),
                    final(self).links@[b as int]@[lc as int]@, *dist)
            },
            old(self).links@[b as int]@[lc as int]@.len() + 1 <= old(self)@.cap(lc as int)
                ==> final(self).links@[b as int]@[lc as int]@ == old(self).links@[b as int]@[lc as int]@.push(id),
            final(self).souls == old(self).souls,
            final(self).levels == old(self).levels,
            final(self).index == old(self).index,
            final(self).entry_point == old(self).entry_point,
            final(self).max_level == old(self).max_level,
            final(self).m == old(self).m,
            final(self).m_max0 == old(self).m_max0,
            final(self).ef_construction == old(self).ef_construction,
            final(self).ef_search == old(self).ef_search,
    {
        let ghost n = self.souls@.len();
        let ghost start = self.links@;
        let max_conn = if lc == 0 { self.m_max0 } else { self.m };
        let mut list = self.swap_links(b, lc, Vec::new());
        let ghost middle = self.links@;
        let ghost prev = list@;
        proof {
            assert forall|k: int| 0 <= k < prev.len() implies prev[k] < n by {
                assert(start[b as int]@[lc as int]@[k] < n);
            }
        }
        list.push(id);
        let ghost grown = list@;
        if list.len() > max_conn {
            let mut scored: Vec<(usize, u32)> = Vec::new();
            let mut k: usize = 0;
            while k < list.len()
                invariant
                    k <= list.len(),
                    list@ == grown,
                    scored@.len() == k,
                    forall|p: int| 0 <= p < k ==> (#[trigger] scored@[p]).0 == list@[p],
                    forall|p: int| 0 <= p < k ==> dist.ensures((b, list@[p]), (#[trigger] scored@[p]).1),
                    forall|x: usize, y: usize| dist.requires((x, y)),
                decreases list.len() - k,
            {
                let nid = list[k];
                let d = dist(b, nid);
                scored.push((nid, d));
                k = k + 1;
            }
            let sorted = sort_by_key(scored);
            let mut kept: Vec<usize> = Vec::new();
            let mut p: usize = 0;
            while p < sorted.len() && p < max_conn
                invariant
                    p <= sorted.len(),
                    p <= max_conn,
                    kept@.len() == p,
                    forall|q: int| 0 <= q < p ==> #[trigger] kept@[q] == sorted@[q].0,
                decreases sorted.len() - p,
            {
                kept.push(sorted[p].0);
                p = p + 1;
            }
            proof {
                assert(kept@.len() == max_conn);
                assert forall|q: int| 0 <= q < kept@.len() implies grown.contains(#[trigger] kept@[q]) by {
                    assert(scored@.contains(sorted@[q]));
                    let r = choose|r: int| 0 <= r < scored@.len() && scored@[r] == sorted@[q];
                    assert(grown[r] == kept@[q]);
                }
                let gk = Seq::new(grown.len(), |j: int| scored@[j].1);
                let kk = Seq::new(kept@.len(), |q: int| sorted@[q].1);
                assert forall|q: int| 0 <= q < kept@.len() implies dist.ensures((b, kept@[q]), #[trigger] kk[q]) by {
                    assert(scored@.contains(sorted@[q]));
                    let r = choose|r: int| 0 <= r < scored@.len() && scored@[r] == sorted@[q];
                }
                assert forall|j: int| 0 <= j < grown.len() implies dist.ensures((b, grown[j]), #[trigger] gk[j]) by {
                    assert(scored@[j].0 == grown[j]);
                }
                assert forall|j: int, q: int| 0 <= j < grown.len() && 0 <= q < kept@.len() && !kept@.contains(grown[j])
                    implies #[trigger] kk[q] <= #[trigger] gk[j] by {
                    assert(sorted@.contains(scored@[j]));
                    let p = choose|p: int| 0 <= p < sorted@.len() && sorted@[p] == scored@[j];
                    if p < kept@.len() {
                        assert(kept@[p] == sorted@[p].0);
                        assert(scored@[j].0 == grown[j]);
                        assert(kept@.contains(grown[j]));
                    }
                    assert(sorted@[q].1 <= sorted@[p].1);
                }
                assert(keeps_nearest_by(b, grown, kept@, *dist, gk, kk));
            }
            list = kept;
        }
        proof {
            assert(list@ == grown ==> list@.contains(id)) by {
                if list@ == grown {
                    assert(grown[grown.len() - 1] == id);
                }
            }
            assert(list@ == grown || list@.len() == max_conn);
            assert forall|q: int| 0 <= q < list@.len() implies grown.contains(#[trigger] list@[q]) by {
                if list@ == grown {
                    assert(grown[q] == list@[q]);
                }
            }
            assert forall|q: int| 0 <= q < list@.len() implies list@[q] < n by {
                assert(grown.contains(list@[q]));
                let r = choose|r: int| 0 <= r < grown.len() && grown[r] == list@[q];
                if r < prev.len() {
                    assert(grown[r] == prev[r]);
                }
            }
        }
        self.swap_links(b, lc, list);
        proof {
            assert forall|x: usize| #[trigger] self.links@[b as int]@[lc as int]@.contains(x)
                implies start[b as int]@[lc as int]@.contains(x) || x == id by {
                let q = choose|q: int| 0 <= q < list@.len() && list@[q] == x;
                assert(grown.contains(list@[q]));
                let r = choose|r: int| 0 <= r < grown.len() && grown[r] == x;
                if r < prev.len() {
                    assert(prev[r] == x);
                    assert(start[b as int]@[lc as int]@[r] == x);
                }
            }
            assert forall|c: int, k: int| 0 <= c < start.len() && 0 <= k < start[c].len() && (c != b || k != lc)
                implies #[trigger] self.links@[c]@[k] == start[c]@[k] by {
                assert(middle[c]@[k] == start[c]@[k]);
            }
        }
    }

    /// Insert a node for `soul` on layers up to `level`, taking its place
    /// in the index if the soul had one: a greedy descent from the entry
    /// point to the node's level, then on each layer from there down a
    /// best-first search that keeps `ef_construction` candidates, links
    /// the node to the nearest of them (up to the layer's cap), and links
    /// them back, each keeping its nearest links where it goes past the cap.
    /// `dist(a, b)` is the distance key between nodes `a` and `b`; the new
    /// node's id is the number of nodes before the call.
    ///
    /// Returns the new node's id and the node the soul had, if any.
    pub fn upsert_at_level<P: Fn(usize, usize) -> u32>(&mut self, soul: &str, level: usize, dist: &P) -> (r: (usize, Option<usize>))
        requires
            old(self).wf(),
            level < usize::MAX,
            old(self)@.len() < usize::MAX,
            forall|a: usize, b: usize| dist.requires((a, b)),
        ensures
            final(self).wf(),
            r.0 == old(self)@.len(),
            r.1 == (if old(self)@.index.contains_key(soul@) { Some(old(self)@.index[soul@]) } else { None::<usize> }),
            final(self)@.souls == old(self)@.souls.push(soul@),
            final(self)@.levels == old(self)@.levels.push(level),
            final(self)@.index == old(self)@.index.insert(soul@, r.0),
            final(self)@.entry == (if old(self)@.entry is None || level > old(self)@.max_level {
                Some(r.0)
            } else {
                old(self)@.entry
            }),
            final(self)@.max_level == (if old(self)@.entry is None || level > old(self)@.max_level {
                level
            } else {
                old(self)@.max_level
            }),
            final(self)@.m == old(self)@.m,
            final(self)@.ef_construction == old(self)@.ef_construction,
            final(self)@.ef_search == old(self)@.ef_search,
            forall|a: int| 0 <= a < old(self)@.len() ==> #[trigger] final(self)@.links[a].len() == old(self)@.links[a].len(),
            forall|a: int, l: int, x: usize| 0 <= a < old(self)@.len() && 0 <= l < old(self)@.links[a].len()
                && #[trigger] final(self)@.links[a][l].contains(x)
                ==> old(self)@.links[a][l].contains(x) || x == r.0,
            forall|a: int, l: int| #![trigger final(self)@.links[a][l]] 0 <= a < old(self)@.len() && 0 <= l < old(self)@.links[a].len()
                ==> relinked(a as usize, old(self)@.links[a][l], final(self)@.links[a][l], r.0, *dist, final(self)@.cap(l)),
            forall|l: int| (old(self)@.entry is None || old(self)@.max_level < l) && 0 <= l <= level
                ==> #[trigger] final(self)@.links[r.0 as int][l].len() == 0,
            forall|l: int| old(self)@.entry is Some && 0 <= l <= level && l <= old(self)@.max_level && old(self)@.m >= 1
                ==> #[trigger] final(self)@.links[r.0 as int][l].len() >= 1,
            forall|l: int| old(self)@.entry is Some && 0 <= l <= level && l <= old(self)@.max_level
                ==> #[trigger] links_back(final(self)@.links, r.0 as int, l, final(self)@.cap(l)),
            forall|l: int| old(self)@.entry is Some && 0 <= l <= level && l <= old(self)@.max_level
                ==> #[trigger] nearest_linked(
                    old(self)@.links.push(empty_rows((level + 1) as nat)),
                    old(self)@.len() + 1 as int,
                    l,
                    *dist,
                    r.0 as int,
                    final(self)@.links[r.0 as int][l],
                    final(self)@.cap(l),
                    old(self)@.ef_construction as int,
                ),
    {
        let replaced = self.id_of(soul);
        let id = self.souls.len();
        let ghost before = *self;
        self.push_node(soul, level);
        self.set_index(soul, id);
        let ghost pushed = self.links@;
        proof {
            assert forall|i: int| 0 <= i < self.index@.len() implies #[trigger] self.index@[i].1 < self.souls@.len()
                && self.souls@[self.index@[i].1 as int]@ == self.index@[i].0@ by {
                if !(self.index@[i].0@ == soul@ && self.index@[i].1 == id) {
                    assert(self.index@[i] == before.index@[i]);
                    assert(self.souls@[self.index@[i].1 as int] == before.souls@[self.index@[i].1 as int]);
                } else {
                    assert(self@.souls[id as int] == soul@);
                }
            }
        }
        let ep = match self.entry_point {
            None => {
                self.entry_point = Some(id);
                self.max_level = level;
                proof {
                    assert(self.levels@[id as int] == level);
                    assert forall|l: int| 0 <= l <= level implies #[trigger] self@.links[id as int][l].len() == 0 by {
                        assert(self.links@[id as int].len() == self.levels@[id as int] + 1);
                        lemma_links_view(self.links@, id as int, l);
                        assert(self.links@[id as int]@[l]@.len() == 0);
                        assert(self@.links == links_view(self.links@));
                    }
                }
                return (id, replaced);
            },
            Some(e) => e,
        };
        let query = |j: usize| -> (k: u32)
            requires
                dist.requires((id, j)),
            ensures
                dist.ensures((id, j), k),
        {
            dist(id, j)
        };
        proof {
            assert forall|j: usize| query.requires((j,)) by {
                assert(dist.requires((id, j)));
            }
            assert forall|j: usize, k: u32| query.ensures((j,), k) implies dist.ensures((id, j), k) by {}
        }
        let n = self.souls.len();
        let mut current_ep = ep;
        let mut lc = self.max_level;
        while lc > level
            invariant
                self.links_ok(),
                n == self.souls@.len(),
                current_ep < n,
                forall|j: usize| query.requires((j,)),
            decreases lc,
        {
            current_ep = self.search_layer_single(&query, current_ep, lc);
            lc = lc - 1;
        }
        let top = if level < self.max_level { level } else { self.max_level };
        let ghost fixed = *self;
        let mut lcp = top + 1;
        while lcp > 0
            invariant
                self.links_ok(),
                n == self.souls@.len(),
                n == id + 1,
                current_ep < n,
                top <= level,
                top <= fixed.max_level,
                lcp <= top + 1,
                self.levels@[id as int] == level,
                self.souls == fixed.souls,
                self.levels == fixed.levels,
                self.index == fixed.index,
                self.entry_point == fixed.entry_point,
                self.max_level == fixed.max_level,
                self.m == fixed.m,
                self.m_max0 == fixed.m_max0,
                self.ef_construction == fixed.ef_construction,
                self.ef_search == fixed.ef_search,
                forall|a: int| 0 <= a < n ==> #[trigger] self.links@[a].len() == pushed[a].len(),
                forall|l: int| top < l <= level ==> #[trigger] self.links@[id as int]@[l]@.len() == 0,
                forall|a: int, l: int, x: usize| 0 <= a < id && 0 <= l < pushed[a].len()
                    && #[trigger] self.links@[a]@[l]@.contains(x)
                    ==> pushed[a]@[l]@.contains(x) || x == id,
                forall|a: int, l: int| #![trigger self.links@[a]@[l]] 0 <= a < id && 0 <= l < pushed[a].len()
                    ==> relinked(a as usize, pushed[a]@[l]@, self.links@[a]@[l]@, id, *dist, fixed@.cap(l)),
                fixed.m >= 1 ==> forall|l: int| lcp <= l <= top ==> #[trigger] self.links@[id as int]@[l]@.len() >= 1,
                forall|l: int| lcp <= l <= top ==> #[trigger] links_back(links_view(self.links@), id as int, l, fixed@.cap(l)),
                fixed.m_max0 == 2 * fixed.m,
                forall|l: int| lcp <= l <= top ==> #[trigger] nearest_linked(
                    links_view(pushed), n as int, l, *dist, id as int, self.links@[id as int]@[l]@, fixed@.cap(l),
                    fixed.ef_construction as int),
                forall|a: int, l: int| 0 <= a < n && 0 <= l < lcp && l < pushed[a].len()
                    ==> #[trigger] self.links@[a]@[l] == pushed[a]@[l],
                forall|j: usize, k: u32| query.ensures((j,), k) ==> dist.ensures((id, j), k),
                pushed.len() == n,
                forall|j: usize| query.requires((j,)),
                forall|x: usize, y: usize| dist.requires((x, y)),
            decreases lcp,
        {
            let lc = lcp - 1;
            let neighbors = self.search_layer(&query, current_ep, self.ef_construction, lc);
            let max_conn = if lc == 0 { self.m_max0 } else { self.m };
            let mut selected: Vec<usize> = Vec::new();
            let mut own: Vec<usize> = Vec::new();
            let mut s: usize = 0;
            while s < neighbors.len() && s < max_conn
                invariant
                    s <= neighbors.len(),
                    s <= max_conn,
                    selected@.len() == s,
                    own@ == selected@,
                    ids_below(neighbors@, n as int),
                    1 <= neighbors@.len(),
                    forall|q: int| 0 <= q < s ==> #[trigger] selected@[q] == neighbors@[q].0,
                decreases neighbors.len() - s,
            {
                selected.push(neighbors[s].0);
                own.push(neighbors[s].0);
                s = s + 1;
            }
            proof {
                assert(max_conn == self@.cap(lc as int));
                assert(fixed.m >= 1 ==> selected@.len() >= 1);
                assert forall|q1: int, q2: int| 0 <= q1 < selected@.len() && 0 <= q2 < selected@.len() && q1 != q2
                    implies selected@[q1] != selected@[q2] by {
                    assert(selected@[q1] == neighbors@[q1].0);
                    assert(selected@[q2] == neighbors@[q2].0);
                }
            }
            let ghost layer_start = self.links@;
            self.swap_links(id, lc, own);
            proof {
                assert forall|a: int, l: int, x: usize| 0 <= a < id && 0 <= l < pushed[a].len()
                    && #[trigger] self.links@[a]@[l]@.contains(x)
                    implies pushed[a]@[l]@.contains(x) || x == id by {
                    assert(self.links@[a]@[l] == layer_start[a]@[l]);
                }
                assert forall|l: int| top < l <= level implies #[trigger] self.links@[id as int]@[l]@.len() == 0 by {
                    assert(self.links@[id as int]@[l] == layer_start[id as int]@[l]);
                }
                assert(self.links@[id as int]@[lc as int]@ == selected@);
            }
            let mut q: usize = 0;
            while q < selected.len()
                invariant
                    self.links_ok(),
                    n == self.souls@.len(),
                    n == id + 1,
                    lc <= top,
                    top <= level,
                    self.levels@[id as int] == level,
                    self.souls == fixed.souls,
                    self.levels == fixed.levels,
                    self.index == fixed.index,
                    self.entry_point == fixed.entry_point,
                    self.max_level == fixed.max_level,
                    self.m == fixed.m,
                    self.m_max0 == fixed.m_max0,
                    self.ef_construction == fixed.ef_construction,
                    self.ef_search == fixed.ef_search,
                    forall|a: int| 0 <= a < n ==> #[trigger] self.links@[a].len() == pushed[a].len(),
                    forall|l: int| top < l <= level ==> #[trigger] self.links@[id as int]@[l]@.len() == 0,
                    forall|a: int, l: int, x: usize| 0 <= a < id && 0 <= l < pushed[a].len()
                        && #[trigger] self.links@[a]@[l]@.contains(x)
                        ==> pushed[a]@[l]@.contains(x) || x == id,
                    forall|x: usize, y: usize| dist.requires((x, y)),
                    forall|a: int, l: int| #![trigger self.links@[a]@[l]] 0 <= a < id && 0 <= l < pushed[a].len()
                        ==> relinked(a as usize, pushed[a]@[l]@, self.links@[a]@[l]@, id, *dist, fixed@.cap(l)),
                    forall|a: int| 0 <= a < id && lc < pushed[a].len() && !selected@.take(q as int).contains(a as usize)
                        ==> #[trigger] self.links@[a]@[lc as int] == pushed[a]@[lc as int],
                    q <= selected@.len(),
                    max_conn == self@.cap(lc as int),
                    fixed.m_max0 == 2 * fixed.m,
                    forall|q1: int, q2: int| 0 <= q1 < selected@.len() && 0 <= q2 < selected@.len() && q1 != q2
                        ==> selected@[q1] != selected@[q2],
                    forall|a: int, l: int| 0 <= a < n && 0 <= l < pushed[a].len() && l != lc
                        ==> #[trigger] self.links@[a]@[l] == layer_start[a]@[l],
                    forall|q2: int| 0 <= q2 < q && selected@[q2] < n && lc < self.links@[selected@[q2] as int].len()
                        ==> #[trigger] self.links@[selected@[q2] as int]@[lc as int]@.contains(id)
                            || self.links@[selected@[q2] as int]@[lc as int]@.len() == max_conn,
                    forall|v: usize| #[trigger] self.links@[id as int]@[lc as int]@.contains(v) ==> selected@.contains(v),
                    fixed.m >= 1 ==> self.links@[id as int]@[lc as int]@.len() >= 1,
                    !selected@.contains(id) ==> self.links@[id as int]@[lc as int]@ == selected@,
                decreases selected.len() - q,
            {
                let b = selected[q];
                if b < self.souls.len() && lc < self.links[b].len() {
                    let ghost step_start = self.links@;
                    self.link_back(b, lc, id, dist);
                    proof {
                        assert(selected@.take(q + 1) =~= selected@.take(q as int).push(b));
                        assert forall|a: int, l: int| #![trigger self.links@[a]@[l]] 0 <= a < id && 0 <= l < pushed[a].len()
                            implies relinked(a as usize, pushed[a]@[l]@, self.links@[a]@[l]@, id, *dist, fixed@.cap(l)) by {
                            if a != b || l != lc {
                                assert(self.links@[a]@[l] == step_start[a]@[l]);
                            } else {
                                assert(!selected@.take(q as int).contains(b)) by {
                                    if selected@.take(q as int).contains(b) {
                                        let q2 = choose|q2: int| 0 <= q2 < q && selected@.take(q as int)[q2] == b;
                                        assert(selected@[q2] == selected@[q as int]);
                                    }
                                }
                                assert(step_start[a]@[lc as int] == pushed[a]@[lc as int]);
                                assert(self@.cap(lc as int) == fixed@.cap(lc as int));
                            }
                        }
                        assert forall|a: int| 0 <= a < id && lc < pushed[a].len() && !selected@.take(q + 1).contains(a as usize)
                            implies #[trigger] self.links@[a]@[lc as int] == pushed[a]@[lc as int] by {
                            assert(selected@.take(q + 1).contains(b)) by {
                                assert(selected@.take(q + 1)[q as int] == b);
                            }
                            assert(a != b);
                            assert(self.links@[a]@[lc as int] == step_start[a]@[lc as int]);
                        }
                        assert forall|a: int, l: int, x: usize| 0 <= a < id && 0 <= l < pushed[a].len()
                            && #[trigger] self.links@[a]@[l]@.contains(x)
                            implies pushed[a]@[l]@.contains(x) || x == id by {
                            if a != b || l != lc {
                                assert(self.links@[a]@[l] == step_start[a]@[l]);
                            } else {
                                assert(step_start[a]@[l]@.contains(x) || x == id);
                            }
                        }
                        assert forall|l: int| top < l <= level implies #[trigger] self.links@[id as int]@[l]@.len() == 0 by {
                            assert(self.links@[id as int]@[l] == step_start[id as int]@[l]);
                        }
                        assert forall|a: int, l: int| 0 <= a < n && 0 <= l < pushed[a].len() && l != lc
                            implies #[trigger] self.links@[a]@[l] == layer_start[a]@[l] by {
                            assert(self.links@[a]@[l] == step_start[a]@[l]);
                        }
                        assert forall|q2: int| 0 <= q2 < q + 1 && selected@[q2] < n && lc < self.links@[selected@[q2] as int].len()
                            implies #[trigger] self.links@[selected@[q2] as int]@[lc as int]@.contains(id)
                                || self.links@[selected@[q2] as int]@[lc as int]@.len() == max_conn by {
                            if q2 < q {
                                assert(selected@[q2] != b);
                                assert(self.links@[selected@[q2] as int]@[lc as int] == step_start[selected@[q2] as int]@[lc as int]);
                            }
                        }
                        assert forall|v: usize| #[trigger] self.links@[id as int]@[lc as int]@.contains(v) implies selected@.contains(v) by {
                            if b != id {
                                assert(self.links@[id as int]@[lc as int] == step_start[id as int]@[lc as int]);
                            } else {
                                assert(selected@[q as int] == b);
                            }
                        }
                        if b != id {
                            assert(self.links@[id as int]@[lc as int] == step_start[id as int]@[lc as int]);
                        }
                        if !selected@.contains(id) {
                            assert(selected@[q as int] == b);
                            assert(b != id);
                        }
                    }
                }
                q = q + 1;
            }
            proof {
                assert(self.links@[id as int].len() == level + 1);
                // The candidates of this layer, over the links as they were before the insertion.
                assert(selected@ =~= first_ids(neighbors@, max_conn as int));
                let lv_search = links_view(layer_start);
                let lv_pushed = links_view(pushed);
                assert(explored(lv_search, n as int, lc as int, current_ep as int, query, neighbors@));
                let (vis, ks) = choose|vis: Set<int>, ks: Map<int, u32>|
                    explored_by(lv_search, n as int, lc as int, current_ep as int, query, neighbors@, vis, ks);
                assert forall|v: int| #[trigger] vis.contains(v)
                    implies 0 <= v < n && ks.contains_key(v) && dist.ensures((id as usize, v as usize), ks[v]) by {
                    assert(query.ensures((v as usize,), ks[v]));
                }
                assert forall|i: int, k: int|
                    0 <= i < neighbors@.len() && 0 <= lc < lv_pushed[neighbors@[i].0 as int].len()
                        && 0 <= k < lv_pushed[neighbors@[i].0 as int][lc as int].len()
                    implies vis.contains(#[trigger] lv_pushed[neighbors@[i].0 as int][lc as int][k] as int) by {
                    let c = neighbors@[i].0 as int;
                    lemma_links_view(pushed, c, lc as int);
                    lemma_links_view(layer_start, c, lc as int);
                    assert(layer_start[c].len() == pushed[c].len());
                    assert(layer_start[c]@[lc as int] == pushed[c]@[lc as int]);
                    assert(lv_pushed[c][lc as int] == pushed[c]@[lc as int]@);
                    assert(lv_search[c][lc as int] == layer_start[c]@[lc as int]@);
                    assert(lv_search[c][lc as int][k] == lv_pushed[c][lc as int][k]);
                }
                assert(explored_from_by(lv_pushed, n as int, lc as int, current_ep as int, *dist, id as int, neighbors@, vis, ks));
                assert(explored_from(lv_pushed, n as int, lc as int, current_ep as int, *dist, id as int, neighbors@));
                assert(fixed@.cap(lc as int) == max_conn);
                if neighbors@.len() < fixed.ef_construction {
                    assert(holds_reachable(lv_search, lc as int, current_ep as int, neighbors@));
                    assert forall|i: int, k: int|
                        0 <= i < neighbors@.len() && 0 <= lc < lv_pushed[neighbors@[i].0 as int].len()
                            && 0 <= k < lv_pushed[neighbors@[i].0 as int][lc as int].len()
                        implies has_id(neighbors@, #[trigger] lv_pushed[neighbors@[i].0 as int][lc as int][k] as int) by {
                        let c = neighbors@[i].0 as int;
                        lemma_links_view(pushed, c, lc as int);
                        lemma_links_view(layer_start, c, lc as int);
                        assert(layer_start[c].len() == pushed[c].len());
                        assert(layer_start[c]@[lc as int] == pushed[c]@[lc as int]);
                        assert(lv_pushed[c][lc as int] == pushed[c]@[lc as int]@);
                        assert(lv_search[c][lc as int] == layer_start[c]@[lc as int]@);
                        assert(lv_search[c][lc as int][k] == lv_pushed[c][lc as int][k]);
                    }
                    assert(holds_reachable(lv_pushed, lc as int, current_ep as int, neighbors@));
                }
                assert(nearest_linked(lv_pushed, n as int, lc as int, *dist, id as int, self.links@[id as int]@[lc as int]@, fixed@.cap(lc as int),
                    fixed.ef_construction as int));
                assert forall|l: int| lc <= l <= top implies #[trigger] nearest_linked(
                    lv_pushed, n as int, l, *dist, id as int, self.links@[id as int]@[l]@, fixed@.cap(l),
                    fixed.ef_construction as int) by {
                    if l != lc {
                        assert(self.links@[id as int]@[l] == layer_start[id as int]@[l]);
                    }
                }
                assert forall|a: int, l: int| 0 <= a < n && 0 <= l < lc && l < pushed[a].len()
                    implies #[trigger] self.links@[a]@[l] == pushed[a]@[l] by {
                    assert(self.links@[a]@[l] == layer_start[a]@[l]);
                }
                assert forall|l: int| lc <= l <= top implies #[trigger] links_back(links_view(self.links@), id as int, l, fixed@.cap(l)) by {
                    let lv = links_view(self.links@);
                    lemma_links_view(self.links@, id as int, l);
                    assert forall|j: int| 0 <= j < lv[id as int][l].len()
                        implies #[trigger] linked_back(lv, lv[id as int][l][j] as int, id as int, l, fixed@.cap(l)) by {
                        let x = lv[id as int][l][j] as int;
                        assert(lv[id as int][l][j] == self.links@[id as int]@[l]@[j]);
                        assert(self.links@[id as int]@[l]@[j] < n);
                        assert(x < n);
                        lemma_links_view(self.links@, x, l);
                        assert(self@.cap(l) == fixed@.cap(l));
                        assert(lv[x].len() == self.links@[x].len());
                        if l == lc {
                            assert(self.links@[id as int]@[lc as int]@.contains(x as usize));
                            assert(selected@.contains(x as usize));
                            let q2 = choose|q2: int| 0 <= q2 < selected@.len() && selected@[q2] == x as usize;
                            if l < lv[x].len() {
                                assert(self.links@[selected@[q2] as int]@[lc as int]@.contains(id)
                                    || self.links@[selected@[q2] as int]@[lc as int]@.len() == max_conn);
                                assert(lv[x][l] == self.links@[x]@[l]@);
                            }
                        } else {
                            let old_lv = links_view(layer_start);
                            assert(self.links@[id as int]@[l] == layer_start[id as int]@[l]);
                            lemma_links_view(layer_start, id as int, l);
                            lemma_links_view(layer_start, x, l);
                            assert(links_back(old_lv, id as int, l, fixed@.cap(l)));
                            assert(old_lv[id as int][l][j] == lv[id as int][l][j]);
                            assert(linked_back(old_lv, old_lv[id as int][l][j] as int, id as int, l, fixed@.cap(l)));
                            assert(layer_start[x].len() == pushed[x].len());
                            assert(old_lv[x].len() == lv[x].len());
                            if l < self.links@[x].len() {
                                assert(self.links@[x]@[l] == layer_start[x]@[l]);
                                assert(lv[x][l] == old_lv[x][l]);
                            }
                        }
                    }
                }
                if fixed.m >= 1 {
                    assert forall|l: int| lc <= l <= top implies #[trigger] self.links@[id as int]@[l]@.len() >= 1 by {
                        if l != lc {
                            assert(self.links@[id as int]@[l] == layer_start[id as int]@[l]);
                        }
                    }
                }
            }
            if neighbors.len() > 0 {
                current_ep = neighbors[0].0;
            }
            lcp = lcp - 1;
        }
        if level > self.max_level {
            self.entry_point = Some(id);
            self.max_level = level;
        }
        proof {
            assert(self@.souls =~= before@.souls.push(soul@));
            assert forall|a: int| 0 <= a < before@.len() implies #[trigger] self@.links[a].len() == before@.links[a].len() by {
                lemma_links_view(self.links@, a, 0);
                lemma_links_view(before.links@, a, 0);
                assert(pushed[a] == before.links@[a]);
                assert(self.links@[a].len() == pushed[a].len());
                assert(self@.links[a].len() == self.links@[a]@.len());
                assert(before@.links[a].len() == before.links@[a]@.len());
            }
            assert forall|a: int, l: int, x: usize| 0 <= a < before@.len() && 0 <= l < before@.links[a].len()
                && #[trigger] self@.links[a][l].contains(x)
                implies before@.links[a][l].contains(x) || x == id by {
                lemma_links_view(self.links@, a, l);
                lemma_links_view(before.links@, a, l);
                assert(pushed[a] == before.links@[a]);
            }
            assert forall|a: int, l: int| #![trigger self@.links[a][l]] 0 <= a < before@.len() && 0 <= l < before@.links[a].len()
                implies relinked(a as usize, before@.links[a][l], self@.links[a][l], id, *dist, self@.cap(l)) by {
                lemma_links_view(self.links@, a, l);
                lemma_links_view(before.links@, a, l);
                assert(pushed[a] == before.links@[a]);
                assert(self@.cap(l) == fixed@.cap(l));
                assert(self.links@[a]@[l]@ == self@.links[a][l]);
                assert(relinked(a as usize, pushed[a]@[l]@, self.links@[a]@[l]@, id, *dist, fixed@.cap(l)));
            }
            assert forall|l: int| before@.max_level < l && 0 <= l <= level
                implies #[trigger] self@.links[id as int][l].len() == 0 by {
                assert(self.links@[id as int].len() == self.levels@[id as int] + 1);
                lemma_links_view(self.links@, id as int, l);
                assert(top < l);
                assert(self.links@[id as int]@[l]@.len() == 0);
                assert(self@.links == links_view(self.links@));
            }
            assert forall|a: int| 0 <= a < n implies #[trigger] self.levels@[a] <= self.max_level by {
                if a < id {
                    assert(self.levels@[a] == before.levels@[a]);
                }
            }
            assert forall|l: int| before@.entry is Some && 0 <= l <= level && l <= before@.max_level
                implies #[trigger] links_back(self@.links, id as int, l, self@.cap(l)) by {
                assert(self@.links == links_view(self.links@));
                assert(self@.cap(l) == fixed@.cap(l));
            }
            assert(links_view(pushed) =~= before@.links.push(empty_rows((level + 1) as nat))) by {
                assert(pushed =~= before.links@.push(pushed[id as int]));
                assert forall|a: int| 0 <= a < n implies #[trigger] links_view(pushed)[a]
                    == before@.links.push(empty_rows((level + 1) as nat))[a] by {
                    if a < id {
                        assert(pushed[a] == before.links@[a]);
                    } else {
                        assert(a == id);
                        assert(before.links@.len() == id);
                        assert(self.links@[a].len() == pushed[a].len());
                        assert(self.links@[a].len() == self.levels@[a] + 1);
                        assert(pushed[a]@.len() == level + 1);
                        assert(links_view(pushed)[a] =~= empty_rows((level + 1) as nat)) by {
                            lemma_links_view(pushed, a, 0);
                            assert forall|l: int| 0 <= l <= level implies #[trigger] links_view(pushed)[a][l]
                                == empty_rows((level + 1) as nat)[l] by {
                                lemma_links_view(pushed, a, l);
                                assert(pushed[a]@[l]@.len() == 0);
                                assert(links_view(pushed)[a][l] =~= Seq::<usize>::empty());
                            }
                        }
                    }
                }
            }
            assert forall|l: int| before@.entry is Some && 0 <= l <= level && l <= before@.max_level
                implies #[trigger] nearest_linked(
                    before@.links.push(empty_rows((level + 1) as nat)),
                    before@.len() + 1 as int,
                    l,
                    *dist,
                    id as int,
                    self@.links[id as int][l],
                    self@.cap(l),
                    before@.ef_construction as int,
                ) by {
                assert(self.links@[id as int].len() == self.levels@[id as int] + 1);
                lemma_links_view(self.links@, id as int, l);
                assert(self@.links[id as int][l] == self.links@[id as int]@[l]@);
                assert(self@.cap(l) == fixed@.cap(l));
                assert(nearest_linked(links_view(pushed), n as int, l, *dist, id as int, self.links@[id as int]@[l]@, fixed@.cap(l),
                    fixed.ef_construction as int));
            }
            assert forall|l: int| before@.entry is Some && 0 <= l <= level && l <= before@.max_level && before@.m >= 1
                implies #[trigger] self@.links[id as int][l].len() >= 1 by {
                assert(self.links@[id as int].len() == self.levels@[id as int] + 1);
                lemma_links_view(self.links@, id as int, l);
                assert(self.links@[id as int]@[l]@.len() >= 1);
            }
        }
        (id, replaced)
    }

    /// A live node's soul is indexed to it.
    proof fn lemma_live(&self, id: int)
        requires
            self.wf(),
            self@.live(id),
        ensures
            0 <= id < self@.len(),
            self@.index.contains_key(self@.souls[id]),
            self@.index[self@.souls[id]] == id,
    {
        self.lemma_wf();
        let s = choose|s: Seq<char>| #[trigger] self@.index.contains_key(s) && self@.index[s] == id;
        assert(self@.souls[self@.index[s] as int] == s);
    }

    /// The `top_k` nearest live souls, nearest first, each with its
    /// distance key: a greedy descent from the entry point through the
    /// upper layers, then a best-first search of the bottom layer that keeps
    /// the larger of `ef_search` and `top_k` candidates.
    pub fn search<F: Fn(usize) -> u32>(&self, top_k: usize, dist: &F) -> (r: Vec<(String, u32)>)
        requires
            self.wf(),
            forall|j: usize| dist.requires((j,)),
        ensures
            r.len() <= top_k,
            self@.index.len() == 0 ==> r.len() == 0,
            forall|i: int| 0 <= i < r.len() ==> #[trigger] self@.index.contains_key(r@[i].0@)
                && dist.ensures((self@.index[r@[i].0@],), r@[i].1),
            forall|i: int, j: int| 0 <= i < j < r.len() ==> r@[i].1 <= r@[j].1,
            forall|i: int, j: int| 0 <= i < j < r.len() ==> r@[i].0@ != r@[j].0@,
            self@.index.len() > 0 ==> exists|start: usize, cands: Seq<(usize, u32)>|
                #![trigger explored(self@.links, self@.len() as int, 0, start as int, *dist, cands)] {
                &&& start < self@.len()
                &&& descended(self@, *dist, start)
                &&& 1 <= cands.len()
                &&& keys_sorted(cands)
                &&& ids_distinct(cands)
                &&& explored(self@.links, self@.len() as int, 0, start as int, *dist, cands)
                &&& (cands.len() <= search_width(self@.ef_search as nat, top_k as nat) || cands.len() == 1)
                &&& (cands.len() < search_width(self@.ef_search as nat, top_k as nat)
                    ==> holds_reachable(self@.links, 0, start as int, cands))
                &&& found_view(r@) == live_prefix(self@, cands, top_k as nat)
                &&& r.len() == (if live_count(self@, cands) < top_k { live_count(self@, cands) } else { top_k as nat })
            },
            top_k > 0 && self@.len() > 0 && (forall|id: int| 0 <= id < self@.len() ==> #[trigger] self@.live(id))
                ==> r.len() > 0,
    {
        proof {
            self.lemma_wf();
            lemma_assoc_len(index_seq(self.index@));
        }
        let ep = match self.entry_point {
            Some(e) => e,
            None => {
                return Vec::new();
            },
        };
        if self.index.len() == 0 {
            proof {
                if self@.len() > 0 && (forall|id: int| 0 <= id < self@.len() ==> #[trigger] self@.live(id)) {
                    assert(self@.live(0));
                    self.lemma_live_indexed(0);
                }
            }
            return Vec::new();
        }
        let n = self.souls.len();
        let mut current_ep = ep;
        let mut lc = self.max_level;
        let ghost top = self.max_level as int;
        let ghost mut eps: Seq<usize> = seq![ep];
        while lc >= 1
            invariant
                self.wf(),
                n == self.souls@.len(),
                current_ep < n,
                forall|j: usize| dist.requires((j,)),
                top == self@.max_level,
                lc <= top,
                eps.len() == top - lc + 1,
                eps[0] == ep,
                eps.last() == current_ep,
                forall|i: int| 0 <= i < eps.len() - 1 ==> #[trigger] descent_step(self@.links, *dist, top, eps, i),
            decreases lc,
        {
            let next = self.search_layer_single(dist, current_ep, lc);
            proof {
                let old_eps = eps;
                eps = eps.push(next);
                let (path, keys, steps) = choose|path: Seq<usize>, keys: Seq<u32>, steps: Seq<Seq<u32>>|
                    #[trigger] greedy_walk(self@.links, lc as int, *dist, current_ep, path, keys, steps) && path.last() == next;
                assert forall|i: int| 0 <= i < eps.len() - 1 implies #[trigger] descent_step(self@.links, *dist, top, eps, i) by {
                    if i < old_eps.len() - 1 {
                        assert(descent_step(self@.links, *dist, top, old_eps, i));
                        assert(eps[i] == old_eps[i] && eps[i + 1] == old_eps[i + 1]);
                    } else {
                        assert(top - i == lc);
                        assert(eps[i] == current_ep && eps[i + 1] == next);
                        assert(greedy_walk(self@.links, top - i, *dist, eps[i], path, keys, steps));
                    }
                }
            }
            current_ep = next;
            lc = lc - 1;
        }
        proof {
            assert(descent(self@.links, *dist, top, eps));
            assert(self@.entry == Some(eps[0]));
            assert(descended(self@, *dist, current_ep));
        }
        let ef = if self.ef_search > top_k { self.ef_search } else { top_k };
        let candidates = self.search_layer(dist, current_ep, ef, 0);
        let mut out: Vec<(String, u32)> = Vec::new();
        let ghost mut picks: Seq<int> = Seq::empty();
        let mut i: usize = 0;
        proof {
            assert(candidates@.skip(0) =~= candidates@);
            assert(found_view(out@) =~= Seq::<(Seq<char>, u32)>::empty());
            assert(found_view(out@) + live_prefix(self@, candidates@, top_k as nat)
                =~= live_prefix(self@, candidates@, top_k as nat));
        }
        while i < candidates.len() && out.len() < top_k
            invariant
                self.wf(),
                n == self.souls@.len(),
                i <= candidates.len(),
                out.len() <= top_k,
                found_view(out@) + live_prefix(self@, candidates@.skip(i as int), (top_k - out.len()) as nat)
                    == live_prefix(self@, candidates@, top_k as nat),
                keys_sorted(candidates@),
                ids_distinct(candidates@),
                ids_below(candidates@, n as int),
                keys_measured(candidates@, *dist),
                picks.len() == out.len(),
                forall|p: int| 0 <= p < picks.len() ==> 0 <= #[trigger] picks[p] < i,
                forall|p: int, q: int| 0 <= p < q < picks.len() ==> picks[p] < picks[q],
                forall|p: int| #![trigger out@[p]] 0 <= p < out.len() ==> {
                    &&& self@.index.contains_key(out@[p].0@)
                    &&& self@.index[out@[p].0@] == candidates@[picks[p]].0
                    &&& out@[p].1 == candidates@[picks[p]].1
                },
            decreases candidates.len() - i,
        {
            let c = candidates[i];
            proof {
                assert(candidates@.skip(i as int)[0] == c);
                assert(candidates@.skip(i as int).drop_first() =~= candidates@.skip(i + 1));
            }
            if self.is_live(c.0) {
                let soul = self.souls[c.0].clone();
                let ghost before = out@;
                out.push((soul, c.1));
                proof {
                    let t = (top_k - before.len()) as nat;
                    assert(found_view(out@) =~= found_view(before).push((self@.souls[c.0 as int], c.1)));
                    assert(live_prefix(self@, candidates@.skip(i as int), t)
                        == seq![(self@.souls[c.0 as int], c.1)] + live_prefix(self@, candidates@.skip(i + 1), (t - 1) as nat));
                    assert(found_view(out@) + live_prefix(self@, candidates@.skip(i + 1), (t - 1) as nat)
                        =~= found_view(before) + live_prefix(self@, candidates@.skip(i as int), t));
                    picks = picks.push(i as int);
                    assert(self@.souls[c.0 as int] == self.souls@[c.0 as int]@);
                    self.lemma_live(c.0 as int);
                    assert(candidates@[picks[picks.len() - 1]] == c);
                    assert forall|p: int| #![trigger out@[p]] 0 <= p < out.len() implies {
                        &&& self@.index.contains_key(out@[p].0@)
                        &&& self@.index[out@[p].0@] == candidates@[picks[p]].0
                        &&& out@[p].1 == candidates@[picks[p]].1
                    } by {
                        if p < before.len() {
                            assert(out@[p] == before[p]);
                        }
                    }
                }
            } else {
                proof {
                    let t = (top_k - out.len()) as nat;
                    assert(live_prefix(self@, candidates@.skip(i as int), t)
                        == live_prefix(self@, candidates@.skip(i + 1), t));
                }
            }
            i = i + 1;
        }
        proof {
            assert forall|p: int| 0 <= p < out.len() implies #[trigger] self@.index.contains_key(out@[p].0@)
                && dist.ensures((self@.index[out@[p].0@],), out@[p].1) by {
                assert(out@[p].1 == candidates@[picks[p]].1);
            }
            assert forall|p: int, q: int| 0 <= p < q < out.len() implies out@[p].1 <= out@[q].1 by {
                assert(out@[p].1 == candidates@[picks[p]].1);
                assert(out@[q].1 == candidates@[picks[q]].1);
            }
            assert forall|p: int, q: int| 0 <= p < q < out.len() implies out@[p].0@ != out@[q].0@ by {
                assert(self@.index[out@[p].0@] == candidates@[picks[p]].0);
                assert(self@.index[out@[q].0@] == candidates@[picks[q]].0);
            }
            let t = (top_k - out.len()) as nat;
            if i == candidates.len() {
                assert(candidates@.skip(i as int) =~= Seq::<(usize, u32)>::empty());
            }
            assert(live_prefix(self@, candidates@.skip(i as int), t) == Seq::<(Seq<char>, u32)>::empty());
            assert(found_view(out@) =~= found_view(out@) + Seq::<(Seq<char>, u32)>::empty());
            assert(found_view(out@) == live_prefix(self@, candidates@, top_k as nat));
            assert(self@.links == links_view(self.links@));
            assert(explored(self@.links, self@.len() as int, 0, current_ep as int, *dist, candidates@));
            assert(self@.ef_search == self.ef_search);
            assert(ef as nat == search_width(self@.ef_search as nat, top_k as nat));
            lemma_live_prefix_len(self@, candidates@, top_k as nat);
            assert(found_view(out@).len() == out@.len());
            assert(candidates@.len() < ef ==> holds_reachable(self@.links, 0, current_ep as int, candidates@));
            assert(out.len() == (if live_count(self@, candidates@) < top_k { live_count(self@, candidates@) } else { top_k as nat }));
            if top_k > 0 && (forall|id: int| 0 <= id < self@.len() ==> #[trigger] self@.live(id)) {
                assert(self@.live(candidates@[0].0 as int));
                assert(live_prefix(self@, candidates@, top_k as nat).len() > 0);
                assert(found_view(out@).len() == out@.len());
            }
        }
        out
    }

    /// With a live node, some soul is indexed.
    proof fn lemma_live_indexed(&self, id: int)
        requires
            self.wf(),
            self@.live(id),
        ensures
            self@.index.len() > 0,
    {
        lemma_assoc_dom(index_seq(self.index@));
        let s = choose|s: Seq<char>| #[trigger] self@.index.contains_key(s) && self@.index[s] == id;
        assert(self@.index.dom().contains(s));
        vstd::set_lib::lemma_set_empty_equivalency_len(self@.index.dom());
    }

    /// Whether some live soul has node `id`.
    fn is_live(&self, id: usize) -> (r: bool)
        requires
            self.wf(),
        ensures
            r == self@.live(id as int),
    {
        let ghost s = index_seq(self.index@);
        proof {
            lemma_assoc_dom(s);
        }
        let mut i: usize = 0;
        while i < self.index.len()
            invariant
                i <= self.index.len(),
                s == index_seq(self.index@),
                keys_unique(s),
                forall|j: int| 0 <= j < i ==> self.index@[j].1 != id,
            decreases self.index.len() - i,
        {
            if self.index[i].1 == id {
                proof {
                    lemma_assoc_index(s, i as int);
                    assert(self@.index.contains_key(s[i as int].0) && self@.index[s[i as int].0] == id);
                }
                return true;
            }
            i = i + 1;
        }
        proof {
            assert forall|k: Seq<char>| #[trigger] self@.index.contains_key(k) implies self@.index[k] != id by {
                let j = choose|j: int| 0 <= j < s.len() && s[j].0 == k;
                lemma_assoc_index(s, j);
            }
        }
        false
    }
}

} // verus!
