//! Storage backends for graph nodes.

use vstd::prelude::*;
use crate::assoc::{assoc_map, find_key, has_key, keys_unique, lemma_assoc_dom, lemma_assoc_index, lemma_assoc_len, lemma_assoc_push, lemma_assoc_remove, lemma_assoc_update};
use crate::node::{Node, NodeView};
use crate::text::starts_with;
use crate::value::Soul;

verus! {

/// Errors of a storage backend.
#[derive(Debug)]
pub enum StorageError {
    Io(String),
    Serialization(String),
    NotFound(String),
}

/// The views of a list of souls.
pub open spec fn souls_view(v: Seq<String>) -> Seq<Seq<char>> {
    v.map_values(|s: String| s@)
}

/// What a listing of the souls that begin with `prefix` holds: each such
/// soul of `nodes` exactly once.
pub open spec fn lists_prefix(r: Seq<Seq<char>>, nodes: Map<Seq<char>, NodeView>, prefix: Seq<char>) -> bool {
    &&& r.no_duplicates()
    &&& forall|k: Seq<char>| r.contains(k) <==> (nodes.contains_key(k) && prefix.is_prefix_of(k))
}

/// A pluggable storage backend: a map from souls to nodes.
///
/// A backend states its model by defining `nodes`, `inv` and `infallible`.
/// One that leaves them undefined promises nothing: its invariant is
/// false, so no contract below applies to it.
pub trait StorageAdapter {
    /// The nodes stored, by soul.
    open spec fn nodes(&self) -> Map<Seq<char>, NodeView> {
        Map::empty()
    }

    /// The backend's internal invariant.
    open spec fn inv(&self) -> bool {
        false
    }

    /// Whether writes and deletions always succeed.
    open spec fn infallible() -> bool {
        false
    }

    fn get(&self, soul: &str) -> (r: Option<Node>)
        requires
            self.inv(),
        ensures
            match r {
                Some(n) => n.wf() && self.nodes().contains_key(soul@) && n@ == self.nodes()[soul@],
                None => !self.nodes().contains_key(soul@),
            },
    ;

    fn put(&mut self, soul: &str, node: &Node) -> (r: Result<(), StorageError>)
        requires
            old(self).inv(),
            node.wf(),
        ensures
            final(self).inv(),
            Self::infallible() ==> r is Ok,
            r is Ok ==> final(self).nodes() == old(self).nodes().insert(soul@, node@),
            r is Err ==> final(self).nodes() == old(self).nodes(),
    ;

    fn delete(&mut self, soul: &str) -> (r: Result<(), StorageError>)
        requires
            old(self).inv(),
        ensures
            final(self).inv(),
            Self::infallible() ==> r is Ok,
            r is Ok ==> final(self).nodes() == old(self).nodes().remove(soul@),
            r is Err ==> final(self).nodes() == old(self).nodes(),
    ;

    /// The souls that begin with `prefix`.
    fn list(&self, prefix: &str) -> (r: Vec<Soul>)
        requires
            self.inv(),
        ensures
            lists_prefix(souls_view(r@), self.nodes(), prefix@),
    ;

    fn contains(&self, soul: &str) -> (r: bool)
        requires
            self.inv(),
        ensures
            r == self.nodes().contains_key(soul@),
    ;
}

/// The stored pairs, by the views of their souls and nodes.
pub open spec fn stored_seq(v: Seq<(String, Node)>) -> Seq<(Seq<char>, NodeView)> {
    v.map_values(|p: (String, Node)| (p.0@, p.1@))
}

/// In-memory storage, for testing and ephemeral use.
pub struct MemoryStorage {
    nodes: Vec<(String, Node)>,
}

impl MemoryStorage {
    pub fn new() -> (r: MemoryStorage)
        ensures
            r.inv(),
            r.nodes() == Map::<Seq<char>, NodeView>::empty(),
    {
        let r = MemoryStorage { nodes: Vec::new() };
        assert(stored_seq(r.nodes@) =~= Seq::empty());
        r
    }

    /// The number of nodes stored.
    pub fn len(&self) -> (r: usize)
        requires
            self.inv(),
        ensures
            r == self.nodes().len(),
    {
        proof {
            lemma_assoc_len(stored_seq(self.nodes@));
        }
        self.nodes.len()
    }

    pub fn is_empty(&self) -> (r: bool)
        requires
            self.inv(),
        ensures
            r == (self.nodes().len() == 0),
    {
        self.len() == 0
    }
}

impl StorageAdapter for MemoryStorage {
    closed spec fn nodes(&self) -> Map<Seq<char>, NodeView> {
        assoc_map(stored_seq(self.nodes@))
    }

    closed spec fn inv(&self) -> bool {
        &&& keys_unique(stored_seq(self.nodes@))
        &&& forall|i: int| 0 <= i < self.nodes@.len() ==> (#[trigger] self.nodes@[i]).1.wf()
    }

    open spec fn infallible() -> bool {
        true
    }

    fn get(&self, soul: &str) -> (r: Option<Node>) {
        let ghost s = stored_seq(self.nodes@);
        proof {
            lemma_assoc_dom(s);
        }
        match find_key(&self.nodes, soul) {
            Some(i) => {
                proof {
                    lemma_assoc_index(s, i as int);
                }
                let n = self.nodes[i].1.clone();
                proof {
                    assert(self.nodes@[i as int].1.wf());
                }
                Some(n)
            },
            None => {
                proof {
                    if has_key(s, soul@) {
                        let j = choose|j: int| 0 <= j < s.len() && s[j].0 == soul@;
                        assert(self.nodes@[j].0@ == soul@);
                    }
                }
                None
            },
        }
    }

    fn put(&mut self, soul: &str, node: &Node) -> (r: Result<(), StorageError>) {
        let ghost s = stored_seq(self.nodes@);
        let copy = node.clone();
        proof {
            assert(copy@ == node@);
        }
        match find_key(&self.nodes, soul) {
            Some(i) => {
                let k = self.nodes[i].0.clone();
                self.nodes.set(i, (k, copy));
                proof {
                    lemma_assoc_update(s, i as int, node@);
                    assert(stored_seq(self.nodes@) =~= s.update(i as int, (s[i as int].0, node@)));
                    assert forall|j: int| 0 <= j < self.nodes@.len() implies (#[trigger] self.nodes@[j]).1.wf() by {
                        if j != i {
                            assert(self.nodes@[j] == old(self).nodes@[j]);
                        }
                    }
                }
            },
            None => {
                self.nodes.push((soul.to_string(), copy));
                proof {
                    assert(!has_key(s, soul@)) by {
                        if has_key(s, soul@) {
                            let j = choose|j: int| 0 <= j < s.len() && s[j].0 == soul@;
                            assert(old(self).nodes@[j].0@ == soul@);
                        }
                    }
                    lemma_assoc_push(s, soul@, node@);
                    assert(stored_seq(self.nodes@) =~= s.push((soul@, node@)));
                    assert forall|j: int| 0 <= j < self.nodes@.len() implies (#[trigger] self.nodes@[j]).1.wf() by {
                        if j < old(self).nodes@.len() {
                            assert(self.nodes@[j] == old(self).nodes@[j]);
                        }
                    }
                }
            },
        }
        Ok(())
    }

    fn delete(&mut self, soul: &str) -> (r: Result<(), StorageError>) {
        let ghost s = stored_seq(self.nodes@);
        match find_key(&self.nodes, soul) {
            Some(i) => {
                let _removed = self.nodes.remove(i);
                proof {
                    lemma_assoc_remove(s, i as int);
                    assert(stored_seq(self.nodes@) =~= s.remove(i as int));
                    assert forall|j: int| 0 <= j < self.nodes@.len() implies (#[trigger] self.nodes@[j]).1.wf() by {
                        if j < i {
                            assert(self.nodes@[j] == old(self).nodes@[j]);
                        } else {
                            assert(self.nodes@[j] == old(self).nodes@[j + 1]);
                        }
                    }
                }
            },
            None => {
                proof {
                    lemma_assoc_dom(s);
                    if has_key(s, soul@) {
                        let j = choose|j: int| 0 <= j < s.len() && s[j].0 == soul@;
                        assert(self.nodes@[j].0@ == soul@);
                    }
                    assert(assoc_map(s).remove(soul@) =~= assoc_map(s));
                }
            },
        }
        Ok(())
    }

    fn list(&self, prefix: &str) -> (r: Vec<Soul>) {
        let ghost s = stored_seq(self.nodes@);
        let mut out: Vec<Soul> = Vec::new();
        let mut i: usize = 0;
        while i < self.nodes.len()
            invariant
                i <= self.nodes.len(),
                s == stored_seq(self.nodes@),
                keys_unique(s),
                souls_view(out@).no_duplicates(),
                forall|k: Seq<char>| souls_view(out@).contains(k) <==> (exists|j: int| 0 <= j < i && #[trigger] s[j].0 == k && prefix@.is_prefix_of(k)),
            decreases self.nodes.len() - i,
        {
            if starts_with(self.nodes[i].0.as_str(), prefix) {
                let ghost before = souls_view(out@);
                let k = self.nodes[i].0.clone();
                out.push(k);
                proof {
                    let after = souls_view(out@);
                    assert(after =~= before.push(s[i as int].0));
                    assert(!before.contains(s[i as int].0)) by {
                        if before.contains(s[i as int].0) {
                            let j = choose|j: int| 0 <= j < i && #[trigger] s[j].0 == s[i as int].0 && prefix@.is_prefix_of(s[i as int].0);
                            assert(s[j].0 == s[i as int].0);
                        }
                    }
                    assert forall|a: int, b: int| 0 <= a < after.len() && 0 <= b < after.len() && a != b implies after[a] != after[b] by {
                        if a < before.len() && b < before.len() {
                            assert(before[a] != before[b]);
                        } else if a < before.len() {
                            assert(before.contains(before[a]));
                        } else {
                            assert(before.contains(before[b]));
                        }
                    }
                    assert forall|k: Seq<char>| after.contains(k) <==> (exists|j: int| 0 <= j < i + 1 && #[trigger] s[j].0 == k && prefix@.is_prefix_of(k)) by {
                        if after.contains(k) && k != s[i as int].0 {
                            let a = choose|a: int| 0 <= a < after.len() && after[a] == k;
                            assert(before[a] == k);
                            assert(before.contains(k));
                        }
                        if exists|j: int| 0 <= j < i + 1 && #[trigger] s[j].0 == k && prefix@.is_prefix_of(k) {
                            let j = choose|j: int| 0 <= j < i + 1 && #[trigger] s[j].0 == k && prefix@.is_prefix_of(k);
                            if j < i {
                                assert(before.contains(k));
                                let a = choose|a: int| 0 <= a < before.len() && before[a] == k;
                                assert(after[a] == k);
                            } else {
                                assert(after[before.len() as int] == k);
                            }
                        }
                    }
                }
            } else {
                proof {
                    assert forall|k: Seq<char>| souls_view(out@).contains(k) <==> (exists|j: int| 0 <= j < i + 1 && #[trigger] s[j].0 == k && prefix@.is_prefix_of(k)) by {
                        if exists|j: int| 0 <= j < i + 1 && #[trigger] s[j].0 == k && prefix@.is_prefix_of(k) {
                            let j = choose|j: int| 0 <= j < i + 1 && #[trigger] s[j].0 == k && prefix@.is_prefix_of(k);
                            if j == i {
                                assert(false);
                            }
                        }
                    }
                }
            }
            i = i + 1;
        }
        proof {
            lemma_assoc_dom(s);
            assert forall|k: Seq<char>| souls_view(out@).contains(k) <==> (self.nodes().contains_key(k) && prefix@.is_prefix_of(k)) by {
                if self.nodes().contains_key(k) && prefix@.is_prefix_of(k) {
                    let j = choose|j: int| 0 <= j < s.len() && s[j].0 == k;
                    assert(s[j].0 == k);
                }
                if souls_view(out@).contains(k) {
                    let j = choose|j: int| 0 <= j < i && #[trigger] s[j].0 == k && prefix@.is_prefix_of(k);
                    assert(has_key(s, k));
                }
            }
        }
        out
    }

    fn contains(&self, soul: &str) -> (r: bool) {
        let ghost s = stored_seq(self.nodes@);
        proof {
            lemma_assoc_dom(s);
        }
        match find_key(&self.nodes, soul) {
            Some(i) => {
                proof {
                    assert(s[i as int].0 == soul@);
                }
                true
            },
            None => {
                proof {
                    if has_key(s, soul@) {
                        let j = choose|j: int| 0 <= j < s.len() && s[j].0 == soul@;
                        assert(self.nodes@[j].0@ == soul@);
                    }
                }
                false
            },
        }
    }
}

} // verus!
