//! Graph nodes: a soul, properties, and the state of each property.

use vstd::prelude::*;
use crate::assoc::{assoc_map, find_key, has_key, keys_unique, lemma_assoc_dom, lemma_assoc_index, lemma_assoc_len, lemma_assoc_push, lemma_assoc_update};
use crate::ids::{fresh_uuid, is_uuid_v4_text};
use crate::value::{Soul, Value, ValueView};

verus! {

/// The value the map holds for `k`, if any.
pub open spec fn map_get<K, V>(m: Map<K, V>, k: K) -> Option<V> {
    if m.contains_key(k) {
        Some(m[k])
    } else {
        None
    }
}

/// The pairs of a state vector, by the views of their keys.
pub open spec fn states_seq(v: Seq<(String, i64)>) -> Seq<(Seq<char>, i64)> {
    v.map_values(|p: (String, i64)| (p.0@, p.1))
}

/// The pairs of a property list, by the views of their keys and values.
pub open spec fn props_seq(v: Seq<(String, Value)>) -> Seq<(Seq<char>, ValueView)> {
    v.map_values(|p: (String, Value)| (p.0@, p.1@))
}

/// Per-property state tracking for HAM conflict resolution: the state
/// (timestamp, in milliseconds) of the last write of each property.
#[derive(Debug)]
pub struct StateVector(pub Vec<(String, i64)>);

impl View for StateVector {
    type V = Map<Seq<char>, i64>;

    open spec fn view(&self) -> Map<Seq<char>, i64> {
        assoc_map(states_seq(self.0@))
    }
}

impl StateVector {
    /// No property occurs twice.
    pub open spec fn wf(&self) -> bool {
        keys_unique(states_seq(self.0@))
    }

    pub fn new() -> (r: StateVector)
        ensures
            r.wf(),
            r@ == Map::<Seq<char>, i64>::empty(),
    {
        let r = StateVector(Vec::new());
        assert(states_seq(r.0@) =~= Seq::empty());
        r
    }

    pub fn get(&self, key: &str) -> (r: Option<i64>)
        requires
            self.wf(),
        ensures
            r == map_get(self@, key@),
    {
        proof {
            lemma_assoc_dom(states_seq(self.0@));
        }
        match find_key(&self.0, key) {
            Some(i) => {
                proof {
                    lemma_assoc_index(states_seq(self.0@), i as int);
                }
                Some(self.0[i].1)
            },
            None => {
                proof {
                    let s = states_seq(self.0@);
                    if has_key(s, key@) {
                        let j = choose|j: int| 0 <= j < s.len() && s[j].0 == key@;
                        assert(self.0@[j].0@ == key@);
                    }
                }
                None
            },
        }
    }

    pub fn set(&mut self, key: &str, state: i64)
        requires
            old(self).wf(),
        ensures
            final(self).wf(),
            final(self)@ == old(self)@.insert(key@, state),
    {
        let ghost s = states_seq(self.0@);
        match find_key(&self.0, key) {
            Some(i) => {
                let k = self.0[i].0.clone();
                self.0.set(i, (k, state));
                proof {
                    lemma_assoc_update(s, i as int, state);
                    assert(states_seq(self.0@) =~= s.update(i as int, (s[i as int].0, state)));
                }
            },
            None => {
                self.0.push((key.to_string(), state));
                proof {
                    assert(!has_key(s, key@)) by {
                        if has_key(s, key@) {
                            let j = choose|j: int| 0 <= j < s.len() && s[j].0 == key@;
                            assert(old(self).0@[j].0@ == key@);
                        }
                    }
                    lemma_assoc_push(s, key@, state);
                    assert(states_seq(self.0@) =~= s.push((key@, state)));
                }
            },
        }
    }
}

impl Clone for StateVector {
    fn clone(&self) -> (r: Self)
        ensures
            r.0@ == self.0@,
    {
        let mut v: Vec<(String, i64)> = Vec::new();
        let mut i: usize = 0;
        while i < self.0.len()
            invariant
                i <= self.0.len(),
                v@ == self.0@.take(i as int),
            decreases self.0.len() - i,
        {
            let k = self.0[i].0.clone();
            v.push((k, self.0[i].1));
            proof {
                assert(self.0@.take(i + 1) =~= self.0@.take(i as int).push(self.0@[i as int]));
            }
            i = i + 1;
        }
        proof {
            assert(self.0@.take(i as int) =~= self.0@);
        }
        StateVector(v)
    }
}

/// Metadata attached to every node.
#[derive(Debug)]
pub struct NodeMeta {
    /// The node's unique identifier.
    pub soul: Soul,
    /// Per-property timestamps for conflict resolution.
    pub state: StateVector,
}

/// The mathematical model of a [`Node`].
#[verifier::ext_equal]
pub struct NodeView {
    pub soul: Seq<char>,
    pub props: Map<Seq<char>, ValueView>,
    pub states: Map<Seq<char>, i64>,
}

impl NodeView {
    /// The node with no properties.
    pub open spec fn empty(soul: Seq<char>) -> NodeView {
        NodeView { soul, props: Map::empty(), states: Map::empty() }
    }

    /// The node after writing `value` to `key` at `state`.
    pub open spec fn with_prop(self, key: Seq<char>, value: ValueView, state: i64) -> NodeView {
        NodeView {
            soul: self.soul,
            props: self.props.insert(key, value),
            states: self.states.insert(key, state),
        }
    }

    /// The properties whose value is not null.
    pub open spec fn live_props(self) -> Map<Seq<char>, ValueView> {
        Map::new(
            |k: Seq<char>| self.props.contains_key(k) && !(self.props[k] is Null),
            |k: Seq<char>| self.props[k],
        )
    }
}

/// Deleting a property leaves a tombstone: the property is still there,
/// null, with the deletion's state, and it no longer counts among the live
/// properties; the others are untouched.
pub proof fn law_delete_leaves_tombstone(n: NodeView, key: Seq<char>, state: i64, other: Seq<char>)
    ensures
        n.with_prop(key, ValueView::Null, state).props.contains_key(key),
        n.with_prop(key, ValueView::Null, state).props[key] is Null,
        n.with_prop(key, ValueView::Null, state).states[key] == state,
        !n.with_prop(key, ValueView::Null, state).live_props().contains_key(key),
        other != key ==> n.with_prop(key, ValueView::Null, state).live_props().contains_key(other)
            == n.live_props().contains_key(other),
{
}

/// Reading a property back gives what was written last, with its state.
pub proof fn law_put_then_get(n: NodeView, key: Seq<char>, value: ValueView, state: i64)
    ensures
        map_get(n.with_prop(key, value, state).props, key) == Some(value),
        map_get(n.with_prop(key, value, state).states, key) == Some(state),
{
}

/// A node in the graph: a soul (unique ID), properties whose values are
/// primitives or links to other nodes, and metadata tracking the state of
/// each property for conflict resolution.
#[derive(Debug)]
pub struct Node {
    pub meta: NodeMeta,
    /// Properties of this node, each name once.
    pub props: Vec<(String, Value)>,
}

impl View for Node {
    type V = NodeView;

    open spec fn view(&self) -> NodeView {
        NodeView {
            soul: self.meta.soul@,
            props: assoc_map(props_seq(self.props@)),
            states: self.meta.state@,
        }
    }
}

/// A copy of a property list.
pub fn clone_props(props: &Vec<(String, Value)>) -> (r: Vec<(String, Value)>)
    ensures
        r@ == props@,
{
    let mut v: Vec<(String, Value)> = Vec::new();
    let mut i: usize = 0;
    while i < props.len()
        invariant
            i <= props.len(),
            v@ == props@.take(i as int),
        decreases props.len() - i,
    {
        let k = props[i].0.clone();
        let x = props[i].1.clone();
        v.push((k, x));
        proof {
            assert(props@.take(i + 1) =~= props@.take(i as int).push(props@[i as int]));
        }
        i = i + 1;
    }
    proof {
        assert(props@.take(i as int) =~= props@);
    }
    v
}

impl Clone for NodeMeta {
    fn clone(&self) -> (r: Self)
        ensures
            r.soul == self.soul,
            r.state.0@ == self.state.0@,
    {
        NodeMeta { soul: self.soul.clone(), state: self.state.clone() }
    }
}

impl Clone for Node {
    fn clone(&self) -> (r: Self)
        ensures
            r.meta.soul == self.meta.soul,
            r.meta.state.0@ == self.meta.state.0@,
            r.props@ == self.props@,
    {
        Node { meta: self.meta.clone(), props: clone_props(&self.props) }
    }
}

impl Node {
    /// Each property and each state entry occurs once.
    pub open spec fn wf(&self) -> bool {
        &&& self.meta.state.wf()
        &&& keys_unique(props_seq(self.props@))
    }

    /// A new empty node with the given soul.
    pub fn new(soul: &str) -> (r: Node)
        ensures
            r.wf(),
            r@ == NodeView::empty(soul@),
    {
        let props: Vec<(String, Value)> = Vec::new();
        let r = Node {
            meta: NodeMeta { soul: soul.to_string(), state: StateVector::new() },
            props,
        };
        proof {
            assert(props_seq(r.props@) =~= Seq::empty());
        }
        r
    }

    /// A new empty node whose soul is a freshly generated random UUID, in
    /// its hyphenated text form.
    pub fn new_auto() -> (r: Node)
        ensures
            r.wf(),
            r@.props == Map::<Seq<char>, ValueView>::empty(),
            r@.states == Map::<Seq<char>, i64>::empty(),
            is_uuid_v4_text(r@.soul),
    {
        let soul = fresh_uuid();
        Self::new(soul.as_str())
    }

    pub fn soul(&self) -> (r: &str)
        ensures
            r@ == self@.soul,
    {
        self.meta.soul.as_str()
    }

    /// The value of a property, null for a deleted one.
    pub fn get(&self, key: &str) -> (r: Option<&Value>)
        requires
            self.wf(),
        ensures
            match r {
                Some(v) => map_get(self@.props, key@) == Some(v@),
                None => map_get(self@.props, key@) is None,
            },
    {
        let ghost s = props_seq(self.props@);
        proof {
            lemma_assoc_dom(s);
        }
        match find_key(&self.props, key) {
            Some(i) => {
                proof {
                    lemma_assoc_index(s, i as int);
                }
                Some(&self.props[i].1)
            },
            None => {
                proof {
                    if has_key(s, key@) {
                        let j = choose|j: int| 0 <= j < s.len() && s[j].0 == key@;
                        assert(self.props@[j].0@ == key@);
                    }
                }
                None
            },
        }
    }

    /// Write a property value and record its state.
    pub fn put(&mut self, key: &str, value: Value, state: i64)
        requires
            old(self).wf(),
        ensures
            final(self).wf(),
            final(self)@ == old(self)@.with_prop(key@, value@, state),
    {
        self.meta.state.set(key, state);
        let ghost s = props_seq(self.props@);
        let ghost vv = value@;
        match find_key(&self.props, key) {
            Some(i) => {
                let k = self.props[i].0.clone();
                self.props.set(i, (k, value));
                proof {
                    lemma_assoc_update(s, i as int, vv);
                    assert(props_seq(self.props@) =~= s.update(i as int, (s[i as int].0, vv)));
                }
            },
            None => {
                self.props.push((key.to_string(), value));
                proof {
                    assert(!has_key(s, key@)) by {
                        if has_key(s, key@) {
                            let j = choose|j: int| 0 <= j < s.len() && s[j].0 == key@;
                            assert(old(self).props@[j].0@ == key@);
                        }
                    }
                    lemma_assoc_push(s, key@, vv);
                    assert(props_seq(self.props@) =~= s.push((key@, vv)));
                }
            },
        }
    }

    /// Delete a property by writing null over it (a tombstone).
    pub fn delete(&mut self, key: &str, state: i64)
        requires
            old(self).wf(),
        ensures
            final(self).wf(),
            final(self)@ == old(self)@.with_prop(key@, ValueView::Null, state),
    {
        self.put(key, Value::Null, state);
    }

    /// The state (timestamp) of a property.
    pub fn state_of(&self, key: &str) -> (r: Option<i64>)
        requires
            self.wf(),
        ensures
            r == map_get(self@.states, key@),
    {
        self.meta.state.get(key)
    }

    /// The properties whose value is not null, each once.
    pub fn entries(&self) -> (r: Vec<(String, Value)>)
        requires
            self.wf(),
        ensures
            keys_unique(props_seq(r@)),
            assoc_map(props_seq(r@)) == self@.live_props(),
    {
        let ghost s = props_seq(self.props@);
        let ghost mut idx: Seq<int> = Seq::empty();
        let mut out: Vec<(String, Value)> = Vec::new();
        let mut i: usize = 0;
        while i < self.props.len()
            invariant
                i <= self.props.len(),
                s == props_seq(self.props@),
                keys_unique(s),
                keys_unique(props_seq(out@)),
                idx.len() == out.len(),
                forall|a: int| 0 <= a < out.len() ==> 0 <= #[trigger] idx[a] < i && s[idx[a]] == props_seq(out@)[a] && !(s[idx[a]].1 is Null),
                forall|j: int| 0 <= j < i && !(s[j].1 is Null) ==> has_key(props_seq(out@), #[trigger] s[j].0),
            decreases self.props.len() - i,
        {
            if !self.props[i].1.is_null() {
                let ghost before = props_seq(out@);
                let k = self.props[i].0.clone();
                let x = self.props[i].1.clone();
                out.push((k, x));
                proof {
                    let after = props_seq(out@);
                    assert(after =~= before.push(s[i as int]));
                    assert(!has_key(before, s[i as int].0)) by {
                        if has_key(before, s[i as int].0) {
                            let a = choose|a: int| 0 <= a < before.len() && before[a].0 == s[i as int].0;
                            assert(s[idx[a]].0 == s[i as int].0);
                        }
                    }
                    lemma_assoc_push(before, s[i as int].0, s[i as int].1);
                    idx = idx.push(i as int);
                    assert forall|j: int| 0 <= j < i + 1 && !(s[j].1 is Null) implies has_key(after, #[trigger] s[j].0) by {
                        if j < i {
                            let a = choose|a: int| 0 <= a < before.len() && before[a].0 == s[j].0;
                            assert(after[a].0 == s[j].0);
                        } else {
                            assert(after[before.len() as int].0 == s[j].0);
                        }
                    }
                }
            }
            i = i + 1;
        }
        proof {
            let o = props_seq(out@);
            lemma_assoc_dom(o);
            lemma_assoc_dom(s);
            assert forall|k: Seq<char>| #[trigger] assoc_map(o).contains_key(k) == self@.live_props().contains_key(k) by {
                if assoc_map(o).contains_key(k) {
                    let a = choose|a: int| 0 <= a < o.len() && o[a].0 == k;
                    lemma_assoc_index(s, idx[a]);
                }
                if self@.live_props().contains_key(k) {
                    let j = choose|j: int| 0 <= j < s.len() && s[j].0 == k;
                    lemma_assoc_index(s, j);
                }
            }
            assert forall|k: Seq<char>| #[trigger] assoc_map(o).contains_key(k) implies assoc_map(o)[k] == self@.live_props()[k] by {
                let a = choose|a: int| 0 <= a < o.len() && o[a].0 == k;
                lemma_assoc_index(s, idx[a]);
                lemma_assoc_index(o, a);
            }
            assert(assoc_map(o) =~= self@.live_props());
        }
        out
    }

    /// All properties, tombstones included.
    pub fn all_entries(&self) -> (r: Vec<(String, Value)>)
        ensures
            r@ == self.props@,
    {
        clone_props(&self.props)
    }
}

} // verus!
