//! The graph database: reads and writes of node properties, with HAM
//! conflict resolution over a pluggable storage backend.

use vstd::prelude::*;
use crate::ham::{ham_decision, now_ms, Ham, HamResult};
use crate::ids::{fresh_uuid, is_uuid_v4_text};
use crate::node::{Node, NodeView};
use crate::storage::{lists_prefix, souls_view, MemoryStorage, StorageAdapter};
use crate::text::{chars_less, chars_of, chars_start_with, lemma_chars_less_irreflexive, lemma_chars_less_total, lemma_chars_less_transitive};
use crate::value::{lex_key, Soul, Value, ValueView};

verus! {

/// A write of one property: `value` written to `key` of node `soul` at
/// `state`.
pub struct WriteView {
    pub soul: Seq<char>,
    pub key: Seq<char>,
    pub value: ValueView,
    pub state: i64,
}

/// A write held back because its state was ahead of the machine's clock.
#[derive(Debug)]
pub struct DeferredUpdate {
    pub soul: Soul,
    pub key: String,
    pub value: Value,
    pub state: i64,
}

impl View for DeferredUpdate {
    type V = WriteView;

    open spec fn view(&self) -> WriteView {
        WriteView { soul: self.soul@, key: self.key@, value: self.value@, state: self.state }
    }
}

impl Clone for DeferredUpdate {
    fn clone(&self) -> (r: Self)
        ensures
            r@ == self@,
    {
        DeferredUpdate {
            soul: self.soul.clone(),
            key: self.key.clone(),
            value: self.value.clone(),
            state: self.state,
        }
    }
}

/// The mathematical model of a [`Graph`].
#[verifier::ext_equal]
pub struct GraphView {
    /// The stored nodes, by soul.
    pub nodes: Map<Seq<char>, NodeView>,
    /// Writes deferred because they came from the future, oldest first.
    pub deferred: Seq<WriteView>,
    /// Active subscriptions: listener id and soul pattern, oldest first.
    pub listeners: Seq<(u64, Seq<char>)>,
    /// The id the next subscription gets.
    pub next_listener_id: u64,
}

/// The state recorded for a property, zero where there is none.
pub open spec fn stored_state(nodes: Map<Seq<char>, NodeView>, soul: Seq<char>, key: Seq<char>) -> i64 {
    if nodes.contains_key(soul) && nodes[soul].states.contains_key(key) {
        nodes[soul].states[key]
    } else {
        0
    }
}

/// The value recorded for a property, null where there is none.
pub open spec fn stored_value(nodes: Map<Seq<char>, NodeView>, soul: Seq<char>, key: Seq<char>) -> ValueView {
    if nodes.contains_key(soul) && nodes[soul].props.contains_key(key) {
        nodes[soul].props[key]
    } else {
        ValueView::Null
    }
}

/// What HAM decides for a write against what is stored.
pub open spec fn write_decision(nodes: Map<Seq<char>, NodeView>, w: WriteView, machine_state: i64) -> HamResult {
    ham_decision(
        machine_state,
        w.state,
        stored_state(nodes, w.soul, w.key),
        w.value,
        stored_value(nodes, w.soul, w.key),
    )
}

/// The stored node of a soul, or a new empty one.
pub open spec fn base_node(nodes: Map<Seq<char>, NodeView>, soul: Seq<char>) -> NodeView {
    if nodes.contains_key(soul) {
        nodes[soul]
    } else {
        NodeView::empty(soul)
    }
}

/// The nodes after storing a write.
pub open spec fn apply_write(nodes: Map<Seq<char>, NodeView>, w: WriteView) -> Map<Seq<char>, NodeView> {
    nodes.insert(w.soul, base_node(nodes, w.soul).with_prop(w.key, w.value, w.state))
}

/// The graph after a write goes through HAM: stored if accepted, queued if
/// deferred, dropped if discarded.
pub open spec fn after_write(g: GraphView, w: WriteView, machine_state: i64) -> GraphView {
    match write_decision(g.nodes, w, machine_state) {
        HamResult::Accept => GraphView {
            nodes: apply_write(g.nodes, w),
            deferred: g.deferred,
            listeners: g.listeners,
            next_listener_id: g.next_listener_id,
        },
        HamResult::Defer => GraphView {
            nodes: g.nodes,
            deferred: g.deferred.push(w),
            listeners: g.listeners,
            next_listener_id: g.next_listener_id,
        },
        _ => g,
    }
}

/// What a write leaves behind: the graph after it, or, where the backend
/// may fail and refused an accepted write, the graph unchanged.
pub open spec fn write_outcome(
    old: GraphView,
    new: GraphView,
    r: HamResult,
    w: WriteView,
    machine_state: i64,
    infallible: bool,
) -> bool {
    &&& r == write_decision(old.nodes, w, machine_state)
    &&& (new == after_write(old, w, machine_state) || (!infallible && r == HamResult::Accept && new == old))
}

/// The subscriptions that a write of `soul` decided `r` must notify: those
/// matching `soul`, oldest first, when the write is accepted; none
/// otherwise.
pub open spec fn to_notify(listeners: Seq<(u64, Seq<char>)>, soul: Seq<char>, r: HamResult) -> Seq<u64> {
    if r == HamResult::Accept {
        matching_listeners(listeners, soul)
    } else {
        Seq::empty()
    }
}

/// The value a property reads as: none for a missing node or property and
/// for a deleted (null) one.
pub open spec fn lookup(nodes: Map<Seq<char>, NodeView>, soul: Seq<char>, key: Seq<char>) -> Option<ValueView> {
    if nodes.contains_key(soul) && nodes[soul].props.contains_key(key) && !(nodes[soul].props[key] is Null) {
        Some(nodes[soul].props[key])
    } else {
        None
    }
}

/// The view of an optional value.
pub open spec fn opt_view(v: Option<Value>) -> Option<ValueView> {
    match v {
        Some(x) => Some(x@),
        None => None,
    }
}

/// The graph after a sequence of writes, in order, with the same clock.
pub open spec fn after_writes(g: GraphView, ws: Seq<WriteView>, machine_state: i64) -> GraphView
    decreases ws.len(),
{
    if ws.len() == 0 {
        g
    } else {
        after_write(after_writes(g, ws.drop_last(), machine_state), ws.last(), machine_state)
    }
}

/// A write through HAM over a backend that may refuse it: an accepted
/// write that the backend refused leaves the graph as it was.
pub open spec fn after_write_refusing(g: GraphView, w: WriteView, machine_state: i64, refused: bool) -> GraphView {
    if refused && write_decision(g.nodes, w, machine_state) == HamResult::Accept {
        g
    } else {
        after_write(g, w, machine_state)
    }
}

/// A sequence of writes, in order, each judged against its own reading of
/// the clock, over a backend that refused the accepted writes marked in
/// `refused`.
pub open spec fn after_writes_refusing(
    g: GraphView,
    ws: Seq<WriteView>,
    clocks: Seq<i64>,
    refused: Seq<bool>,
) -> GraphView
    decreases ws.len(),
{
    if ws.len() == 0 {
        g
    } else {
        after_write_refusing(
            after_writes_refusing(g, ws.drop_last(), clocks.drop_last(), refused.drop_last()),
            ws.last(),
            clocks.last(),
            refused.last(),
        )
    }
}

/// `n` readings of the clock, all `t`.
pub open spec fn same_clock(n: nat, t: i64) -> Seq<i64> {
    Seq::new(n, |_j: int| t)
}

/// No write was refused.
pub open spec fn none_refused(refused: Seq<bool>) -> bool {
    forall|i: int| 0 <= i < refused.len() ==> !refused[i]
}

/// What a sequence of writes leaves behind: the writes in order, each
/// with its own reading of the clock, with some of the accepted ones
/// refused by the backend, and none over a backend that never refuses.
pub open spec fn writes_outcome(
    old: GraphView,
    new: GraphView,
    ws: Seq<WriteView>,
    clocks: Seq<i64>,
    infallible: bool,
) -> bool {
    exists|refused: Seq<bool>| #![trigger after_writes_refusing(old, ws, clocks, refused)] {
        &&& refused.len() == ws.len()
        &&& (infallible ==> none_refused(refused))
        &&& new == after_writes_refusing(old, ws, clocks, refused)
    }
}

/// What a write left behind is the write with or without a refusal, and
/// without one over a backend that never refuses.
pub(crate) proof fn lemma_outcome_refusing(
    old: GraphView,
    new: GraphView,
    r: HamResult,
    w: WriteView,
    machine_state: i64,
    infallible: bool,
) -> (refused: bool)
    requires
        write_outcome(old, new, r, w, machine_state, infallible),
    ensures
        new == after_write_refusing(old, w, machine_state, refused),
        infallible ==> !refused,
{
    if new == after_write(old, w, machine_state) {
        false
    } else {
        true
    }
}

/// The graph after a sequence of writes, in order, each judged against its
/// own reading of the clock.
pub open spec fn after_timed_writes(g: GraphView, ws: Seq<WriteView>, clocks: Seq<i64>) -> GraphView
    decreases ws.len(),
{
    if ws.len() == 0 {
        g
    } else {
        after_write(after_timed_writes(g, ws.drop_last(), clocks.drop_last()), ws.last(), clocks.last())
    }
}

/// The writes of several properties of one node at one state.
pub open spec fn prop_writes(soul: Seq<char>, props: Seq<(Seq<char>, ValueView)>, state: i64) -> Seq<WriteView> {
    props.map_values(|p: (Seq<char>, ValueView)| WriteView { soul, key: p.0, value: p.1, state })
}

/// Processing deferred writes against the clock `machine_state`: those no
/// longer ahead of it go through HAM, in order; the others stay deferred.
pub open spec fn after_deferred(g: GraphView, ws: Seq<WriteView>, machine_state: i64) -> GraphView
    decreases ws.len(),
{
    if ws.len() == 0 {
        g
    } else {
        let prev = after_deferred(g, ws.drop_last(), machine_state);
        let w = ws.last();
        if w.state <= machine_state {
            after_write(prev, w, machine_state)
        } else {
            GraphView {
                nodes: prev.nodes,
                deferred: prev.deferred.push(w),
                listeners: prev.listeners,
                next_listener_id: prev.next_listener_id,
            }
        }
    }
}

/// Processing deferred writes as [`after_deferred`] does, over a backend
/// that refused the accepted writes marked in `refused`.
pub open spec fn after_deferred_refusing(g: GraphView, ws: Seq<WriteView>, machine_state: i64, refused: Seq<bool>) -> GraphView
    decreases ws.len(),
{
    if ws.len() == 0 {
        g
    } else {
        let prev = after_deferred_refusing(g, ws.drop_last(), machine_state, refused.drop_last());
        let w = ws.last();
        if w.state <= machine_state {
            after_write_refusing(prev, w, machine_state, refused.last())
        } else {
            GraphView {
                nodes: prev.nodes,
                deferred: prev.deferred.push(w),
                listeners: prev.listeners,
                next_listener_id: prev.next_listener_id,
            }
        }
    }
}

/// What processing deferred writes leaves behind: [`after_deferred`] with
/// some of the accepted writes refused by the backend, and none over a
/// backend that never refuses.
pub open spec fn deferred_outcome(old: GraphView, new: GraphView, ws: Seq<WriteView>, machine_state: i64, infallible: bool) -> bool {
    exists|refused: Seq<bool>| #![trigger after_deferred_refusing(old, ws, machine_state, refused)] {
        &&& refused.len() == ws.len()
        &&& (infallible ==> none_refused(refused))
        &&& new == after_deferred_refusing(old, ws, machine_state, refused)
    }
}

/// The deferred writes that are still ahead of the clock, in order.
pub open spec fn still_ahead(ws: Seq<WriteView>, machine_state: i64) -> Seq<WriteView>
    decreases ws.len(),
{
    if ws.len() == 0 {
        Seq::empty()
    } else if ws.last().state > machine_state {
        still_ahead(ws.drop_last(), machine_state).push(ws.last())
    } else {
        still_ahead(ws.drop_last(), machine_state)
    }
}

/// Whether a subscription to `pattern` concerns a change of `soul`: the
/// soul itself, or a soul below it ("pattern/...").
pub open spec fn listener_matches(pattern: Seq<char>, soul: Seq<char>) -> bool {
    soul == pattern || pattern.push('/').is_prefix_of(soul)
}

/// The ids of the subscriptions that concern `soul`, in order.
pub open spec fn matching_listeners(ls: Seq<(u64, Seq<char>)>, soul: Seq<char>) -> Seq<u64>
    decreases ls.len(),
{
    if ls.len() == 0 {
        Seq::empty()
    } else if listener_matches(ls.last().1, soul) {
        matching_listeners(ls.drop_last(), soul).push(ls.last().0)
    } else {
        matching_listeners(ls.drop_last(), soul)
    }
}

/// The subscriptions without those of id `id`.
pub open spec fn without_listener(ls: Seq<(u64, Seq<char>)>, id: u64) -> Seq<(u64, Seq<char>)>
    decreases ls.len(),
{
    if ls.len() == 0 {
        Seq::empty()
    } else if ls.last().0 == id {
        without_listener(ls.drop_last(), id)
    } else {
        without_listener(ls.drop_last(), id).push(ls.last())
    }
}

/// The graph database.
///
/// Properties are written through HAM conflict resolution and kept in a
/// pluggable storage backend. Subscriptions are kept as soul patterns;
/// [`Graph::listeners_for`] says which of them a change concerns.
pub struct Graph<S: StorageAdapter> {
    storage: S,
    deferred: Vec<DeferredUpdate>,
    listeners: Vec<(u64, String)>,
    next_listener_id: u64,
}

/// A subscription handle; [`Graph::unsubscribe`] ends it. The handle
/// holds no reference to the graph (it has no `Drop` that could reach the
/// graph and be verified), so merely dropping it leaves the subscription
/// active: pass it to `unsubscribe` instead.
#[derive(Debug)]
pub struct Subscription {
    pub id: u64,
}

/// The views of the deferred writes.
pub open spec fn deferred_view(v: Seq<DeferredUpdate>) -> Seq<WriteView> {
    v.map_values(|u: DeferredUpdate| u@)
}

/// The views of the subscriptions.
pub open spec fn listeners_view(v: Seq<(u64, String)>) -> Seq<(u64, Seq<char>)> {
    v.map_values(|l: (u64, String)| (l.0, l.1@))
}

/// Whether the write `(s1, v1)` wins over `(s2, v2)`: a greater state, or
/// the same state and a greater canonical text.
pub open spec fn beats(s1: i64, v1: ValueView, s2: i64, v2: ValueView) -> bool {
    s1 > s2 || (s1 == s2 && chars_less(lex_key(v2), lex_key(v1)))
}

proof fn lemma_beats_order(s1: i64, v1: ValueView, s2: i64, v2: ValueView, s3: i64, v3: ValueView)
    ensures
        !(beats(s1, v1, s2, v2) && beats(s2, v2, s1, v1)),
        (s1 != s2 || lex_key(v1) != lex_key(v2)) ==> (beats(s1, v1, s2, v2) || beats(s2, v2, s1, v1)),
        beats(s1, v1, s2, v2) && beats(s2, v2, s3, v3) ==> beats(s1, v1, s3, v3),
{
    lemma_chars_less_total(lex_key(v1), lex_key(v2));
    if beats(s1, v1, s2, v2) && beats(s2, v2, s3, v3) && s1 == s2 && s2 == s3 {
        lemma_chars_less_transitive(lex_key(v3), lex_key(v2), lex_key(v1));
    }
}

/// A write that HAM accepts is read back: the property then reads as the
/// written value (none for a deletion), and every other property reads as
/// before.
pub proof fn law_read_your_write(
    nodes: Map<Seq<char>, NodeView>,
    w: WriteView,
    machine_state: i64,
    soul: Seq<char>,
    key: Seq<char>,
)
    requires
        write_decision(nodes, w, machine_state) == HamResult::Accept,
    ensures
        lookup(after_write(GraphView { nodes, deferred: Seq::empty(), listeners: Seq::empty(), next_listener_id: 0 }, w, machine_state).nodes, w.soul, w.key)
            == (if w.value is Null { None } else { Some(w.value) }),
        (soul, key) != (w.soul, w.key) ==> lookup(apply_write(nodes, w), soul, key) == lookup(nodes, soul, key),
{
}

/// HAM accepts a write of a greater state than the stored one, and never
/// one from the future: whatever the clock, a write's fate depends on the
/// stored state and value alone once the clock has reached it.
pub proof fn law_decision_by_state(nodes: Map<Seq<char>, NodeView>, w: WriteView, m1: i64, m2: i64)
    requires
        w.state <= m1,
        w.state <= m2,
    ensures
        write_decision(nodes, w, m1) == write_decision(nodes, w, m2),
        write_decision(nodes, w, m1) == HamResult::Accept <==> beats(w.state, w.value, stored_state(nodes, w.soul, w.key), stored_value(nodes, w.soul, w.key)),
        write_decision(nodes, w, m1) != HamResult::Defer,
{
}

/// Applying the same write twice is the same as applying it once.
pub proof fn law_write_idempotent(g: GraphView, w: WriteView, machine_state: i64)
    requires
        w.state <= machine_state,
    ensures
        after_write(after_write(g, w, machine_state), w, machine_state) == after_write(g, w, machine_state),
{
    let g1 = after_write(g, w, machine_state);
    if write_decision(g.nodes, w, machine_state) == HamResult::Accept {
        lemma_chars_less_irreflexive(lex_key(w.value));
        assert(stored_state(g1.nodes, w.soul, w.key) == w.state);
        assert(stored_value(g1.nodes, w.soul, w.key) == w.value);
        assert(write_decision(g1.nodes, w, machine_state) == HamResult::Discard);
    }
}

/// Convergence: two writes give the same graph whichever arrives first,
/// provided both are no longer ahead of the clock, and, where they write
/// the same property with the same state, that they do not hold two
/// different values with the same canonical text (HAM keeps the first of
/// such a pair).
pub proof fn law_writes_commute(g: GraphView, w1: WriteView, w2: WriteView, machine_state: i64)
    requires
        w1.state <= machine_state,
        w2.state <= machine_state,
        (w1.soul == w2.soul && w1.key == w2.key && w1.state == w2.state && lex_key(w1.value) == lex_key(w2.value)) ==> w1.value == w2.value,
    ensures
        after_write(after_write(g, w1, machine_state), w2, machine_state)
            == after_write(after_write(g, w2, machine_state), w1, machine_state),
{
    let m = machine_state;
    let n = g.nodes;
    let a = after_write(g, w1, m);
    let b = after_write(g, w2, m);
    let ab = after_write(a, w2, m);
    let ba = after_write(b, w1, m);
    let d1 = write_decision(n, w1, m);
    let d2 = write_decision(n, w2, m);
    if w1.soul == w2.soul && w1.key == w2.key {
        let cs = stored_state(n, w1.soul, w1.key);
        let cv = stored_value(n, w1.soul, w1.key);
        lemma_beats_order(w1.state, w1.value, w2.state, w2.value, cs, cv);
        lemma_beats_order(w2.state, w2.value, w1.state, w1.value, cs, cv);
        lemma_beats_order(w1.state, w1.value, cs, cv, w2.state, w2.value);
        lemma_beats_order(w2.state, w2.value, cs, cv, w1.state, w1.value);
        if w1.state == w2.state && lex_key(w1.value) == lex_key(w2.value) {
            assert(w1 == w2);
        } else {
            if d1 == HamResult::Accept {
                assert(stored_state(a.nodes, w1.soul, w1.key) == w1.state);
                assert(stored_value(a.nodes, w1.soul, w1.key) == w1.value);
            }
            if d2 == HamResult::Accept {
                assert(stored_state(b.nodes, w1.soul, w1.key) == w2.state);
                assert(stored_value(b.nodes, w1.soul, w1.key) == w2.value);
            }
            let base = base_node(n, w1.soul);
            if d1 == HamResult::Accept && d2 == HamResult::Accept {
                if beats(w2.state, w2.value, w1.state, w1.value) {
                    assert(base_node(a.nodes, w1.soul).with_prop(w2.key, w2.value, w2.state)
                        =~= base.with_prop(w2.key, w2.value, w2.state));
                    assert(ab.nodes =~= ba.nodes);
                } else {
                    assert(base_node(b.nodes, w1.soul).with_prop(w1.key, w1.value, w1.state)
                        =~= base.with_prop(w1.key, w1.value, w1.state));
                    assert(ab.nodes =~= ba.nodes);
                }
            }
        }
    } else {
        if d1 == HamResult::Accept {
            assert(stored_state(a.nodes, w2.soul, w2.key) == stored_state(n, w2.soul, w2.key));
            assert(stored_value(a.nodes, w2.soul, w2.key) == stored_value(n, w2.soul, w2.key));
        }
        if d2 == HamResult::Accept {
            assert(stored_state(b.nodes, w1.soul, w1.key) == stored_state(n, w1.soul, w1.key));
            assert(stored_value(b.nodes, w1.soul, w1.key) == stored_value(n, w1.soul, w1.key));
        }
        if d1 == HamResult::Accept && d2 == HamResult::Accept {
            if w1.soul == w2.soul {
                assert(base_node(a.nodes, w2.soul).with_prop(w2.key, w2.value, w2.state)
                    =~= base_node(b.nodes, w1.soul).with_prop(w1.key, w1.value, w1.state)) by {
                    assert(base_node(a.nodes, w2.soul).props.insert(w2.key, w2.value)
                        =~= base_node(b.nodes, w1.soul).props.insert(w1.key, w1.value));
                    assert(base_node(a.nodes, w2.soul).states.insert(w2.key, w2.state)
                        =~= base_node(b.nodes, w1.soul).states.insert(w1.key, w1.state));
                }
            }
            assert(ab.nodes =~= ba.nodes);
        }
    }
}

impl<S: StorageAdapter> View for Graph<S> {
    type V = GraphView;

    closed spec fn view(&self) -> GraphView {
        GraphView {
            nodes: self.storage.nodes(),
            deferred: deferred_view(self.deferred@),
            listeners: listeners_view(self.listeners@),
            next_listener_id: self.next_listener_id,
        }
    }
}

impl Graph<MemoryStorage> {
    /// A graph over in-memory storage.
    pub fn in_memory() -> (r: Graph<MemoryStorage>)
        ensures
            r.wf(),
            r@.nodes == Map::<Seq<char>, NodeView>::empty(),
            r@.deferred == Seq::<WriteView>::empty(),
            r@.listeners == Seq::<(u64, Seq<char>)>::empty(),
            r@.next_listener_id == 0,
    {
        Self::new(MemoryStorage::new())
    }
}

impl<S: StorageAdapter> Graph<S> {
    /// The storage backend's invariant holds.
    pub closed spec fn wf(&self) -> bool {
        self.storage.inv()
    }

    /// A graph over the given storage backend.
    pub fn new(storage: S) -> (r: Graph<S>)
        requires
            storage.inv(),
        ensures
            r.wf(),
            r@.nodes == storage.nodes(),
            r@.deferred == Seq::<WriteView>::empty(),
            r@.listeners == Seq::<(u64, Seq<char>)>::empty(),
            r@.next_listener_id == 0,
    {
        let r = Graph { storage, deferred: Vec::new(), listeners: Vec::new(), next_listener_id: 0 };
        proof {
            assert(deferred_view(r.deferred@) =~= Seq::<WriteView>::empty());
            assert(listeners_view(r.listeners@) =~= Seq::<(u64, Seq<char>)>::empty());
        }
        r
    }

    /// A single property value of a node; none for a deleted one.
    pub fn get(&self, soul: &str, key: &str) -> (r: Option<Value>)
        requires
            self.wf(),
        ensures
            opt_view(r) == lookup(self@.nodes, soul@, key@),
    {
        match self.storage.get(soul) {
            Some(node) => match node.get(key) {
                Some(v) => {
                    if v.is_null() {
                        None
                    } else {
                        Some(v.clone())
                    }
                },
                None => None,
            },
            None => None,
        }
    }

    /// An entire node.
    pub fn get_node(&self, soul: &str) -> (r: Option<Node>)
        requires
            self.wf(),
        ensures
            match r {
                Some(n) => n.wf() && self@.nodes.contains_key(soul@) && n@ == self@.nodes[soul@],
                None => !self@.nodes.contains_key(soul@),
            },
    {
        self.storage.get(soul)
    }

    /// Write a property with an explicit state, HAM judging it against what
    /// is stored with `machine_state` as the machine's clock.
    pub fn put_with_state_at(&mut self, soul: &str, key: &str, value: Value, state: i64, machine_state: i64) -> (r: HamResult)
        requires
            old(self).wf(),
        ensures
            final(self).wf(),
            write_outcome(
                old(self)@,
                final(self)@,
                r,
                WriteView { soul: soul@, key: key@, value: value@, state },
                machine_state,
                S::infallible(),
            ),
    {
        let ghost w = WriteView { soul: soul@, key: key@, value: value@, state };
        let current = self.storage.get(soul);
        let (current_state, current_value) = match &current {
            Some(n) => {
                let s = match n.state_of(key) {
                    Some(s) => s,
                    None => 0,
                };
                let v = match n.get(key) {
                    Some(v) => v.clone(),
                    None => Value::Null,
                };
                (s, v)
            },
            None => (0, Value::Null),
        };
        let decision = Ham::resolve(machine_state, state, current_state, &value, &current_value);
        match decision {
            HamResult::Accept => {
                let mut node = match current {
                    Some(n) => n,
                    None => Node::new(soul),
                };
                node.put(key, value, state);
                let _ = self.storage.put(soul, &node);
                proof {
                    assert(self@.nodes =~= apply_write(old(self)@.nodes, w) || self@.nodes == old(self)@.nodes);
                    assert(deferred_view(self.deferred@) == deferred_view(old(self).deferred@));
                }
            },
            HamResult::Defer => {
                self.deferred.push(DeferredUpdate {
                    soul: soul.to_string(),
                    key: key.to_string(),
                    value,
                    state,
                });
                proof {
                    assert(deferred_view(self.deferred@) =~= deferred_view(old(self).deferred@).push(w));
                }
            },
            _ => {},
        }
        decision
    }

    /// Write a property at the current machine time.
    pub fn put(&mut self, soul: &str, key: &str, value: Value) -> (r: HamResult)
        requires
            old(self).wf(),
        ensures
            final(self).wf(),
            exists|t: i64|
                write_outcome(
                    old(self)@,
                    final(self)@,
                    r,
                    WriteView { soul: soul@, key: key@, value: value@, state: t },
                    t,
                    S::infallible(),
                ),
    {
        let t = now_ms();
        self.put_with_state_at(soul, key, value, t, t)
    }

    /// Write a property with an explicit state (timestamp), judged against
    /// the current machine time. Used when applying remote updates.
    pub fn put_with_state(&mut self, soul: &str, key: &str, value: Value, state: i64) -> (r: HamResult)
        requires
            old(self).wf(),
        ensures
            final(self).wf(),
            exists|m: i64|
                write_outcome(
                    old(self)@,
                    final(self)@,
                    r,
                    WriteView { soul: soul@, key: key@, value: value@, state },
                    m,
                    S::infallible(),
                ),
    {
        let m = now_ms();
        self.put_with_state_at(soul, key, value, state, m)
    }

    /// [`Graph::put`], also giving the ids of the subscriptions that the
    /// change must be reported to: those matching `soul` if the write was
    /// accepted, none otherwise.
    pub fn put_notify(&mut self, soul: &str, key: &str, value: Value) -> (r: (HamResult, Vec<u64>))
        requires
            old(self).wf(),
        ensures
            final(self).wf(),
            exists|t: i64|
                write_outcome(
                    old(self)@,
                    final(self)@,
                    r.0,
                    WriteView { soul: soul@, key: key@, value: value@, state: t },
                    t,
                    S::infallible(),
                ),
            r.1@ == to_notify(old(self)@.listeners, soul@, r.0),
    {
        let res = self.put(soul, key, value);
        let ids = self.notified(soul, res);
        (res, ids)
    }

    /// [`Graph::put_with_state`], also giving the ids of the subscriptions
    /// that the change must be reported to: those matching `soul` if the
    /// write was accepted, none otherwise.
    pub fn put_with_state_notify(&mut self, soul: &str, key: &str, value: Value, state: i64) -> (r: (HamResult, Vec<u64>))
        requires
            old(self).wf(),
        ensures
            final(self).wf(),
            exists|m: i64|
                #[trigger] write_outcome(
                    old(self)@,
                    final(self)@,
                    r.0,
                    WriteView { soul: soul@, key: key@, value: value@, state },
                    m,
                    S::infallible(),
                ),
            r.1@ == to_notify(old(self)@.listeners, soul@, r.0),
    {
        let ghost g0 = self@;
        let ghost w = WriteView { soul: soul@, key: key@, value: value@, state };
        let res = self.put_with_state(soul, key, value, state);
        let ghost m = choose|m: i64| write_outcome(g0, self@, res, w, m, S::infallible());
        let ids = self.notified(soul, res);
        assert(write_outcome(old(self)@, self@, res, WriteView { soul: soul@, key: key@, value: value@, state }, m, S::infallible()));
        let r = (res, ids);
        assert(r.0 == res);
        assert(exists|m: i64| write_outcome(old(self)@, self@, r.0, WriteView { soul: soul@, key: key@, value: value@, state }, m, S::infallible()));
        r
    }

    /// The subscriptions to notify of a write of `soul` decided `res`.
    fn notified(&self, soul: &str, res: HamResult) -> (r: Vec<u64>)
        ensures
            r@ == to_notify(self@.listeners, soul@, res),
    {
        match res {
            HamResult::Accept => self.listeners_for(soul),
            _ => Vec::new(),
        }
    }

    /// Write several properties of one node with the same state.
    pub fn put_multi_at(&mut self, soul: &str, props: Vec<(String, Value)>, state: i64)
        requires
            old(self).wf(),
        ensures
            final(self).wf(),
            S::infallible() ==> final(self)@ == after_writes(
                old(self)@,
                prop_writes(soul@, crate::node::props_seq(props@), state),
                state,
            ),
            writes_outcome(
                old(self)@,
                final(self)@,
                prop_writes(soul@, crate::node::props_seq(props@), state),
                same_clock(props@.len(), state),
                S::infallible(),
            ),
    {
        let ghost ws = prop_writes(soul@, crate::node::props_seq(props@), state);
        let ghost clocks = same_clock(props@.len(), state);
        let ghost mut refused: Seq<bool> = Seq::empty();
        let mut i: usize = 0;
        while i < props.len()
            invariant
                i <= props.len(),
                self.wf(),
                ws == prop_writes(soul@, crate::node::props_seq(props@), state),
                clocks == same_clock(props@.len(), state),
                refused.len() == i,
                S::infallible() ==> none_refused(refused),
                S::infallible() ==> self@ == after_writes(old(self)@, ws.take(i as int), state),
                self@ == after_writes_refusing(old(self)@, ws.take(i as int), clocks.take(i as int), refused),
            decreases props.len() - i,
        {
            let v = props[i].1.clone();
            let ghost before = self@;
            let r = self.put_with_state_at(soul, props[i].0.as_str(), v, state, state);
            proof {
                let rf = lemma_outcome_refusing(before, self@, r, ws[i as int], state, S::infallible());
                let prior = refused;
                refused = refused.push(rf);
                assert(refused.drop_last() =~= prior);
                assert(ws.take(i + 1).drop_last() =~= ws.take(i as int));
                assert(ws.take(i + 1).last() == ws[i as int]);
                assert(clocks.take(i + 1).drop_last() =~= clocks.take(i as int));
                assert(clocks.take(i + 1).last() == state);
            }
            i = i + 1;
        }
        proof {
            assert(ws.take(i as int) =~= ws);
            assert(clocks.take(i as int) =~= clocks);
            assert(self@ == after_writes_refusing(old(self)@, ws, clocks, refused));
        }
    }

    /// Write several properties of one node at the current machine time.
    pub fn put_multi(&mut self, soul: &str, props: Vec<(String, Value)>)
        requires
            old(self).wf(),
        ensures
            final(self).wf(),
            S::infallible() ==> exists|t: i64|
                final(self)@ == after_writes(
                    old(self)@,
                    prop_writes(soul@, crate::node::props_seq(props@), t),
                    t,
                ),
            exists|t: i64|
                writes_outcome(
                    old(self)@,
                    final(self)@,
                    prop_writes(soul@, crate::node::props_seq(props@), t),
                    same_clock(props@.len(), t),
                    S::infallible(),
                ),
    {
        let t = now_ms();
        self.put_multi_at(soul, props, t);
    }

    /// Delete a property: write null over it at the current machine time.
    pub fn delete(&mut self, soul: &str, key: &str) -> (r: HamResult)
        requires
            old(self).wf(),
        ensures
            final(self).wf(),
            exists|t: i64|
                write_outcome(
                    old(self)@,
                    final(self)@,
                    r,
                    WriteView { soul: soul@, key: key@, value: ValueView::Null, state: t },
                    t,
                    S::infallible(),
                ),
    {
        self.put(soul, key, Value::Null)
    }

    /// Delete an entire node.
    pub fn delete_node(&mut self, soul: &str)
        requires
            old(self).wf(),
        ensures
            final(self).wf(),
            final(self)@.nodes == old(self)@.nodes.remove(soul@)
                || (!S::infallible() && final(self)@.nodes == old(self)@.nodes),
            final(self)@.deferred == old(self)@.deferred,
            final(self)@.listeners == old(self)@.listeners,
            final(self)@.next_listener_id == old(self)@.next_listener_id,
    {
        let _ = self.storage.delete(soul);
    }

    /// Add an item to the set (unordered collection) held by a node: a new
    /// entry node, of fresh soul, holds the value under "value", and the
    /// node links to it under the entry's soul. Returns the entry's soul.
    pub fn set(&mut self, soul: &str, value: Value) -> (r: Soul)
        requires
            old(self).wf(),
        ensures
            final(self).wf(),
            is_uuid_v4_text(r@),
            S::infallible() ==> exists|t1: i64, t2: i64|
                final(self)@ == after_write(
                    after_write(
                        old(self)@,
                        WriteView { soul: soul@, key: r@, value: ValueView::Link(r@), state: t1 },
                        t1,
                    ),
                    WriteView { soul: r@, key: seq!['v', 'a', 'l', 'u', 'e'], value: value@, state: t2 },
                    t2,
                ),
            exists|t1: i64, t2: i64|
                writes_outcome(
                    old(self)@,
                    final(self)@,
                    seq![
                        WriteView { soul: soul@, key: r@, value: ValueView::Link(r@), state: t1 },
                        WriteView { soul: r@, key: seq!['v', 'a', 'l', 'u', 'e'], value: value@, state: t2 },
                    ],
                    seq![t1, t2],
                    S::infallible(),
                ),
    {
        let entry_soul = fresh_uuid();
        let link = Value::link(entry_soul.as_str());
        let ghost g0 = self@;
        let ghost v = value@;
        let r1 = self.put(soul, entry_soul.as_str(), link);
        let ghost g1 = self@;
        let key = vec!['v', 'a', 'l', 'u', 'e'];
        let key_text = crate::text::string_of_chars(&key);
        proof {
            assert(key@ =~= seq!['v', 'a', 'l', 'u', 'e']);
        }
        let r2 = self.put(entry_soul.as_str(), key_text.as_str(), value);
        proof {
            let e = entry_soul@;
            let t1 = choose|t: i64|
                write_outcome(g0, g1, r1, WriteView { soul: soul@, key: e, value: ValueView::Link(e), state: t }, t, S::infallible());
            let t2 = choose|t: i64|
                write_outcome(g1, self@, r2, WriteView { soul: e, key: seq!['v', 'a', 'l', 'u', 'e'], value: v, state: t }, t, S::infallible());
            let w1 = WriteView { soul: soul@, key: e, value: ValueView::Link(e), state: t1 };
            let w2 = WriteView { soul: e, key: seq!['v', 'a', 'l', 'u', 'e'], value: v, state: t2 };
            let rf1 = lemma_outcome_refusing(g0, g1, r1, w1, t1, S::infallible());
            let rf2 = lemma_outcome_refusing(g1, self@, r2, w2, t2, S::infallible());
            let ws = seq![w1, w2];
            let clocks = seq![t1, t2];
            let refused = seq![rf1, rf2];
            assert(ws.drop_last() =~= seq![w1]);
            assert(clocks.drop_last() =~= seq![t1]);
            assert(refused.drop_last() =~= seq![rf1]);
            assert(seq![w1].drop_last() =~= Seq::<WriteView>::empty());
            assert(seq![t1].drop_last() =~= Seq::<i64>::empty());
            assert(seq![rf1].drop_last() =~= Seq::<bool>::empty());
            assert(after_writes_refusing(g0, Seq::<WriteView>::empty(), Seq::<i64>::empty(), Seq::<bool>::empty()) == g0);
            assert(seq![w1].last() == w1);
            assert(seq![t1].last() == t1);
            assert(seq![rf1].last() == rf1);
            assert(after_writes_refusing(g0, seq![w1], seq![t1], seq![rf1]) == g1);
            assert(after_writes_refusing(g0, ws, clocks, refused) == self@);
            assert(refused.len() == ws.len());
            assert(writes_outcome(g0, self@, ws, clocks, S::infallible()));
        }
        entry_soul
    }

    /// The souls of the nodes whose soul begins with `prefix`.
    pub fn list(&self, prefix: &str) -> (r: Vec<Soul>)
        requires
            self.wf(),
        ensures
            lists_prefix(souls_view(r@), self@.nodes, prefix@),
    {
        self.storage.list(prefix)
    }

    /// The id the next subscription gets.
    pub fn next_listener_id(&self) -> (r: u64)
        ensures
            r == self@.next_listener_id,
    {
        self.next_listener_id
    }

    /// Subscribe to changes of a node (and of the nodes below it).
    pub fn on(&mut self, soul: &str) -> (r: Subscription)
        requires
            old(self).wf(),
            old(self)@.next_listener_id < u64::MAX,
        ensures
            final(self).wf(),
            r.id == old(self)@.next_listener_id,
            final(self)@.next_listener_id == old(self)@.next_listener_id + 1,
            final(self)@.listeners == old(self)@.listeners.push((r.id, soul@)),
            final(self)@.nodes == old(self)@.nodes,
            final(self)@.deferred == old(self)@.deferred,
    {
        let id = self.next_listener_id;
        self.next_listener_id = id + 1;
        self.listeners.push((id, soul.to_string()));
        proof {
            assert(listeners_view(self.listeners@) =~= listeners_view(old(self).listeners@).push((id, soul@)));
        }
        Subscription { id }
    }

    /// End a subscription.
    pub fn unsubscribe(&mut self, sub: Subscription)
        requires
            old(self).wf(),
        ensures
            final(self).wf(),
            final(self)@.listeners == without_listener(old(self)@.listeners, sub.id),
            final(self)@.next_listener_id == old(self)@.next_listener_id,
            final(self)@.nodes == old(self)@.nodes,
            final(self)@.deferred == old(self)@.deferred,
    {
        let ghost ls = listeners_view(self.listeners@);
        let mut kept: Vec<(u64, String)> = Vec::new();
        let mut i: usize = 0;
        while i < self.listeners.len()
            invariant
                i <= self.listeners.len(),
                ls == listeners_view(self.listeners@),
                listeners_view(kept@) == without_listener(ls.take(i as int), sub.id),
            decreases self.listeners.len() - i,
        {
            proof {
                assert(ls.take(i + 1).drop_last() =~= ls.take(i as int));
            }
            if self.listeners[i].0 != sub.id {
                let pattern = self.listeners[i].1.clone();
                kept.push((self.listeners[i].0, pattern));
                proof {
                    assert(listeners_view(kept@) =~= without_listener(ls.take(i as int), sub.id).push(ls[i as int]));
                }
            }
            i = i + 1;
        }
        proof {
            assert(ls.take(i as int) =~= ls);
        }
        self.listeners = kept;
    }

    /// The ids of the subscriptions that a change of `soul` concerns, in
    /// the order they were made.
    pub fn listeners_for(&self, soul: &str) -> (r: Vec<u64>)
        ensures
            r@ == matching_listeners(self@.listeners, soul@),
    {
        let ghost ls = listeners_view(self.listeners@);
        let soul_chars = chars_of(soul);
        let mut out: Vec<u64> = Vec::new();
        let mut i: usize = 0;
        while i < self.listeners.len()
            invariant
                i <= self.listeners.len(),
                ls == listeners_view(self.listeners@),
                soul_chars@ == soul@,
                out@ == matching_listeners(ls.take(i as int), soul@),
            decreases self.listeners.len() - i,
        {
            proof {
                assert(ls.take(i + 1).drop_last() =~= ls.take(i as int));
            }
            let mut pattern = chars_of(self.listeners[i].1.as_str());
            let exact = crate::text::chars_eq(&pattern, &soul_chars);
            pattern.push('/');
            let below = chars_start_with(&soul_chars, &pattern);
            if exact || below {
                out.push(self.listeners[i].0);
            }
            i = i + 1;
        }
        proof {
            assert(ls.take(i as int) =~= ls);
        }
        out
    }

    /// A property's current value (Gun's `once`).
    pub fn once(&self, soul: &str, key: &str) -> (r: Option<Value>)
        requires
            self.wf(),
        ensures
            opt_view(r) == lookup(self@.nodes, soul@, key@),
    {
        self.get(soul, key)
    }

    /// Process the deferred writes against the clock `machine_state`: those
    /// whose state is no longer ahead of it are applied, in order, and the
    /// others stay deferred.
    pub fn process_deferred_at(&mut self, machine_state: i64)
        requires
            old(self).wf(),
        ensures
            final(self).wf(),
            final(self)@.deferred == still_ahead(old(self)@.deferred, machine_state),
            final(self)@.listeners == old(self)@.listeners,
            final(self)@.next_listener_id == old(self)@.next_listener_id,
            S::infallible() ==> final(self)@ == after_deferred(
                GraphView {
                    nodes: old(self)@.nodes,
                    deferred: Seq::empty(),
                    listeners: old(self)@.listeners,
                    next_listener_id: old(self)@.next_listener_id,
                },
                old(self)@.deferred,
                machine_state,
            ),
            deferred_outcome(
                GraphView {
                    nodes: old(self)@.nodes,
                    deferred: Seq::empty(),
                    listeners: old(self)@.listeners,
                    next_listener_id: old(self)@.next_listener_id,
                },
                final(self)@,
                old(self)@.deferred,
                machine_state,
                S::infallible(),
            ),
    {
        let mut pending: Vec<DeferredUpdate> = Vec::new();
        std::mem::swap(&mut pending, &mut self.deferred);
        let ghost ws = deferred_view(pending@);
        let ghost mut refused: Seq<bool> = Seq::empty();
        let ghost g0 = GraphView {
            nodes: old(self)@.nodes,
            deferred: Seq::empty(),
            listeners: old(self)@.listeners,
            next_listener_id: old(self)@.next_listener_id,
        };
        proof {
            assert(ws == old(self)@.deferred);
            assert(deferred_view(self.deferred@) =~= Seq::<WriteView>::empty());
            assert(self@ == g0);
        }
        let mut i: usize = 0;
        while i < pending.len()
            invariant
                i <= pending.len(),
                self.wf(),
                ws == deferred_view(pending@),
                self@.deferred == still_ahead(ws.take(i as int), machine_state),
                self@.listeners == g0.listeners,
                self@.next_listener_id == g0.next_listener_id,
                S::infallible() ==> self@ == after_deferred(g0, ws.take(i as int), machine_state),
                refused.len() == i,
                S::infallible() ==> none_refused(refused),
                self@ == after_deferred_refusing(g0, ws.take(i as int), machine_state, refused),
            decreases pending.len() - i,
        {
            proof {
                assert(ws.take(i + 1).drop_last() =~= ws.take(i as int));
                assert(ws.take(i + 1).last() == ws[i as int]);
            }
            let ghost prior = refused;
            if pending[i].state <= machine_state {
                let v = pending[i].value.clone();
                let ghost before = self@;
                let r = self.put_with_state_at(pending[i].soul.as_str(), pending[i].key.as_str(), v, pending[i].state, machine_state);
                proof {
                    assert(self@.deferred == before.deferred);
                    let rf = lemma_outcome_refusing(before, self@, r, ws[i as int], machine_state, S::infallible());
                    refused = refused.push(rf);
                }
            } else {
                let u = pending[i].clone();
                let ghost before = self@;
                self.deferred.push(u);
                proof {
                    assert(deferred_view(self.deferred@) =~= before.deferred.push(ws[i as int]));
                    refused = refused.push(false);
                }
            }
            proof {
                assert(refused.drop_last() =~= prior);
            }
            i = i + 1;
        }
        proof {
            assert(ws.take(i as int) =~= ws);
            assert(self@ == after_deferred_refusing(g0, ws, machine_state, refused));
        }
    }

    /// Process the deferred writes against the current machine time.
    pub fn process_deferred(&mut self)
        requires
            old(self).wf(),
        ensures
            final(self).wf(),
            exists|m: i64| {
                &&& final(self)@.deferred == still_ahead(old(self)@.deferred, m)
                &&& S::infallible() ==> final(self)@ == after_deferred(
                    GraphView {
                        nodes: old(self)@.nodes,
                        deferred: Seq::empty(),
                        listeners: old(self)@.listeners,
                        next_listener_id: old(self)@.next_listener_id,
                    },
                    old(self)@.deferred,
                    m,
                )
                &&& deferred_outcome(
                    GraphView {
                        nodes: old(self)@.nodes,
                        deferred: Seq::empty(),
                        listeners: old(self)@.listeners,
                        next_listener_id: old(self)@.next_listener_id,
                    },
                    final(self)@,
                    old(self)@.deferred,
                    m,
                    S::infallible(),
                )
            },
            final(self)@.listeners == old(self)@.listeners,
            final(self)@.next_listener_id == old(self)@.next_listener_id,
    {
        let m = now_ms();
        self.process_deferred_at(m);
    }
}

} // verus!
