//! Peer management: applying incoming messages to the local graph and
//! queueing messages for connected peers.

use vstd::prelude::*;
use crate::assoc::{assoc_map, find_key, has_key, keys_unique, lemma_assoc_dom, lemma_assoc_index, lemma_assoc_push, lemma_assoc_remove, lemma_assoc_update};
use crate::graph::{after_timed_writes, after_writes_refusing, lemma_outcome_refusing, none_refused, writes_outcome, Graph, GraphView, WriteView};
use crate::ham::now_ms;
use crate::ids::is_uuid_v4_text;
use crate::message::{updates_view, KindView, Message, MessageKind, MessageView, UpdateEntry, UpdateView};
use crate::node::{map_get, props_seq, NodeView};
use crate::storage::StorageAdapter;

verus! {

/// How many message ids are remembered before the memory is cleared.
pub const SEEN_LIMIT: usize = 100_000;

/// The views of a queue of messages.
pub open spec fn queue_view(q: Seq<Message>) -> Seq<MessageView> {
    q.map_values(|m: Message| m@)
}

/// The outbox pairs, by the views of their peer ids and queues.
pub open spec fn outbox_seq(v: Seq<(String, Vec<Message>)>) -> Seq<(Seq<char>, Seq<MessageView>)> {
    v.map_values(|p: (String, Vec<Message>)| (p.0@, queue_view(p.1@)))
}

/// The views of a list of ids.
pub open spec fn ids_view(v: Seq<String>) -> Seq<Seq<char>> {
    v.map_values(|s: String| s@)
}

/// The mathematical model of a [`PeerManager`].
#[verifier::ext_equal]
pub struct PeerView {
    pub graph: GraphView,
    /// Ids of the messages already processed.
    pub seen: Seq<Seq<char>>,
    /// Connected peers, in the order they were added (a peer added twice
    /// occurs twice).
    pub peers: Seq<Seq<char>>,
    /// Outbound message queue of each peer.
    pub outbox: Map<Seq<char>, Seq<MessageView>>,
}

/// The remembered ids after processing the message `id`: it is added, and
/// the memory is cleared once it holds more than [`SEEN_LIMIT`] ids.
pub open spec fn seen_after(seen: Seq<Seq<char>>, id: Seq<char>) -> Seq<Seq<char>> {
    if seen.len() + 1 > SEEN_LIMIT {
        Seq::empty()
    } else {
        seen.push(id)
    }
}

/// A message handled once is recognised when it comes again, so that it
/// is ignored: its id is remembered, unless remembering it made the memory
/// outgrow [`SEEN_LIMIT`] and it was cleared.
pub proof fn law_seen_remembered(seen: Seq<Seq<char>>, id: Seq<char>)
    requires
        seen.len() + 1 <= SEEN_LIMIT,
    ensures
        seen_after(seen, id).contains(id),
{
    assert(seen_after(seen, id)[seen.len() as int] == id);
}

/// The peers without `id`.
pub open spec fn without_peer(peers: Seq<Seq<char>>, id: Seq<char>) -> Seq<Seq<char>>
    decreases peers.len(),
{
    if peers.len() == 0 {
        Seq::empty()
    } else if peers.last() == id {
        without_peer(peers.drop_last(), id)
    } else {
        without_peer(peers.drop_last(), id).push(peers.last())
    }
}

/// The outbox after queueing `m` once for each occurrence in `peers` of a
/// peer that has a queue, except the peer `sender` that `m` came from:
/// nothing is queued for it, so a message is never sent back to its sender.
pub open spec fn queued_for_all(
    outbox: Map<Seq<char>, Seq<MessageView>>,
    peers: Seq<Seq<char>>,
    m: MessageView,
    sender: Option<Seq<char>>,
) -> Map<Seq<char>, Seq<MessageView>>
    decreases peers.len(),
{
    if peers.len() == 0 {
        outbox
    } else {
        let o = queued_for_all(outbox, peers.drop_last(), m, sender);
        let p = peers.last();
        if o.contains_key(p) && sender != Some(p) {
            o.insert(p, o[p].push(m))
        } else {
            o
        }
    }
}

/// How many times `p` occurs in `peers`.
pub open spec fn occurrences(peers: Seq<Seq<char>>, p: Seq<char>) -> nat
    decreases peers.len(),
{
    if peers.len() == 0 {
        0
    } else {
        occurrences(peers.drop_last(), p) + if peers.last() == p { 1nat } else { 0nat }
    }
}

/// Forwarding `m` from the peer `s` creates no queue and leaves the
/// sender's queue as it was, while every other peer with a queue gets `m`
/// appended once for each time it is registered.
pub proof fn law_forward_skips_sender(
    outbox: Map<Seq<char>, Seq<MessageView>>,
    peers: Seq<Seq<char>>,
    m: MessageView,
    s: Seq<char>,
    p: Seq<char>,
)
    ensures
        queued_for_all(outbox, peers, m, Some(s)).dom() == outbox.dom(),
        outbox.contains_key(s) ==> queued_for_all(outbox, peers, m, Some(s))[s] == outbox[s],
        outbox.contains_key(p) && p != s ==> queued_for_all(outbox, peers, m, Some(s))[p]
            == outbox[p] + Seq::new(occurrences(peers, p), |_i: int| m),
    decreases peers.len(),
{
    if peers.len() > 0 {
        law_forward_skips_sender(outbox, peers.drop_last(), m, s, p);
        let o = queued_for_all(outbox, peers.drop_last(), m, Some(s));
        let q = peers.last();
        if o.contains_key(q) && Some(s) != Some(q) {
            assert(o.insert(q, o[q].push(m)).dom() =~= o.dom());
            if outbox.contains_key(p) && p != s && q == p {
                let n = occurrences(peers.drop_last(), p);
                assert(outbox[p] + Seq::new(n + 1, |_i: int| m) =~= (outbox[p] + Seq::new(n, |_i: int| m)).push(m));
            }
        }
    }
}

/// The sender of a message by its view: none where the message did not
/// come from a peer.
pub open spec fn sender_view(sender: Option<&str>) -> Option<Seq<char>> {
    match sender {
        Some(s) => Some(s@),
        None => None,
    }
}

/// The reply to a message, by its view.
pub open spec fn reply_view(r: Option<Message>) -> Option<MessageView> {
    match r {
        Some(m) => Some(m@),
        None => None,
    }
}

/// What handling `msg`, which came from `sender` (none where it did not
/// come from a peer), does to a peer manager `p0`, leaving `p1` and
/// replying `r`. A message whose id was seen already is ignored. Otherwise
/// its id is remembered; a PUT is applied to the graph through HAM (each
/// write with its own clock reading), queued for every peer but its
/// sender, and acknowledged; a GET is answered with the data asked for, if
/// there is any; other messages get no reply and change nothing else.
pub open spec fn handled(
    p0: PeerView,
    p1: PeerView,
    msg: MessageView,
    r: Option<MessageView>,
    sender: Option<Seq<char>>,
    infallible: bool,
) -> bool {
    &&& p0.seen.contains(msg.id) ==> r is None && p1 == p0
    &&& !p0.seen.contains(msg.id) ==> p1.seen == seen_after(p0.seen, msg.id)
    &&& !p0.seen.contains(msg.id) ==> p1.peers == p0.peers
    &&& !p0.seen.contains(msg.id) && msg.kind is Put ==> {
        &&& r is Some
        &&& r->0.kind == (KindView::Ack { message_id: msg.id })
        &&& is_uuid_v4_text(r->0.id)
        &&& p1.outbox == queued_for_all(p0.outbox, p0.peers, msg, sender)
    }
    &&& !p0.seen.contains(msg.id) && msg.kind is Put && infallible ==> exists|clocks: Seq<i64>|
        clocks.len() == msg.kind->Put_updates.len() && p1.graph == after_timed_writes(
            p0.graph,
            update_writes(msg.kind->Put_soul, msg.kind->Put_updates),
            clocks,
        )
    &&& !p0.seen.contains(msg.id) && msg.kind is Put ==> exists|clocks: Seq<i64>|
        clocks.len() == msg.kind->Put_updates.len() && writes_outcome(
            p0.graph,
            p1.graph,
            update_writes(msg.kind->Put_soul, msg.kind->Put_updates),
            clocks,
            infallible,
        )
    &&& !p0.seen.contains(msg.id) && msg.kind is Get ==> {
        &&& p1.graph == p0.graph
        &&& p1.outbox == p0.outbox
        &&& (r is None <==> (forall|k: Seq<char>|
            !get_reply(p0.graph.nodes, msg.kind->Get_soul, msg.kind->Get_key).contains_key(k)))
    }
    &&& !p0.seen.contains(msg.id) && msg.kind is Get && r is Some ==> match r->0.kind {
        KindView::Put { soul: s, updates: u, signature, signer } => {
            &&& s == msg.kind->Get_soul
            &&& signature is None
            &&& signer is None
            &&& keys_unique(u)
            &&& assoc_map(u) == get_reply(p0.graph.nodes, msg.kind->Get_soul, msg.kind->Get_key)
        },
        _ => false,
    }
    &&& !p0.seen.contains(msg.id) && !(msg.kind is Put) && !(msg.kind is Get) ==> {
        &&& r is None
        &&& p1.graph == p0.graph
        &&& p1.outbox == p0.outbox
    }
}

/// The writes that a PUT of `updates` to `soul` makes.
pub open spec fn update_writes(soul: Seq<char>, updates: Seq<(Seq<char>, UpdateView)>) -> Seq<WriteView> {
    updates.map_values(|u: (Seq<char>, UpdateView)| WriteView { soul, key: u.0, value: u.1.value, state: u.1.state })
}

/// The state recorded for a property of a node, zero where there is none.
pub open spec fn state_or_zero(n: NodeView, key: Seq<char>) -> i64 {
    if n.states.contains_key(key) {
        n.states[key]
    } else {
        0
    }
}

/// What a GET of `soul` (and of `key`, if given) is answered with: each
/// property asked for, tombstones included, with its value and state.
pub open spec fn get_reply(
    nodes: Map<Seq<char>, NodeView>,
    soul: Seq<char>,
    key: Option<Seq<char>>,
) -> Map<Seq<char>, UpdateView> {
    if !nodes.contains_key(soul) {
        Map::empty()
    } else {
        let n = nodes[soul];
        Map::new(
            |k: Seq<char>| n.props.contains_key(k) && (key is None || key == Some(k)),
            |k: Seq<char>| UpdateView { value: n.props[k], state: state_or_zero(n, k) },
        )
    }
}

/// Manages peer connections and syncs graph updates across the network:
/// incoming PUTs go through HAM into the local graph and are forwarded to
/// the connected peers; message ids already seen are ignored, which stops
/// echo loops.
pub struct PeerManager<S: StorageAdapter> {
    graph: Graph<S>,
    seen: Vec<String>,
    peers: Vec<String>,
    outbox: Vec<(String, Vec<Message>)>,
}

impl<S: StorageAdapter> View for PeerManager<S> {
    type V = PeerView;

    closed spec fn view(&self) -> PeerView {
        PeerView {
            graph: self.graph@,
            seen: ids_view(self.seen@),
            peers: ids_view(self.peers@),
            outbox: assoc_map(outbox_seq(self.outbox@)),
        }
    }
}

impl<S: StorageAdapter> PeerManager<S> {
    /// The graph's invariant holds and each peer has one queue.
    pub closed spec fn wf(&self) -> bool {
        &&& self.graph.wf()
        &&& keys_unique(outbox_seq(self.outbox@))
    }

    pub fn new(graph: Graph<S>) -> (r: PeerManager<S>)
        requires
            graph.wf(),
        ensures
            r.wf(),
            r@.graph == graph@,
            r@.seen == Seq::<Seq<char>>::empty(),
            r@.peers == Seq::<Seq<char>>::empty(),
            r@.outbox == Map::<Seq<char>, Seq<MessageView>>::empty(),
    {
        let r = PeerManager { graph, seen: Vec::new(), peers: Vec::new(), outbox: Vec::new() };
        proof {
            assert(ids_view(r.seen@) =~= Seq::<Seq<char>>::empty());
            assert(ids_view(r.peers@) =~= Seq::<Seq<char>>::empty());
            assert(outbox_seq(r.outbox@) =~= Seq::<(Seq<char>, Seq<MessageView>)>::empty());
        }
        r
    }

    /// Register a peer connection, with an empty queue.
    pub fn add_peer(&mut self, peer_id: &str)
        requires
            old(self).wf(),
        ensures
            final(self).wf(),
            final(self)@.peers == old(self)@.peers.push(peer_id@),
            final(self)@.outbox == old(self)@.outbox.insert(peer_id@, Seq::empty()),
            final(self)@.graph == old(self)@.graph,
            final(self)@.seen == old(self)@.seen,
    {
        self.peers.push(peer_id.to_string());
        proof {
            assert(ids_view(self.peers@) =~= ids_view(old(self).peers@).push(peer_id@));
        }
        let ghost s = outbox_seq(self.outbox@);
        let empty: Vec<Message> = Vec::new();
        proof {
            assert(queue_view(empty@) =~= Seq::<MessageView>::empty());
        }
        match find_key(&self.outbox, peer_id) {
            Some(i) => {
                let k = self.outbox[i].0.clone();
                self.outbox.set(i, (k, empty));
                proof {
                    lemma_assoc_update(s, i as int, Seq::<MessageView>::empty());
                    assert(outbox_seq(self.outbox@) =~= s.update(i as int, (s[i as int].0, Seq::<MessageView>::empty())));
                }
            },
            None => {
                self.outbox.push((peer_id.to_string(), empty));
                proof {
                    assert(!has_key(s, peer_id@)) by {
                        if has_key(s, peer_id@) {
                            let j = choose|j: int| 0 <= j < s.len() && s[j].0 == peer_id@;
                            assert(old(self).outbox@[j].0@ == peer_id@);
                        }
                    }
                    lemma_assoc_push(s, peer_id@, Seq::<MessageView>::empty());
                    assert(outbox_seq(self.outbox@) =~= s.push((peer_id@, Seq::<MessageView>::empty())));
                }
            },
        }
    }

    /// Remove a disconnected peer and its queue.
    pub fn remove_peer(&mut self, peer_id: &str)
        requires
            old(self).wf(),
        ensures
            final(self).wf(),
            final(self)@.peers == without_peer(old(self)@.peers, peer_id@),
            final(self)@.outbox == old(self)@.outbox.remove(peer_id@),
            final(self)@.graph == old(self)@.graph,
            final(self)@.seen == old(self)@.seen,
    {
        let ghost ps = ids_view(self.peers@);
        let id = peer_id.to_string();
        let mut kept: Vec<String> = Vec::new();
        let mut i: usize = 0;
        while i < self.peers.len()
            invariant
                i <= self.peers.len(),
                ps == ids_view(self.peers@),
                id@ == peer_id@,
                ids_view(kept@) == without_peer(ps.take(i as int), peer_id@),
            decreases self.peers.len() - i,
        {
            proof {
                assert(ps.take(i + 1).drop_last() =~= ps.take(i as int));
            }
            if self.peers[i] != id {
                let p = self.peers[i].clone();
                kept.push(p);
                proof {
                    assert(ids_view(kept@) =~= without_peer(ps.take(i as int), peer_id@).push(ps[i as int]));
                }
            }
            i = i + 1;
        }
        proof {
            assert(ps.take(i as int) =~= ps);
        }
        self.peers = kept;
        let ghost s = outbox_seq(self.outbox@);
        proof {
            lemma_assoc_dom(s);
        }
        match find_key(&self.outbox, peer_id) {
            Some(i) => {
                let _q = self.outbox.remove(i);
                proof {
                    lemma_assoc_remove(s, i as int);
                    assert(outbox_seq(self.outbox@) =~= s.remove(i as int));
                }
            },
            None => {
                proof {
                    if has_key(s, peer_id@) {
                        let j = choose|j: int| 0 <= j < s.len() && s[j].0 == peer_id@;
                        assert(self.outbox@[j].0@ == peer_id@);
                    }
                    assert(assoc_map(s).remove(peer_id@) =~= assoc_map(s));
                }
            },
        }
    }

    /// Queue a message for every connected peer except its sender.
    fn broadcast(&mut self, msg: &Message, sender: Option<&str>)
        requires
            old(self).wf(),
        ensures
            final(self).wf(),
            final(self)@.outbox == queued_for_all(old(self)@.outbox, old(self)@.peers, msg@, sender_view(sender)),
            final(self)@.peers == old(self)@.peers,
            final(self)@.graph == old(self)@.graph,
            final(self)@.seen == old(self)@.seen,
    {
        let ghost ps = ids_view(self.peers@);
        let ghost o0 = assoc_map(outbox_seq(self.outbox@));
        let skip: Option<String> = match sender {
            Some(s) => Some(s.to_string()),
            None => None,
        };
        let ghost sv = sender_view(sender);
        let mut i: usize = 0;
        while i < self.peers.len()
            invariant
                i <= self.peers.len(),
                ps == ids_view(self.peers@),
                crate::message::opt_text(skip) == sv,
                keys_unique(outbox_seq(self.outbox@)),
                assoc_map(outbox_seq(self.outbox@)) == queued_for_all(o0, ps.take(i as int), msg@, sv),
                self.graph == old(self).graph,
                self.seen == old(self).seen,
                self.peers == old(self).peers,
            decreases self.peers.len() - i,
        {
            proof {
                assert(ps.take(i + 1).drop_last() =~= ps.take(i as int));
            }
            let ghost s = outbox_seq(self.outbox@);
            proof {
                lemma_assoc_dom(s);
            }
            let from_sender = match &skip {
                Some(id) => self.peers[i] == *id,
                None => false,
            };
            if from_sender {
                proof {
                    assert(sv == Some(ps[i as int]));
                }
            } else {
            match find_key(&self.outbox, self.peers[i].as_str()) {
                Some(j) => {
                    let m = msg.clone();
                    let ghost q = s[j as int].1;
                    let ghost old_out = self.outbox@;
                    let ghost mv = m;
                    self.outbox[j].1.push(m);
                    proof {
                        assert(self.outbox@[j as int].1@ == old_out[j as int].1@.push(mv));
                        assert(queue_view(self.outbox@[j as int].1@) =~= queue_view(old_out[j as int].1@).push(msg@));
                        assert(self.outbox@[j as int].0 == old_out[j as int].0);
                        lemma_assoc_index(s, j as int);
                        lemma_assoc_update(s, j as int, q.push(msg@));
                        assert(outbox_seq(self.outbox@) =~= s.update(j as int, (s[j as int].0, q.push(msg@))));
                    }
                },
                None => {
                    proof {
                        if has_key(s, ps[i as int]) {
                            let k = choose|k: int| 0 <= k < s.len() && s[k].0 == ps[i as int];
                            assert(self.outbox@[k].0@ == ps[i as int]);
                        }
                    }
                },
            }
            }
            i = i + 1;
        }
        proof {
            assert(ps.take(i as int) =~= ps);
        }
    }

    /// Whether the message `id` was already processed.
    fn has_seen(&self, id: &String) -> (r: bool)
        ensures
            r == self@.seen.contains(id@),
    {
        let mut i: usize = 0;
        while i < self.seen.len()
            invariant
                i <= self.seen.len(),
                forall|j: int| 0 <= j < i ==> self.seen@[j]@ != id@,
            decreases self.seen.len() - i,
        {
            if self.seen[i] == *id {
                proof {
                    assert(ids_view(self.seen@)[i as int] == id@);
                }
                return true;
            }
            i = i + 1;
        }
        proof {
            if ids_view(self.seen@).contains(id@) {
                let j = choose|j: int| 0 <= j < ids_view(self.seen@).len() && ids_view(self.seen@)[j] == id@;
                assert(self.seen@[j]@ == id@);
            }
        }
        false
    }

    /// Apply the updates of a PUT to the graph, each through HAM with its
    /// own reading of the clock.
    fn apply_updates(&mut self, soul: &String, updates: &Vec<(String, UpdateEntry)>)
        requires
            old(self).wf(),
        ensures
            final(self).wf(),
            final(self)@.seen == old(self)@.seen,
            final(self)@.peers == old(self)@.peers,
            final(self)@.outbox == old(self)@.outbox,
            S::infallible() ==> exists|clocks: Seq<i64>|
                clocks.len() == updates@.len() && final(self)@.graph == after_timed_writes(
                    old(self)@.graph,
                    update_writes(soul@, updates_view(updates@)),
                    clocks,
                ),
            exists|clocks: Seq<i64>|
                clocks.len() == updates@.len() && writes_outcome(
                    old(self)@.graph,
                    final(self)@.graph,
                    update_writes(soul@, updates_view(updates@)),
                    clocks,
                    S::infallible(),
                ),
    {
        let ghost ws = update_writes(soul@, updates_view(updates@));
        let ghost mut clocks: Seq<i64> = Seq::empty();
        let ghost mut refused: Seq<bool> = Seq::empty();
        let mut i: usize = 0;
        while i < updates.len()
            invariant
                i <= updates.len(),
                self.wf(),
                ws == update_writes(soul@, updates_view(updates@)),
                clocks.len() == i,
                self.seen == old(self).seen,
                self.peers == old(self).peers,
                self.outbox == old(self).outbox,
                S::infallible() ==> self@.graph == after_timed_writes(old(self)@.graph, ws.take(i as int), clocks),
                refused.len() == i,
                S::infallible() ==> none_refused(refused),
                self@.graph == after_writes_refusing(old(self)@.graph, ws.take(i as int), clocks, refused),
            decreases updates.len() - i,
        {
            let v = updates[i].1.value.clone();
            let ghost before = self@.graph;
            let ghost w = WriteView { soul: soul@, key: updates[i as int].0@, value: v@, state: updates[i as int].1.state };
            let m = now_ms();
            let r = self.graph.put_with_state_at(soul.as_str(), updates[i].0.as_str(), v, updates[i].1.state, m);
            proof {
                let old_clocks = clocks;
                clocks = clocks.push(m);
                assert(clocks.drop_last() =~= old_clocks);
                assert(ws[i as int] == w);
                assert(ws.take(i + 1).drop_last() =~= ws.take(i as int));
                assert(ws.take(i + 1).last() == w);
                let rf = lemma_outcome_refusing(before, self@.graph, r, w, m, S::infallible());
                let prior = refused;
                refused = refused.push(rf);
                assert(refused.drop_last() =~= prior);
            }
            i = i + 1;
        }
        proof {
            assert(ws.take(i as int) =~= ws);
            assert(self@.graph == after_writes_refusing(old(self)@.graph, ws, clocks, refused));
            assert(writes_outcome(old(self)@.graph, self@.graph, ws, clocks, S::infallible()));
        }
    }

    /// The answer to a GET: the asked-for properties of the node, with
    /// their states, as a PUT; none where there is nothing to send.
    fn answer_get(&self, soul: &String, key: &Option<String>) -> (r: Option<Message>)
        requires
            self.wf(),
        ensures
            r is None <==> (forall|k: Seq<char>| !get_reply(self@.graph.nodes, soul@, crate::message::opt_text(*key)).contains_key(k)),
            match r {
                Some(m) => match m@.kind {
                    KindView::Put { soul: s, updates: u, signature, signer } => {
                        &&& s == soul@
                        &&& signature is None
                        &&& signer is None
                        &&& keys_unique(u)
                        &&& assoc_map(u) == get_reply(self@.graph.nodes, soul@, crate::message::opt_text(*key))
                    },
                    _ => false,
                },
                None => true,
            },
    {
        let ghost reply = get_reply(self@.graph.nodes, soul@, crate::message::opt_text(*key));
        match self.graph.get_node(soul.as_str()) {
            Some(node) => {
                let ghost nv = node@;
                let ghost s = props_seq(node.props@);
                proof {
                    lemma_assoc_dom(s);
                }
                let mut updates: Vec<(String, UpdateEntry)> = Vec::new();
                match key {
                    Some(k) => {
                        match node.get(k.as_str()) {
                            Some(val) => {
                                let st = match node.state_of(k.as_str()) {
                                    Some(t) => t,
                                    None => 0,
                                };
                                updates.push((k.clone(), UpdateEntry { value: val.clone(), state: st }));
                                proof {
                                    let u = updates_view(updates@);
                                    let e = UpdateView { value: nv.props[k@], state: state_or_zero(nv, k@) };
                                    assert(u =~= seq![(k@, e)]);
                                    assert(u.drop_last() =~= Seq::<(Seq<char>, UpdateView)>::empty());
                                    assert(assoc_map(u.drop_last()) =~= Map::<Seq<char>, UpdateView>::empty());
                                    assert(assoc_map(u) =~= Map::<Seq<char>, UpdateView>::empty().insert(k@, e));
                                    assert(reply =~= Map::<Seq<char>, UpdateView>::empty().insert(k@, e));
                                }
                            },
                            None => {
                                proof {
                                    assert(!reply.contains_key(k@));
                                }
                            },
                        }
                    },
                    None => {
                        let mut i: usize = 0;
                        while i < node.props.len()
                            invariant
                                i <= node.props.len(),
                                node.wf(),
                                nv == node@,
                                s == props_seq(node.props@),
                                updates@.len() == i,
                                forall|a: int| 0 <= a < i ==> #[trigger] updates_view(updates@)[a] == (s[a].0, UpdateView { value: s[a].1, state: state_or_zero(nv, s[a].0) }),
                            decreases node.props.len() - i,
                        {
                            let st = match node.state_of(node.props[i].0.as_str()) {
                                Some(t) => t,
                                None => 0,
                            };
                            let ghost before = updates@;
                            updates.push((node.props[i].0.clone(), UpdateEntry { value: node.props[i].1.clone(), state: st }));
                            proof {
                                assert forall|a: int| 0 <= a < i + 1 implies #[trigger] updates_view(updates@)[a] == (s[a].0, UpdateView { value: s[a].1, state: state_or_zero(nv, s[a].0) }) by {
                                    if a < i {
                                        assert(updates@[a] == before[a]);
                                        assert(updates_view(before)[a] == updates_view(updates@)[a]);
                                    }
                                }
                            }
                            i = i + 1;
                        }
                        proof {
                            let u = updates_view(updates@);
                            lemma_assoc_dom(u);
                            assert(keys_unique(u)) by {
                                assert forall|a: int, b: int| 0 <= a < u.len() && 0 <= b < u.len() && a != b implies u[a].0 != u[b].0 by {
                                    assert(u[a].0 == s[a].0);
                                    assert(u[b].0 == s[b].0);
                                }
                            }
                            assert forall|k: Seq<char>| #[trigger] assoc_map(u).contains_key(k) == reply.contains_key(k) by {
                                if has_key(u, k) {
                                    let a = choose|a: int| 0 <= a < u.len() && u[a].0 == k;
                                    assert(s[a].0 == k);
                                }
                                if has_key(s, k) {
                                    let a = choose|a: int| 0 <= a < s.len() && s[a].0 == k;
                                    assert(u[a].0 == k);
                                }
                            }
                            assert forall|k: Seq<char>| #[trigger] assoc_map(u).contains_key(k) implies assoc_map(u)[k] == reply[k] by {
                                let a = choose|a: int| 0 <= a < u.len() && u[a].0 == k;
                                lemma_assoc_index(u, a);
                                lemma_assoc_index(s, a);
                            }
                            assert(assoc_map(u) =~= reply);
                        }
                    },
                }
                if updates.len() > 0 {
                    proof {
                        let u = updates_view(updates@);
                        lemma_assoc_dom(u);
                        assert(has_key(u, u[0].0));
                        assert(reply.contains_key(u[0].0));
                    }
                    Some(Message::new_put(soul.clone(), updates))
                } else {
                    proof {
                        let u = updates_view(updates@);
                        assert(u =~= Seq::<(Seq<char>, UpdateView)>::empty());
                        assert forall|k: Seq<char>| !reply.contains_key(k) by {
                            if reply.contains_key(k) {
                                if key is None {
                                    let a = choose|a: int| 0 <= a < s.len() && s[a].0 == k;
                                }
                            }
                        }
                    }
                    None
                }
            },
            None => None,
        }
    }

    /// Process an incoming message that came from `sender` (none where it
    /// did not come from a peer); returns the reply to send back, if any.
    fn handle(&mut self, sender: Option<&str>, msg: &Message) -> (r: Option<Message>)
        requires
            old(self).wf(),
        ensures
            final(self).wf(),
            old(self)@.seen.contains(msg.id@) ==> r is None && final(self)@ == old(self)@,
            !old(self)@.seen.contains(msg.id@) ==> final(self)@.seen == seen_after(old(self)@.seen, msg.id@),
            !old(self)@.seen.contains(msg.id@) ==> final(self)@.peers == old(self)@.peers,
            !old(self)@.seen.contains(msg.id@) && msg@.kind is Put ==> {
                &&& r is Some
                &&& r->0@.kind == (KindView::Ack { message_id: msg.id@ })
                &&& is_uuid_v4_text(r->0@.id)
                &&& final(self)@.outbox == queued_for_all(old(self)@.outbox, old(self)@.peers, msg@, sender_view(sender))
            },
            !old(self)@.seen.contains(msg.id@) && msg@.kind is Put && S::infallible() ==> exists|clocks: Seq<i64>|
                clocks.len() == msg@.kind->Put_updates.len() && final(self)@.graph == after_timed_writes(
                    old(self)@.graph,
                    update_writes(msg@.kind->Put_soul, msg@.kind->Put_updates),
                    clocks,
                ),
            !old(self)@.seen.contains(msg.id@) && msg@.kind is Put ==> exists|clocks: Seq<i64>|
                clocks.len() == msg@.kind->Put_updates.len() && writes_outcome(
                    old(self)@.graph,
                    final(self)@.graph,
                    update_writes(msg@.kind->Put_soul, msg@.kind->Put_updates),
                    clocks,
                    S::infallible(),
                ),
            !old(self)@.seen.contains(msg.id@) && msg@.kind is Get ==> {
                &&& final(self)@.graph == old(self)@.graph
                &&& final(self)@.outbox == old(self)@.outbox
                &&& (r is None <==> (forall|k: Seq<char>|
                    !get_reply(old(self)@.graph.nodes, msg@.kind->Get_soul, msg@.kind->Get_key).contains_key(k)))
            },
            !old(self)@.seen.contains(msg.id@) && msg@.kind is Get && r is Some ==> match r->0@.kind {
                KindView::Put { soul: s, updates: u, signature, signer } => {
                    &&& s == msg@.kind->Get_soul
                    &&& signature is None
                    &&& signer is None
                    &&& keys_unique(u)
                    &&& assoc_map(u) == get_reply(old(self)@.graph.nodes, msg@.kind->Get_soul, msg@.kind->Get_key)
                },
                _ => false,
            },
            !old(self)@.seen.contains(msg.id@) && !(msg@.kind is Put) && !(msg@.kind is Get) ==> {
                &&& r is None
                &&& final(self)@.graph == old(self)@.graph
                &&& final(self)@.outbox == old(self)@.outbox
            },
    {
        if self.has_seen(&msg.id) {
            return None;
        }
        self.seen.push(msg.id.clone());
        if self.seen.len() > SEEN_LIMIT {
            self.seen.clear();
        }
        proof {
            if old(self).seen@.len() + 1 > SEEN_LIMIT {
                assert(ids_view(self.seen@) =~= Seq::<Seq<char>>::empty());
            } else {
                assert(ids_view(self.seen@) =~= ids_view(old(self).seen@).push(msg.id@));
            }
        }
        let ghost g0 = self@.graph;
        assert(g0 == old(self)@.graph);
        match &msg.kind {
            MessageKind::Put { soul, updates, .. } => {
                self.apply_updates(soul, updates);
                let ghost g1 = self@.graph;
                self.broadcast(msg, sender);
                proof {
                    assert(self@.graph == g1);
                    let cs = choose|clocks: Seq<i64>|
                        clocks.len() == updates@.len() && writes_outcome(
                            g0,
                            g1,
                            update_writes(soul@, updates_view(updates@)),
                            clocks,
                            S::infallible(),
                        );
                    assert(cs.len() == msg@.kind->Put_updates.len());
                    assert(writes_outcome(
                        old(self)@.graph,
                        self@.graph,
                        update_writes(msg@.kind->Put_soul, msg@.kind->Put_updates),
                        cs,
                        S::infallible(),
                    ));
                    if S::infallible() {
                        let clocks = choose|clocks: Seq<i64>|
                            clocks.len() == updates@.len() && g1 == after_timed_writes(
                                g0,
                                update_writes(soul@, updates_view(updates@)),
                                clocks,
                            );
                        assert(clocks.len() == msg@.kind->Put_updates.len());
                        assert(self@.graph == after_timed_writes(
                            old(self)@.graph,
                            update_writes(msg@.kind->Put_soul, msg@.kind->Put_updates),
                            clocks,
                        ));
                    }
                }
                Some(Message::new_ack(msg.id.clone()))
            },
            MessageKind::Get { soul, key } => {
                let r = self.answer_get(soul, key);
                proof {
                    assert(self@.graph == old(self)@.graph);
                    assert(msg@.kind->Get_soul == soul@);
                    assert(msg@.kind->Get_key == crate::message::opt_text(*key));
                }
                r
            },
            _ => None,
        }
    }

    /// Process a message that did not come from a connected peer (a local
    /// write, say); returns the reply to send back, if any. See [`handled`]:
    /// a new PUT is queued for every peer.
    pub fn handle_message(&mut self, msg: &Message) -> (r: Option<Message>)
        requires
            old(self).wf(),
        ensures
            final(self).wf(),
            handled(old(self)@, final(self)@, msg@, reply_view(r), None, S::infallible()),
    {
        self.handle(None, msg)
    }

    /// Process a message received from the peer `sender`; returns the reply
    /// to send back, if any. See [`handled`]: a new PUT is queued for every
    /// peer except `sender`, so it does not go back where it came from.
    pub fn handle_message_from(&mut self, sender: &str, msg: &Message) -> (r: Option<Message>)
        requires
            old(self).wf(),
        ensures
            final(self).wf(),
            handled(old(self)@, final(self)@, msg@, reply_view(r), Some(sender@), S::infallible()),
    {
        self.handle(Some(sender), msg)
    }

    /// Take every message queued for a peer, leaving its queue empty.
    pub fn drain_outbox(&mut self, peer_id: &str) -> (r: Vec<Message>)
        requires
            old(self).wf(),
        ensures
            final(self).wf(),
            match map_get(old(self)@.outbox, peer_id@) {
                Some(q) => queue_view(r@) == q && final(self)@.outbox == old(self)@.outbox.insert(peer_id@, Seq::empty()),
                None => r@.len() == 0 && final(self)@.outbox == old(self)@.outbox,
            },
            final(self)@.peers == old(self)@.peers,
            final(self)@.graph == old(self)@.graph,
            final(self)@.seen == old(self)@.seen,
    {
        let ghost s = outbox_seq(self.outbox@);
        proof {
            lemma_assoc_dom(s);
        }
        match find_key(&self.outbox, peer_id) {
            Some(i) => {
                let mut q: Vec<Message> = Vec::new();
                let ghost old_out = self.outbox@;
                std::mem::swap(&mut q, &mut self.outbox[i].1);
                proof {
                    assert(self.outbox@[i as int].1@ == Seq::<Message>::empty());
                    assert(queue_view(self.outbox@[i as int].1@) =~= Seq::<MessageView>::empty());
                    assert(q@ == old_out[i as int].1@);
                    lemma_assoc_index(s, i as int);
                    lemma_assoc_update(s, i as int, Seq::<MessageView>::empty());
                    assert(outbox_seq(self.outbox@) =~= s.update(i as int, (s[i as int].0, Seq::<MessageView>::empty())));
                }
                q
            },
            None => {
                proof {
                    if has_key(s, peer_id@) {
                        let j = choose|j: int| 0 <= j < s.len() && s[j].0 == peer_id@;
                        assert(self.outbox@[j].0@ == peer_id@);
                    }
                }
                Vec::new()
            },
        }
    }

    /// The number of connected peers.
    pub fn peer_count(&self) -> (r: usize)
        ensures
            r == self@.peers.len(),
    {
        self.peers.len()
    }

    /// The underlying graph, for local reads and writes beside the sync.
    /// The manager stays well formed as long as the graph does.
    pub fn graph_mut(&mut self) -> (r: &mut Graph<S>)
        requires
            old(self).wf(),
        ensures
            r.wf(),
            r@ == old(self)@.graph,
            final(r).wf() ==> final(self).wf(),
            final(self)@ == (PeerView { graph: final(r)@, ..old(self)@ }),
    {
        &mut self.graph
    }

    /// The underlying graph.
    pub fn graph(&self) -> (r: &Graph<S>)
        ensures
            r@ == self@.graph,
            self.wf() ==> r.wf(),
    {
        &self.graph
    }
}

} // verus!
