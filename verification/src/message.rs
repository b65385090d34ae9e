//! The wire protocol's messages.

use vstd::prelude::*;
use crate::ids::{fresh_uuid, is_uuid_v4_text};
use crate::value::{Soul, Value, ValueView};

verus! {

/// A single property update with its HAM state.
#[derive(Debug)]
pub struct UpdateEntry {
    /// The property value.
    pub value: Value,
    /// The HAM state (timestamp, in milliseconds) of this update.
    pub state: i64,
}

/// The model of an [`UpdateEntry`].
pub struct UpdateView {
    pub value: ValueView,
    pub state: i64,
}

impl View for UpdateEntry {
    type V = UpdateView;

    open spec fn view(&self) -> UpdateView {
        UpdateView { value: self.value@, state: self.state }
    }
}

impl Clone for UpdateEntry {
    fn clone(&self) -> (r: Self)
        ensures
            r@ == self@,
    {
        UpdateEntry { value: self.value.clone(), state: self.state }
    }
}

/// The updates of a message, by the views of their keys and entries.
pub open spec fn updates_view(v: Seq<(String, UpdateEntry)>) -> Seq<(Seq<char>, UpdateView)> {
    v.map_values(|p: (String, UpdateEntry)| (p.0@, p.1@))
}

/// The view of an optional string.
pub open spec fn opt_text(o: Option<String>) -> Option<Seq<char>> {
    match o {
        Some(s) => Some(s@),
        None => None,
    }
}

/// Message payloads of the wire protocol.
#[derive(Debug)]
pub enum MessageKind {
    /// Write data to the graph.
    Put {
        /// The node soul being written.
        soul: Soul,
        /// Property updates: key and (value, state).
        updates: Vec<(String, UpdateEntry)>,
        /// Optional Ed25519 signature over the update (base64).
        signature: Option<String>,
        /// Optional signer's public key (hex).
        signer: Option<String>,
    },
    /// Request the data of a node, or of one of its properties.
    Get {
        soul: Soul,
        key: Option<String>,
    },
    /// Acknowledge receipt of a PUT.
    Ack {
        message_id: String,
    },
    /// Subscribe to changes on a path pattern.
    Sub {
        path: String,
    },
    /// Unsubscribe from a path.
    Unsub {
        path: String,
    },
}

/// The model of a [`MessageKind`].
pub enum KindView {
    Put {
        soul: Seq<char>,
        updates: Seq<(Seq<char>, UpdateView)>,
        signature: Option<Seq<char>>,
        signer: Option<Seq<char>>,
    },
    Get {
        soul: Seq<char>,
        key: Option<Seq<char>>,
    },
    Ack {
        message_id: Seq<char>,
    },
    Sub {
        path: Seq<char>,
    },
    Unsub {
        path: Seq<char>,
    },
}

impl View for MessageKind {
    type V = KindView;

    open spec fn view(&self) -> KindView {
        match self {
            MessageKind::Put { soul, updates, signature, signer } => KindView::Put {
                soul: soul@,
                updates: updates_view(updates@),
                signature: opt_text(*signature),
                signer: opt_text(*signer),
            },
            MessageKind::Get { soul, key } => KindView::Get { soul: soul@, key: opt_text(*key) },
            MessageKind::Ack { message_id } => KindView::Ack { message_id: message_id@ },
            MessageKind::Sub { path } => KindView::Sub { path: path@ },
            MessageKind::Unsub { path } => KindView::Unsub { path: path@ },
        }
    }
}

/// A wire protocol message: a unique id (for deduplication and
/// acknowledgement) and a payload.
#[derive(Debug)]
pub struct Message {
    pub id: String,
    pub kind: MessageKind,
}

/// The model of a [`Message`].
pub struct MessageView {
    pub id: Seq<char>,
    pub kind: KindView,
}

impl View for Message {
    type V = MessageView;

    open spec fn view(&self) -> MessageView {
        MessageView { id: self.id@, kind: self.kind@ }
    }
}

/// A copy of a list of updates.
pub fn clone_updates(v: &Vec<(String, UpdateEntry)>) -> (r: Vec<(String, UpdateEntry)>)
    ensures
        updates_view(r@) == updates_view(v@),
{
    let mut out: Vec<(String, UpdateEntry)> = Vec::new();
    let mut i: usize = 0;
    while i < v.len()
        invariant
            i <= v.len(),
            updates_view(out@) =~= updates_view(v@).take(i as int),
        decreases v.len() - i,
    {
        let ghost before = out@;
        let k = v[i].0.clone();
        let e = v[i].1.clone();
        out.push((k, e));
        proof {
            assert(updates_view(out@) =~= updates_view(before).push(updates_view(v@)[i as int]));
            assert(updates_view(v@).take(i + 1) =~= updates_view(v@).take(i as int).push(updates_view(v@)[i as int]));
        }
        i = i + 1;
    }
    proof {
        assert(updates_view(v@).take(i as int) =~= updates_view(v@));
    }
    out
}

fn clone_opt_text(o: &Option<String>) -> (r: Option<String>)
    ensures
        opt_text(r) == opt_text(*o),
{
    match o {
        Some(s) => Some(s.clone()),
        None => None,
    }
}

impl Clone for MessageKind {
    fn clone(&self) -> (r: Self)
        ensures
            r@ == self@,
    {
        match self {
            MessageKind::Put { soul, updates, signature, signer } => MessageKind::Put {
                soul: soul.clone(),
                updates: clone_updates(updates),
                signature: clone_opt_text(signature),
                signer: clone_opt_text(signer),
            },
            MessageKind::Get { soul, key } => MessageKind::Get { soul: soul.clone(), key: clone_opt_text(key) },
            MessageKind::Ack { message_id } => MessageKind::Ack { message_id: message_id.clone() },
            MessageKind::Sub { path } => MessageKind::Sub { path: path.clone() },
            MessageKind::Unsub { path } => MessageKind::Unsub { path: path.clone() },
        }
    }
}

impl Clone for Message {
    fn clone(&self) -> (r: Self)
        ensures
            r@ == self@,
    {
        Message { id: self.id.clone(), kind: self.kind.clone() }
    }
}

impl Message {
    /// A PUT of the given updates to a node, with a fresh id and no
    /// signature.
    pub fn new_put(soul: Soul, updates: Vec<(String, UpdateEntry)>) -> (r: Message)
        ensures
            r@.kind == (KindView::Put { soul: soul@, updates: updates_view(updates@), signature: None, signer: None }),
            is_uuid_v4_text(r.id@),
    {
        Message {
            id: fresh_uuid(),
            kind: MessageKind::Put { soul, updates, signature: None, signer: None },
        }
    }

    /// A GET of a node, or of one of its properties, with a fresh id.
    pub fn new_get(soul: Soul, key: Option<String>) -> (r: Message)
        ensures
            r@.kind == (KindView::Get { soul: soul@, key: opt_text(key) }),
            is_uuid_v4_text(r.id@),
    {
        Message { id: fresh_uuid(), kind: MessageKind::Get { soul, key } }
    }

    /// An acknowledgement of the message `message_id`, with a fresh id.
    pub fn new_ack(message_id: String) -> (r: Message)
        ensures
            r@.kind == (KindView::Ack { message_id: message_id@ }),
            is_uuid_v4_text(r.id@),
    {
        Message { id: fresh_uuid(), kind: MessageKind::Ack { message_id } }
    }

    /// A subscription to a path, with a fresh id.
    pub fn new_sub(path: String) -> (r: Message)
        ensures
            r@.kind == (KindView::Sub { path: path@ }),
            is_uuid_v4_text(r.id@),
    {
        Message { id: fresh_uuid(), kind: MessageKind::Sub { path } }
    }
}

} // verus!
