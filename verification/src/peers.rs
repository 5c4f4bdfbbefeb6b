use vstd::prelude::*;

use crate::state::NodeId;

verus! {

/// A member of the cluster that this node talks to: its identity, its address, and
/// the handle through which requests reach it.
#[derive(Debug, Clone)]
pub struct Peer<C> {
    id: NodeId,
    addr: String,
    client: C,
}

impl<C> Peer<C> {
    pub fn new(id: NodeId, addr: String, client: C) -> (peer: Self)
        ensures
            peer.spec_id() == id@,
            peer.spec_addr() == addr@,
            peer.spec_client() == client,
    {
        Self { id, addr, client }
    }

    pub closed spec fn spec_id(&self) -> Seq<char> {
        self.id@
    }

    pub closed spec fn spec_addr(&self) -> Seq<char> {
        self.addr@
    }

    pub closed spec fn spec_client(&self) -> C {
        self.client
    }

    pub fn id(&self) -> (id: &NodeId)
        ensures
            id@ == self.spec_id(),
    {
        &self.id
    }

    pub fn addr(&self) -> (addr: &str)
        ensures
            addr@ == self.spec_addr(),
    {
        self.addr.as_str()
    }

    /// The handle through which requests reach this peer.
    pub fn client(&self) -> (client: &C)
        ensures
            *client == self.spec_client(),
    {
        &self.client
    }
}

/// The peers this node is connected to, in the order in which they joined.
#[derive(Debug, Clone)]
pub struct Peers<C>(Vec<Peer<C>>);

impl<C> View for Peers<C> {
    type V = Seq<Peer<C>>;

    closed spec fn view(&self) -> Seq<Peer<C>> {
        self.0@
    }
}

impl<C> Peers<C> {
    pub fn new() -> (peers: Self)
        ensures
            peers@ == Seq::<Peer<C>>::empty(),
    {
        Peers(Vec::new())
    }

    pub fn total_connected(&self) -> (total: usize)
        ensures
            total == self@.len(),
    {
        self.0.len()
    }

    pub fn push(&mut self, peer: Peer<C>)
        ensures
            final(self)@ == old(self)@.push(peer),
    {
        self.0.push(peer);
    }

    /// Removes and returns the peer at position `index`; those after it move up.
    pub fn remove(&mut self, index: usize) -> (peer: Peer<C>)
        requires
            index < old(self)@.len(),
        ensures
            peer == old(self)@[index as int],
            final(self)@ == old(self)@.remove(index as int),
    {
        self.0.remove(index)
    }

    /// The peer at position `index`, if there is one.
    pub fn get(&self, index: usize) -> (peer: Option<&Peer<C>>)
        ensures
            index < self@.len() ==> peer == Some(&self@[index as int]),
            index >= self@.len() ==> peer.is_none(),
    {
        if index < self.0.len() {
            Some(&self.0[index])
        } else {
            None
        }
    }
}

impl<C> core::ops::Deref for Peers<C> {
    type Target = Vec<Peer<C>>;

    fn deref(&self) -> (peers: &Vec<Peer<C>>)
        ensures
            peers@ == self@,
    {
        &self.0
    }
}

/// A peer that was reconnected and is handed back to the node.
#[derive(Debug)]
pub struct NewPeer<C>(pub Peer<C>);

/// A peer whose connection was lost: what is needed to connect to it again.
#[derive(Debug, Clone)]
pub struct PeerDisconnected {
    id: NodeId,
    addr: String,
}

impl PeerDisconnected {
    pub fn new(id: NodeId, addr: String) -> (peer: Self)
        ensures
            peer.spec_id() == id@,
            peer.spec_addr() == addr@,
    {
        Self { id, addr }
    }

    /// What is kept of a peer once its connection is lost.
    pub fn from_peer<C>(peer: Peer<C>) -> (disconnected: Self)
        ensures
            disconnected.spec_id() == peer.spec_id(),
            disconnected.spec_addr() == peer.spec_addr(),
    {
        Self { id: peer.id, addr: peer.addr }
    }

    pub closed spec fn spec_id(&self) -> Seq<char> {
        self.id@
    }

    pub closed spec fn spec_addr(&self) -> Seq<char> {
        self.addr@
    }

    pub fn id(&self) -> (id: &NodeId)
        ensures
            id@ == self.spec_id(),
    {
        &self.id
    }

    pub fn addr(&self) -> (addr: &str)
        ensures
            addr@ == self.spec_addr(),
    {
        self.addr.as_str()
    }
}

/// A batch of peers to reconnect.
#[derive(Debug)]
pub struct PeersDisconnected(pub Vec<PeerDisconnected>);

impl PeersDisconnected {
    pub fn new(peers: Vec<PeerDisconnected>) -> (batch: Self)
        ensures
            batch.0@ == peers@,
    {
        PeersDisconnected(peers)
    }
}

/// The wait before the next reconnection attempt: twice the last one, capped at
/// `max_backoff_ms`.
pub fn next_backoff(backoff_ms: u64, max_backoff_ms: u64) -> (next: u64)
    requires
        backoff_ms * 2 <= u64::MAX,
    ensures
        next == if backoff_ms * 2 < max_backoff_ms { backoff_ms * 2 } else { max_backoff_ms as int },
{
    let doubled = backoff_ms * 2;
    if doubled < max_backoff_ms {
        doubled
    } else {
        max_backoff_ms
    }
}

} // verus!
