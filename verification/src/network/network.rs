//! A discrete-event P2P gossip simulator: per-node ingress queues stamped
//! with arrival slots, and a mutable neighbour topology.
use vstd::prelude::*;
use std::collections::VecDeque;
use crate::collections::ordered_map::OrderedMap;
use crate::primitives::types::{Block, ExtrinsicView, Header, Slot};
use crate::protocol::grandpa::Precommit;

verus! {

broadcast use vstd::std_specs::vecdeque::group_vec_dequeue_axioms;

#[derive(Debug)]
pub enum Message {
    Block(Block),
    Header(Header),
    Precommit(Precommit),
}

/// What a message carries, a block's extrinsics by their contents.
pub enum MessageView {
    Block(Header, Seq<ExtrinsicView>),
    Header(Header),
    Precommit(Precommit),
}

impl View for Message {
    type V = MessageView;

    open spec fn view(&self) -> MessageView {
        match self {
            Message::Block(b) => MessageView::Block(b.header, b.extrinsics_view()),
            Message::Header(h) => MessageView::Header(*h),
            Message::Precommit(p) => MessageView::Precommit(*p),
        }
    }
}

impl Clone for Message {
    fn clone(&self) -> (res: Self)
        ensures
            res@ == self@,
    {
        match self {
            Message::Block(b) => Message::Block(b.clone()),
            Message::Header(h) => Message::Header(h.clone()),
            Message::Precommit(p) => Message::Precommit(p.clone()),
        }
    }
}

/// A queue entry by its contents: arrival slot and message.
pub open spec fn entry_view(e: (Slot, Message)) -> (Slot, MessageView) {
    (e.0, e.1@)
}

/// A queue by its contents.
pub open spec fn queue_view(q: VecDeque<(Slot, Message)>) -> Seq<(Slot, MessageView)> {
    q@.map_values(|e: (Slot, Message)| entry_view(e))
}

/// A peer list by its texts.
pub open spec fn peers_view(v: Vec<String>) -> Seq<Seq<char>> {
    v@.map_values(|s: String| s@)
}

/// The queues after one entry is appended to the queue of each listed
/// peer that has one, peer by peer, a peer listed twice receiving it twice.
pub open spec fn deliver(
    queues: Map<Seq<char>, Seq<(Slot, MessageView)>>,
    peers: Seq<Seq<char>>,
    entry: (Slot, MessageView),
) -> Map<Seq<char>, Seq<(Slot, MessageView)>>
    decreases peers.len(),
{
    if peers.len() == 0 {
        queues
    } else {
        let m = deliver(queues, peers.drop_last(), entry);
        let p = peers.last();
        if m.contains_key(p) {
            m.insert(p, m[p].push(entry))
        } else {
            m
        }
    }
}

/// The number of leading queue entries that have arrived by `slot`.
pub open spec fn arrived_prefix(q: Seq<(Slot, MessageView)>, slot: Slot) -> nat
    decreases q.len(),
{
    if q.len() == 0 || q[0].0 > slot {
        0
    } else {
        1 + arrived_prefix(q.drop_first(), slot)
    }
}

/// No more entries have arrived than the queue holds.
pub proof fn lemma_arrived_prefix_bound(q: Seq<(Slot, MessageView)>, slot: Slot)
    ensures
        arrived_prefix(q, slot) <= q.len(),
    decreases q.len(),
{
    if q.len() > 0 && q[0].0 <= slot {
        lemma_arrived_prefix_bound(q.drop_first(), slot);
    }
}

/// Every entry drained at `slot` has arrived: its arrival slot is no later
/// than `slot`.
pub proof fn lemma_arrived_entries_due(q: Seq<(Slot, MessageView)>, slot: Slot)
    ensures
        forall|i: int| 0 <= i < arrived_prefix(q, slot) ==> #[trigger] q[i].0 <= slot,
    decreases q.len(),
{
    if q.len() > 0 && q[0].0 <= slot {
        lemma_arrived_entries_due(q.drop_first(), slot);
        lemma_arrived_prefix_bound(q.drop_first(), slot);
        assert forall|i: int| 0 <= i < arrived_prefix(q, slot) implies #[trigger] q[i].0
            <= slot by {
            if i > 0 {
                assert(q[i] == q.drop_first()[i - 1]);
            }
        }
    }
}

/// Delivery only appends: no queue appears or vanishes, each keeps its
/// entries in front, and all that follows them is the delivered entry.
pub proof fn lemma_deliver_appends(
    queues: Map<Seq<char>, Seq<(Slot, MessageView)>>,
    peers: Seq<Seq<char>>,
    entry: (Slot, MessageView),
)
    ensures
        deliver(queues, peers, entry).dom() == queues.dom(),
        forall|p: Seq<char>| #[trigger]
            queues.contains_key(p) ==> {
                let q2 = deliver(queues, peers, entry)[p];
                &&& q2.len() >= queues[p].len()
                &&& q2.take(queues[p].len() as int) == queues[p]
                &&& forall|i: int| queues[p].len() <= i < q2.len() ==> q2[i] == entry
            },
    decreases peers.len(),
{
    if peers.len() > 0 {
        lemma_deliver_appends(queues, peers.drop_last(), entry);
        let m = deliver(queues, peers.drop_last(), entry);
        let last = peers.last();
        if m.contains_key(last) {
            assert(deliver(queues, peers, entry) == m.insert(last, m[last].push(entry)));
            assert(deliver(queues, peers, entry).dom() =~= queues.dom());
            assert forall|p: Seq<char>| #[trigger] queues.contains_key(p) implies {
                let q2 = deliver(queues, peers, entry)[p];
                &&& q2.len() >= queues[p].len()
                &&& q2.take(queues[p].len() as int) == queues[p]
                &&& forall|i: int| queues[p].len() <= i < q2.len() ==> q2[i] == entry
            } by {
                if p == last {
                    let q1 = m[p];
                    let q2 = q1.push(entry);
                    assert(q2.take(queues[p].len() as int) =~= q1.take(queues[p].len() as int));
                }
            }
        }
    }
}

/// No gossip arrives early: once a delivery stamped with arrival slot
/// `arrival` has been queued, a poll at an earlier slot drains none of the
/// delivered entries, only entries that were queued before.
pub proof fn lemma_no_early_arrival(
    queues: Map<Seq<char>, Seq<(Slot, MessageView)>>,
    peers: Seq<Seq<char>>,
    arrival: Slot,
    msg: MessageView,
    p: Seq<char>,
    slot: Slot,
)
    requires
        queues.contains_key(p),
        slot < arrival,
    ensures
        arrived_prefix(deliver(queues, peers, (arrival, msg))[p], slot) <= queues[p].len(),
{
    let q2 = deliver(queues, peers, (arrival, msg))[p];
    lemma_deliver_appends(queues, peers, (arrival, msg));
    lemma_arrived_entries_due(q2, slot);
    lemma_arrived_prefix_bound(q2, slot);
    if arrived_prefix(q2, slot) > queues[p].len() {
        let i = queues[p].len() as int;
        assert(q2[i].0 <= slot);
        assert(q2[i] == (arrival, msg));
    }
}

/// A peer list without any entry equal to `x`, the others kept in order.
pub open spec fn without(peers: Seq<Seq<char>>, x: Seq<char>) -> Seq<Seq<char>>
    decreases peers.len(),
{
    if peers.len() == 0 {
        peers
    } else {
        let rest = without(peers.drop_last(), x);
        if peers.last() == x {
            rest
        } else {
            rest.push(peers.last())
        }
    }
}

/// Dropping `x` from a list that holds no `x` leaves the list as it was.
pub proof fn lemma_without_absent(peers: Seq<Seq<char>>, x: Seq<char>)
    requires
        !peers.contains(x),
    ensures
        without(peers, x) == peers,
    decreases peers.len(),
{
    if peers.len() > 0 {
        let init = peers.drop_last();
        assert forall|i: int| 0 <= i < init.len() implies init[i] != x by {
            assert(init[i] == peers[i]);
        }
        lemma_without_absent(init, x);
        assert(peers.last() == peers[peers.len() - 1]);
        assert(init.push(peers.last()) =~= peers);
    }
}

/// Linking two registered, non-adjacent nodes and unlinking them again
/// restores the topology.
pub proof fn lemma_link_unlink_restores(
    t: Map<Seq<char>, Seq<Seq<char>>>,
    a: Seq<char>,
    b: Seq<char>,
)
    requires
        a != b,
        t.contains_key(a),
        t.contains_key(b),
        !t[a].contains(b),
        !t[b].contains(a),
    ensures
        unlink(unlink(link(link(t, a, b), b, a), a, b), b, a) == t,
{
    let pa = t[a].push(b);
    let pb = t[b].push(a);
    assert(pa.drop_last() =~= t[a]);
    assert(pb.drop_last() =~= t[b]);
    lemma_without_absent(t[a], b);
    lemma_without_absent(t[b], a);
    assert(without(pa, b) == without(t[a], b));
    assert(without(pb, a) == without(t[b], a));
    assert(unlink(unlink(link(link(t, a, b), b, a), a, b), b, a) =~= t);
}

/// The topology after appending `b` to the peer list of `a`, if `a` has one.
pub open spec fn link(topology: Map<Seq<char>, Seq<Seq<char>>>, a: Seq<char>, b: Seq<char>) -> Map<
    Seq<char>,
    Seq<Seq<char>>,
> {
    if topology.contains_key(a) {
        topology.insert(a, topology[a].push(b))
    } else {
        topology
    }
}

/// The topology after dropping `b` from the peer list of `a`, if `a` has one.
pub open spec fn unlink(topology: Map<Seq<char>, Seq<Seq<char>>>, a: Seq<char>, b: Seq<char>) -> Map<
    Seq<char>,
    Seq<Seq<char>>,
> {
    if topology.contains_key(a) {
        topology.insert(a, without(topology[a], b))
    } else {
        topology
    }
}

pub struct NetworkSimulator {
    /// Mapping of node id to its incoming message queue.
    pub nodes: OrderedMap<String, VecDeque<(Slot, Message)>>,
    /// Mapping of node id to its connected neighbours (P2P topology).
    pub neighbors: OrderedMap<String, Vec<String>>,
    /// Propagation delay per hop in slots.
    pub hop_latency: Slot,
}

impl NetworkSimulator {
    pub open spec fn wf(self) -> bool {
        self.nodes.wf() && self.neighbors.wf()
    }

    /// The ingress queues by their contents.
    pub open spec fn queues(self) -> Map<Seq<char>, Seq<(Slot, MessageView)>> {
        self.nodes.map().map_values(|q: VecDeque<(Slot, Message)>| queue_view(q))
    }

    /// The topology by its texts.
    pub open spec fn topology(self) -> Map<Seq<char>, Seq<Seq<char>>> {
        self.neighbors.map().map_values(|v: Vec<String>| peers_view(v))
    }

    pub fn new(hop_latency: Slot) -> (sim: Self)
        ensures
            sim.wf(),
            sim.hop_latency == hop_latency,
            sim.queues() == Map::<Seq<char>, Seq<(Slot, MessageView)>>::empty(),
            sim.topology() == Map::<Seq<char>, Seq<Seq<char>>>::empty(),
    {
        let sim = NetworkSimulator {
            nodes: OrderedMap::new(),
            neighbors: OrderedMap::new(),
            hop_latency,
        };
        assert(sim.queues() =~= Map::<Seq<char>, Seq<(Slot, MessageView)>>::empty());
        assert(sim.topology() =~= Map::<Seq<char>, Seq<Seq<char>>>::empty());
        sim
    }

    /// Registers a node with an empty queue and no neighbours (replacing
    /// what a node of that id had).
    pub fn register_node(&mut self, node_id: String)
        requires
            old(self).wf(),
        ensures
            final(self).wf(),
            final(self).hop_latency == old(self).hop_latency,
            final(self).queues() == old(self).queues().insert(node_id@, Seq::empty()),
            final(self).topology() == old(self).topology().insert(node_id@, Seq::empty()),
    {
        let q: VecDeque<(Slot, Message)> = VecDeque::new();
        let v: Vec<String> = Vec::new();
        assert(queue_view(q) =~= Seq::empty());
        assert(peers_view(v) =~= Seq::empty());
        self.nodes.insert(node_id.clone(), q);
        self.neighbors.insert(node_id, v);
        assert(self.queues() =~= old(self).queues().insert(node_id@, Seq::empty()));
        assert(self.topology() =~= old(self).topology().insert(node_id@, Seq::empty()));
    }

    /// Appends `b` to the peer list of `a`, if `a` is registered.
    fn push_peer(&mut self, a: &str, b: &str)
        requires
            old(self).wf(),
        ensures
            final(self).wf(),
            final(self).nodes == old(self).nodes,
            final(self).hop_latency == old(self).hop_latency,
            final(self).topology() == link(old(self).topology(), a@, b@),
    {
        match self.neighbors.find_str(a) {
            Some(i) => {
                proof {
                    self.neighbors.lemma_wf();
                }
                let mut peers = self.neighbors.replace_at(i, Vec::new());
                let ghost before = peers_view(peers);
                peers.push(String::from_str(b));
                assert(peers_view(peers) =~= before.push(b@));
                self.neighbors.replace_at(i, peers);
                assert(self.topology() =~= link(old(self).topology(), a@, b@));
            },
            None => {
                assert(self.topology() =~= link(old(self).topology(), a@, b@));
            },
        }
    }

    /// Establishes bidirectional adjacency.
    pub fn add_neighbor(&mut self, a: &str, b: &str)
        requires
            old(self).wf(),
        ensures
            final(self).wf(),
            final(self).nodes == old(self).nodes,
            final(self).hop_latency == old(self).hop_latency,
            final(self).topology() == link(link(old(self).topology(), a@, b@), b@, a@),
    {
        self.push_peer(a, b);
        self.push_peer(b, a);
    }

    /// Re-establish a bidirectional connection.
    pub fn connect(&mut self, a: &str, b: &str)
        requires
            old(self).wf(),
        ensures
            final(self).wf(),
            final(self).nodes == old(self).nodes,
            final(self).hop_latency == old(self).hop_latency,
            final(self).topology() == link(link(old(self).topology(), a@, b@), b@, a@),
    {
        self.add_neighbor(a, b);
    }

    /// Drops every `b` from the peer list of `a`, if `a` is registered.
    fn drop_peer(&mut self, a: &str, b: &str)
        requires
            old(self).wf(),
        ensures
            final(self).wf(),
            final(self).nodes == old(self).nodes,
            final(self).hop_latency == old(self).hop_latency,
            final(self).topology() == unlink(old(self).topology(), a@, b@),
    {
        match self.neighbors.find_str(a) {
            Some(i) => {
                proof {
                    self.neighbors.lemma_wf();
                }
                let peers = self.neighbors.replace_at(i, Vec::new());
                let mut kept: Vec<String> = Vec::new();
                let mut j: usize = 0;
                while j < peers.len()
                    invariant
                        0 <= j <= peers@.len(),
                        peers_view(kept) == without(peers_view(peers).take(j as int), b@),
                    decreases peers@.len() - j,
                {
                    let ghost pv = peers_view(peers);
                    assert(pv.take(j + 1).drop_last() =~= pv.take(j as int));
                    assert(pv.take(j + 1).last() == peers@[j as int]@);
                    if !crate::collections::keys::str_equal(peers[j].as_str(), b) {
                        let ghost before = peers_view(kept);
                        kept.push(peers[j].clone());
                        assert(peers_view(kept) =~= before.push(peers@[j as int]@));
                    }
                    j = j + 1;
                }
                assert(peers_view(peers).take(peers@.len() as int) =~= peers_view(peers));
                self.neighbors.replace_at(i, kept);
                assert(self.topology() =~= unlink(old(self).topology(), a@, b@));
            },
            None => {
                assert(self.topology() =~= unlink(old(self).topology(), a@, b@));
            },
        }
    }

    /// Sever a bidirectional connection between two nodes.
    pub fn disconnect(&mut self, a: &str, b: &str)
        requires
            old(self).wf(),
        ensures
            final(self).wf(),
            final(self).nodes == old(self).nodes,
            final(self).hop_latency == old(self).hop_latency,
            final(self).topology() == unlink(unlink(old(self).topology(), a@, b@), b@, a@),
    {
        self.drop_peer(a, b);
        self.drop_peer(b, a);
    }

    /// Appends `entry` to the queue of `peer`, if `peer` is registered.
    fn enqueue(&mut self, peer: &str, entry: (Slot, Message))
        requires
            old(self).wf(),
        ensures
            final(self).wf(),
            final(self).neighbors == old(self).neighbors,
            final(self).hop_latency == old(self).hop_latency,
            final(self).queues() == (if old(self).queues().contains_key(peer@) {
                old(self).queues().insert(peer@, old(self).queues()[peer@].push(entry_view(entry)))
            } else {
                old(self).queues()
            }),
    {
        match self.nodes.find_str(peer) {
            Some(i) => {
                proof {
                    self.nodes.lemma_wf();
                }
                let mut q = self.nodes.replace_at(i, VecDeque::new());
                let ghost before = queue_view(q);
                q.push_back(entry);
                assert(queue_view(q) =~= before.push(entry_view(entry)));
                self.nodes.replace_at(i, q);
                assert(self.queues() =~= old(self).queues().insert(
                    peer@,
                    old(self).queues()[peer@].push(entry_view(entry)),
                ));
            },
            None => {},
        }
    }

    /// Gossips a message to all direct neighbours of the sender, to arrive
    /// one hop latency after the current slot.
    pub fn gossip_send(&mut self, sender_id: &str, message: Message, current_slot: Slot)
        requires
            old(self).wf(),
            current_slot + old(self).hop_latency <= u64::MAX,
        ensures
            final(self).wf(),
            final(self).neighbors == old(self).neighbors,
            final(self).hop_latency == old(self).hop_latency,
            final(self).queues() == (if old(self).topology().contains_key(sender_id@) {
                deliver(
                    old(self).queues(),
                    old(self).topology()[sender_id@],
                    ((current_slot + old(self).hop_latency) as u64, message@),
                )
            } else {
                old(self).queues()
            }),
    {
        let arrival_slot = current_slot + self.hop_latency;
        match self.neighbors.find_str(sender_id) {
            Some(i) => {
                proof {
                    self.neighbors.lemma_wf();
                }
                let n = self.neighbors.value_at(i).len();
                let ghost peers = peers_view(self.neighbors.value_seq()[i as int]);
                let mut j: usize = 0;
                assert(peers.take(0) =~= Seq::<Seq<char>>::empty());
                while j < n
                    invariant
                        self.wf(),
                        self.neighbors == old(self).neighbors,
                        self.hop_latency == old(self).hop_latency,
                        i < self.neighbors.key_seq().len(),
                        i < self.neighbors.value_seq().len(),
                        peers == peers_view(self.neighbors.value_seq()[i as int]),
                        n == peers.len(),
                        0 <= j <= n,
                        self.queues() == deliver(
                            old(self).queues(),
                            peers.take(j as int),
                            (arrival_slot, message@),
                        ),
                    decreases n - j,
                {
                    assert(peers.take(j + 1).drop_last() =~= peers.take(j as int));
                    let peer = &self.neighbors.value_at(i)[j];
                    assert(peers.take(j + 1).last() == peer@);
                    let entry = (arrival_slot, message.clone());
                    let peer_name = peer.clone();
                    self.enqueue(peer_name.as_str(), entry);
                    j = j + 1;
                }
                assert(peers.take(n as int) =~= peers);
            },
            None => {},
        }
    }

    /// Drains the messages that have arrived by `current_slot` from the
    /// front of a node's ingress queue, in queue order.
    pub fn poll_ingress(&mut self, node_id: &str, current_slot: Slot) -> (messages: Vec<Message>)
        requires
            old(self).wf(),
        ensures
            final(self).wf(),
            final(self).neighbors == old(self).neighbors,
            final(self).hop_latency == old(self).hop_latency,
            !old(self).queues().contains_key(node_id@) ==> messages@.len() == 0
                && final(self).queues() == old(self).queues(),
            old(self).queues().contains_key(node_id@) ==> ({
                let q = old(self).queues()[node_id@];
                let k = arrived_prefix(q, current_slot);
                &&& messages@.map_values(|m: Message| m@) == q.take(k as int).map_values(
                    |e: (Slot, MessageView)| e.1,
                )
                &&& final(self).queues() == old(self).queues().insert(node_id@, q.skip(k as int))
            }),
    {
        let mut messages: Vec<Message> = Vec::new();
        match self.nodes.find_str(node_id) {
            Some(i) => {
                proof {
                    self.nodes.lemma_wf();
                }
                let mut q = self.nodes.replace_at(i, VecDeque::new());
                let ghost q0 = queue_view(q);
                let ghost k = arrived_prefix(q0, current_slot);
                assert(q0.skip(0) =~= q0);
                loop
                    invariant
                        0 <= messages@.len() <= q0.len(),
                        queue_view(q) == q0.skip(messages@.len() as int),
                        arrived_prefix(q0, current_slot) == messages@.len() + arrived_prefix(
                            queue_view(q),
                            current_slot,
                        ),
                        messages@.map_values(|m: Message| m@) == q0.take(
                            messages@.len() as int,
                        ).map_values(|e: (Slot, MessageView)| e.1),
                    ensures
                        queue_view(q) == q0.skip(messages@.len() as int),
                        arrived_prefix(queue_view(q), current_slot) == 0,
                        arrived_prefix(q0, current_slot) == messages@.len(),
                        messages@.map_values(|m: Message| m@) == q0.take(
                            messages@.len() as int,
                        ).map_values(|e: (Slot, MessageView)| e.1),
                    decreases q@.len(),
                {
                    if q.len() == 0 {
                        break ;
                    }
                    if q[0].0 > current_slot {
                        assert(queue_view(q)[0].0 == q@[0].0);
                        break ;
                    }
                    let ghost qv = queue_view(q);
                    let ghost mv = messages@.map_values(|m: Message| m@);
                    let ghost n = messages@.len() as int;
                    match q.pop_front() {
                        Some(entry) => {
                            assert(qv[0] == entry_view(entry));
                            assert(queue_view(q) =~= qv.drop_first());
                            assert(qv.drop_first() =~= q0.skip(n + 1));
                            let ghost ev = entry.1@;
                            let ghost prev = messages@;
                            messages.push(entry.1);
                            assert(q0[n] == qv[0]);
                            assert(messages@ == prev.push(messages@[n]));
                            assert(messages@.map_values(|m: Message| m@) =~= mv.push(ev));
                            assert(q0.take(n + 1).map_values(|e: (Slot, MessageView)| e.1)
                                =~= q0.take(n).map_values(|e: (Slot, MessageView)| e.1).push(ev));
                            assert(messages@.map_values(|m: Message| m@) =~= q0.take(n + 1).map_values(
                                |e: (Slot, MessageView)| e.1,
                            ));
                        },
                        None => {},
                    }
                }
                assert(q0.take(k as int).map_values(|e: (Slot, MessageView)| e.1)
                    == messages@.map_values(|m: Message| m@));
                self.nodes.replace_at(i, q);
                assert(self.queues() =~= old(self).queues().insert(node_id@, q0.skip(k as int)));
            },
            None => {},
        }
        messages
    }
}

} // verus!
