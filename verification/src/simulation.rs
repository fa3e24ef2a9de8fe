//! The experiment driver: a line of three validators gossiping blocks and
//! GRANDPA precommits over the simulated network, with a partition of the
//! link between the second and the third node for a span of slots.
use vstd::prelude::*;
use crate::network::network::{Message, MessageView, NetworkSimulator, arrived_prefix, deliver, link, unlink};
use crate::primitives::scale;
use crate::primitives::types::{Block, Header, Slot};
use crate::primitives::types;
use crate::protocol::consensus;
use crate::protocol::metrics::SimMetrics;
use crate::protocol::grandpa::Precommit;
use crate::protocol::node;
use crate::protocol::node::{Node, header_seq, height_of, reorg_outcome};

verus! {

/// Configures a single simulation run.
pub struct SimConfig {
    pub label: &'static str,
    pub total_slots: u64,
    pub hop_latency: u64,
    pub consensus_threshold: u64,
    pub total_validators: usize,
    /// Slot at which the link between node_1 and node_2 is severed.
    pub partition_start: u64,
    /// Slot at which the link is restored; 0 means no heal within the run.
    pub partition_end: u64,
}

/// A header that can be framed, at a height and a slot within the bounds.
pub open spec fn header_bounded(h: Header, max_number: nat, max_slot: nat) -> bool {
    &&& h.fits()
    &&& h.number <= max_number
    &&& h.slot <= max_slot
}

/// A message whose block, if it carries one, has a bounded header.
pub open spec fn message_ok(m: MessageView, max_number: nat, max_slot: nat) -> bool {
    match m {
        MessageView::Block(h, _) => header_bounded(h, max_number, max_slot),
        _ => true,
    }
}

/// Every queued message is within the bounds.
pub open spec fn queues_ok(
    qs: Map<Seq<char>, Seq<(Slot, MessageView)>>,
    max_number: nat,
    max_slot: nat,
) -> bool {
    forall|k: Seq<char>, i: int|
        qs.contains_key(k) && 0 <= i < qs[k].len() ==> message_ok(
            #[trigger] qs[k][i].1,
            max_number,
            max_slot,
        )
}

/// A node in a run: well formed, with a frameable id, and every stored
/// header within the bounds.
pub open spec fn node_ok(n: Node, max_number: nat, max_slot: nat) -> bool {
    &&& n.inv()
    &&& scale::text_fits(n.id@)
    &&& n.proposed_blocks <= max_number
    &&& forall|h: types::Hash| #[trigger]
        n.blocks.map().contains_key(h) ==> header_bounded(
            n.blocks.map()[h].header,
            max_number,
            max_slot,
        )
}

proof fn lemma_queues_ok_weaken(
    qs: Map<Seq<char>, Seq<(Slot, MessageView)>>,
    a: nat,
    b: nat,
    a2: nat,
    b2: nat,
)
    requires
        queues_ok(qs, a, b),
        a <= a2,
        b <= b2,
    ensures
        queues_ok(qs, a2, b2),
{
    assert forall|k: Seq<char>, i: int| qs.contains_key(k) && 0 <= i < qs[k].len() implies message_ok(
        #[trigger] qs[k][i].1,
        a2,
        b2,
    ) by {
        assert(message_ok(qs[k][i].1, a, b));
    }
}

proof fn lemma_node_ok_weaken(n: Node, a: nat, b: nat, a2: nat, b2: nat)
    requires
        node_ok(n, a, b),
        a <= a2,
        b <= b2,
    ensures
        node_ok(n, a2, b2),
{
    assert forall|h: types::Hash| #[trigger] n.blocks.map().contains_key(h) implies header_bounded(
        n.blocks.map()[h].header,
        a2,
        b2,
    ) by {
        assert(header_bounded(n.blocks.map()[h].header, a, b));
    }
}

/// Delivering a message within the bounds keeps every queue within them.
proof fn lemma_deliver_ok(
    qs: Map<Seq<char>, Seq<(Slot, MessageView)>>,
    peers: Seq<Seq<char>>,
    entry: (Slot, MessageView),
    a: nat,
    b: nat,
)
    requires
        queues_ok(qs, a, b),
        message_ok(entry.1, a, b),
    ensures
        queues_ok(deliver(qs, peers, entry), a, b),
    decreases peers.len(),
{
    if peers.len() > 0 {
        lemma_deliver_ok(qs, peers.drop_last(), entry, a, b);
        let m = deliver(qs, peers.drop_last(), entry);
        let p = peers.last();
        if m.contains_key(p) {
            let m2 = m.insert(p, m[p].push(entry));
            assert forall|k: Seq<char>, i: int| m2.contains_key(k) && 0 <= i < m2[k].len() implies message_ok(
                #[trigger] m2[k][i].1,
                a,
                b,
            ) by {
                if k == p && i == m[p].len() {
                } else {
                    assert(message_ok(m[k][i].1, a, b));
                }
            }
        }
    }
}

/// Stored slots within `max_slot` below 2^63 leave every stored header rankable.
proof fn lemma_ranks_defined(n: Node, a: nat, b: nat)
    requires
        node_ok(n, a, b),
        b < 0x8000_0000_0000_0000,
    ensures
        n.ranks_defined(),
{
    n.blocks.lemma_wf();
    assert forall|i: int| 0 <= i < header_seq(n.blocks).len() implies !consensus::rank_overflows(
        #[trigger] header_seq(n.blocks)[i].slot,
    ) by {
        let k = n.blocks.key_seq()[i];
        assert(n.blocks.map().contains_key(k));
        assert(header_bounded(n.blocks.map()[k].header, a, b));
    }
}

/// A short ASCII name fits a length prefix.
proof fn lemma_short_text_fits(t: Seq<char>)
    requires
        t.len() <= 16,
    ensures
        scale::text_fits(t),
{
    scale::lemma_utf8_len_bound(t);
}

} // verus!

verus! {

/// The queues after `sender` forwards `entry` to each of its neighbours;
/// unchanged when `sender` has no peer list.
pub open spec fn forward(
    qs: Map<Seq<char>, Seq<(Slot, MessageView)>>,
    topo: Map<Seq<char>, Seq<Seq<char>>>,
    sender: Seq<char>,
    entry: (Slot, MessageView),
) -> Map<Seq<char>, Seq<(Slot, MessageView)>> {
    if topo.contains_key(sender) {
        deliver(qs, topo[sender], entry)
    } else {
        qs
    }
}

/// The messages that node `id` finds arrived by `slot`, front first.
pub open spec fn polled(
    qs: Map<Seq<char>, Seq<(Slot, MessageView)>>,
    id: Seq<char>,
    slot: Slot,
) -> Seq<MessageView> {
    if qs.contains_key(id) {
        qs[id].take(arrived_prefix(qs[id], slot) as int).map_values(|e: (Slot, MessageView)| e.1)
    } else {
        Seq::empty()
    }
}

/// The queues once node `id` has drained what arrived by `slot`.
pub open spec fn drained(
    qs: Map<Seq<char>, Seq<(Slot, MessageView)>>,
    id: Seq<char>,
    slot: Slot,
) -> Map<Seq<char>, Seq<(Slot, MessageView)>> {
    if qs.contains_key(id) {
        qs.insert(id, qs[id].skip(arrived_prefix(qs[id], slot) as int))
    } else {
        qs
    }
}

/// Importing `blk` takes node `n0` to `n1` and reports `r`: a seen block
/// changes nothing; a new one is stored and marked seen, the import count
/// rises by one, and head and report follow the fork-choice re-evaluation.
pub open spec fn import_effect(n0: Node, blk: Block, n1: Node, r: Option<u64>) -> bool {
    let id = blk.header.id();
    &&& n1.inv()
    &&& n1.seen_blocks.set().contains(id)
    &&& n1.finalized_hash == n0.finalized_hash
    &&& n1.finalized_height == n0.finalized_height
    &&& n0.seen_blocks.set().contains(id) ==> r is None && n1 == n0
    &&& !n0.seen_blocks.set().contains(id) ==> {
        &&& n1.seen_blocks.set() == n0.seen_blocks.set().insert(id)
        &&& n1.blocks.map() == n0.blocks.map().insert(id, blk)
        &&& n1.blocks.key_seq() == n0.blocks.key_seq().push(id)
        &&& n1.blocks.value_seq() == n0.blocks.value_seq().push(blk)
        &&& n1.imported_blocks == n0.imported_blocks + 1
        &&& (n1.best_head_hash, r) == reorg_outcome(
            n1.blocks,
            n0.best_head_hash,
            n0.finalized_height,
        )
        &&& n1 == (Node {
            blocks: n1.blocks,
            seen_blocks: n1.seen_blocks,
            best_head_hash: n1.best_head_hash,
            imported_blocks: n1.imported_blocks,
            ..n0
        })
    }
}

/// Handling precommit `p` takes node `n0` to `n1`: a vote for an unknown
/// block changes nothing; otherwise it becomes its voter's vote and the
/// finality walk decides the finalized block.
pub open spec fn precommit_effect(n0: Node, p: Precommit, n1: Node) -> bool {
    &&& n1.inv()
    &&& n1.blocks == n0.blocks
    &&& n1.seen_blocks == n0.seen_blocks
    &&& n1.best_head_hash == n0.best_head_hash
    &&& n1.imported_blocks == n0.imported_blocks
    &&& n1.proposed_blocks == n0.proposed_blocks
    &&& n1.id == n0.id
    &&& n1.runtime == n0.runtime
    &&& n1.consensus == n0.consensus
    &&& n1.supermajority_threshold == n0.supermajority_threshold
    &&& n1.finalized_height >= n0.finalized_height
    &&& !n0.blocks.map().contains_key(p.target_hash) ==> n1 == n0
    &&& n0.blocks.map().contains_key(p.target_hash) ==> {
        &&& n1.grandpa_votes.map() == n0.grandpa_votes.map().insert(p.voter_id@, p.target_hash)
        &&& n0.grandpa_votes.map().contains_key(p.voter_id@) ==> {
            &&& n1.grandpa_votes.key_seq() == n0.grandpa_votes.key_seq()
            &&& n1.grandpa_votes.value_seq() == n0.grandpa_votes.value_seq().update(
                n0.grandpa_votes.key_seq().index_of(p.voter_id@),
                p.target_hash,
            )
        }
        &&& !n0.grandpa_votes.map().contains_key(p.voter_id@) ==> {
            &&& n1.grandpa_votes.key_seq() == n0.grandpa_votes.key_seq().push(p.voter_id@)
            &&& n1.grandpa_votes.value_seq() == n0.grandpa_votes.value_seq().push(p.target_hash)
        }
        &&& ({
            let mid = Node { grandpa_votes: n1.grandpa_votes, ..n0 };
            match mid.finality_pick() {
                Some(h) => n1.finalized_hash == h && n1.finalized_height == height_of(
                    n0.blocks.map(),
                    h,
                ),
                None => n1.finalized_hash == n0.finalized_hash && n1.finalized_height
                    == n0.finalized_height,
            }
        })
    }
}

/// One delivered message takes node, queues and metrics from the first
/// triple to the second. A block is imported while the import counter has
/// room (else ignored); a re-org records its depth and forwards the block.
/// A precommit is counted (the counter stops at its maximum), handled, and
/// forwarded. A bare header is ignored. Forwarded entries arrive at `arrival`.
pub open spec fn ingress_step(
    n0: Node,
    qs0: Map<Seq<char>, Seq<(Slot, MessageView)>>,
    m0: SimMetrics,
    msg: MessageView,
    topo: Map<Seq<char>, Seq<Seq<char>>>,
    arrival: Slot,
    n1: Node,
    qs1: Map<Seq<char>, Seq<(Slot, MessageView)>>,
    m1: SimMetrics,
) -> bool {
    match msg {
        MessageView::Block(h, xs) => if n0.imported_blocks < u64::MAX {
            exists|blk: Block, r: Option<u64>|
                {
                    &&& #[trigger] import_effect(n0, blk, n1, r)
                    &&& blk.header == h
                    &&& blk.extrinsics_view() == xs
                    &&& match r {
                        Some(d) => {
                            &&& m1.reorg_depths@ == m0.reorg_depths@.push(d)
                            &&& m1 == (SimMetrics { reorg_depths: m1.reorg_depths, ..m0 })
                            &&& qs1 == forward(qs0, topo, n0.id@, (arrival, msg))
                        },
                        None => m1 == m0 && qs1 == qs0,
                    }
                }
        } else {
            n1 == n0 && m1 == m0 && qs1 == qs0
        },
        MessageView::Precommit(p) => {
            &&& precommit_effect(n0, p, n1)
            &&& m1 == (if m0.precommits_received < u64::MAX {
                SimMetrics { precommits_received: (m0.precommits_received + 1) as u64, ..m0 }
            } else {
                m0
            })
            &&& qs1 == forward(qs0, topo, n0.id@, (arrival, msg))
        },
        MessageView::Header(_) => n1 == n0 && m1 == m0 && qs1 == qs0,
    }
}

/// A run of `ingress_step`s over `msgs`, the i-th state triple taken by
/// the i-th message to the next.
pub open spec fn ingress_trace(
    ns: Seq<Node>,
    qss: Seq<Map<Seq<char>, Seq<(Slot, MessageView)>>>,
    mss: Seq<SimMetrics>,
    msgs: Seq<MessageView>,
    topo: Map<Seq<char>, Seq<Seq<char>>>,
    arrival: Slot,
) -> bool {
    &&& ns.len() == msgs.len() + 1
    &&& qss.len() == msgs.len() + 1
    &&& mss.len() == msgs.len() + 1
    &&& forall|i: int|
        0 <= i < msgs.len() ==> #[trigger] ingress_step(
            ns[i],
            qss[i],
            mss[i],
            msgs[i],
            topo,
            arrival,
            ns[i + 1],
            qss[i + 1],
            mss[i + 1],
        )
}

/// Delivering `msgs` in order, one `ingress_step` each, can take the first
/// state triple to the second.
pub open spec fn ingress_reaches(
    n0: Node,
    qs0: Map<Seq<char>, Seq<(Slot, MessageView)>>,
    m0: SimMetrics,
    msgs: Seq<MessageView>,
    topo: Map<Seq<char>, Seq<Seq<char>>>,
    arrival: Slot,
    n1: Node,
    qs1: Map<Seq<char>, Seq<(Slot, MessageView)>>,
    m1: SimMetrics,
) -> bool {
    exists|
        ns: Seq<Node>,
        qss: Seq<Map<Seq<char>, Seq<(Slot, MessageView)>>>,
        mss: Seq<SimMetrics>,
    |
        {
            &&& #[trigger] ingress_trace(ns, qss, mss, msgs, topo, arrival)
            &&& ns[0] == n0
            &&& qss[0] == qs0
            &&& mss[0] == m0
            &&& ns.last() == n1
            &&& qss.last() == qs1
            &&& mss.last() == m1
        }
}

/// A node's proposal step: a node that wins the slot authors a block on its
/// head, counts it, raises the greatest height seen to its height if
/// higher, and forwards it; a node that loses changes nothing.
pub open spec fn propose_effect(
    n0: Node,
    qs0: Map<Seq<char>, Seq<(Slot, MessageView)>>,
    m0: SimMetrics,
    topo: Map<Seq<char>, Seq<Seq<char>>>,
    slot: Slot,
    randomness: Seq<u8>,
    arrival: Slot,
    n1: Node,
    qs1: Map<Seq<char>, Seq<(Slot, MessageView)>>,
    m1: SimMetrics,
) -> bool {
    if n0.consensus.wins(randomness) {
        exists|b: Block|
            {
                &&& #[trigger] n0.authors(n1, b, slot)
                &&& qs1 == forward(
                    qs0,
                    topo,
                    n0.id@,
                    (arrival, MessageView::Block(b.header, b.extrinsics_view())),
                )
                &&& m1 == (SimMetrics {
                    total_blocks_authored: (m0.total_blocks_authored + 1) as u64,
                    max_height_achieved: if b.header.number > m0.max_height_achieved {
                        b.header.number
                    } else {
                        m0.max_height_achieved
                    },
                    ..m0
                })
            }
    } else {
        n1 == n0 && qs1 == qs0 && m1 == m0
    }
}

/// The precommit a node casts in `slot`: for its best head, at its height.
pub open spec fn own_precommit(n: Node, slot: Slot) -> Precommit {
    Precommit {
        target_hash: n.best_head_hash,
        target_height: n.head_height(),
        voter_id: n.id,
        slot,
    }
}

/// A node's own turn: the proposal step, then the node's precommit for
/// its best head is counted as broadcast, handled by the node itself and
/// forwarded; a finalization round is counted when its finalized height
/// rises.
pub open spec fn turn_effect(
    n0: Node,
    qs0: Map<Seq<char>, Seq<(Slot, MessageView)>>,
    m0: SimMetrics,
    topo: Map<Seq<char>, Seq<Seq<char>>>,
    slot: Slot,
    randomness: Seq<u8>,
    arrival: Slot,
    n1: Node,
    qs1: Map<Seq<char>, Seq<(Slot, MessageView)>>,
    m1: SimMetrics,
) -> bool {
    exists|na: Node, qsa: Map<Seq<char>, Seq<(Slot, MessageView)>>, ma: SimMetrics|
        {
            &&& #[trigger] propose_effect(n0, qs0, m0, topo, slot, randomness, arrival, na, qsa, ma)
            &&& precommit_effect(na, own_precommit(na, slot), n1)
            &&& qs1 == forward(
                qsa,
                topo,
                na.id@,
                (arrival, MessageView::Precommit(own_precommit(na, slot))),
            )
            &&& m1 == (SimMetrics {
                precommits_broadcast: (ma.precommits_broadcast + 1) as u64,
                finalization_rounds: if n1.finalized_height > na.finalized_height {
                    (ma.finalization_rounds + 1) as u64
                } else {
                    ma.finalization_rounds
                },
                ..ma
            })
        }
}

/// Gossips a message within the bounds, keeping every queue within them.
fn gossip(
    net: &mut NetworkSimulator,
    sender: &str,
    msg: Message,
    slot: Slot,
    Ghost(a): Ghost<nat>,
    Ghost(s): Ghost<nat>,
)
    requires
        old(net).wf(),
        queues_ok(old(net).queues(), a, s),
        message_ok(msg@, a, s),
        slot + old(net).hop_latency <= u64::MAX,
    ensures
        final(net).wf(),
        final(net).hop_latency == old(net).hop_latency,
        final(net).neighbors == old(net).neighbors,
        final(net).queues() == forward(
            old(net).queues(),
            old(net).topology(),
            sender@,
            ((slot + old(net).hop_latency) as u64, msg@),
        ),
        queues_ok(final(net).queues(), a, s),
{
    let ghost qs = net.queues();
    let ghost topo = net.topology();
    let ghost entry = ((slot + net.hop_latency) as u64, msg@);
    net.gossip_send(sender, msg, slot);
    proof {
        if topo.contains_key(sender@) {
            lemma_deliver_ok(qs, topo[sender@], entry, a, s);
        }
    }
}

/// Delivers to a node the messages that have arrived by `slot`: a block is
/// imported and, when it re-organises the node's chain, the re-org depth is
/// recorded and the block is gossiped on; a precommit is counted, handled
/// and gossiped on. A node whose import counter is exhausted imports no
/// more blocks, and the received-precommit counter stops at its maximum.
fn process_ingress(
    node: &mut Node,
    net: &mut NetworkSimulator,
    metrics: &mut SimMetrics,
    slot: Slot,
)
    requires
        node_ok(*old(node), old(metrics).total_blocks_authored as nat, slot as nat),
        old(net).wf(),
        queues_ok(old(net).queues(), old(metrics).total_blocks_authored as nat, slot as nat),
        old(metrics).wf(),
        slot + old(net).hop_latency <= u64::MAX,
        slot < 0x8000_0000_0000_0000,
    ensures
        node_ok(*final(node), final(metrics).total_blocks_authored as nat, slot as nat),
        final(node).id == old(node).id,
        final(net).wf(),
        final(net).hop_latency == old(net).hop_latency,
        queues_ok(final(net).queues(), final(metrics).total_blocks_authored as nat, slot as nat),
        final(metrics).wf(),
        final(metrics).total_blocks_authored == old(metrics).total_blocks_authored,
        final(metrics).precommits_broadcast == old(metrics).precommits_broadcast,
        final(metrics).finalization_rounds == old(metrics).finalization_rounds,
        final(metrics).slot_collisions == old(metrics).slot_collisions,
        final(metrics).total_slots == old(metrics).total_slots,
        final(metrics).validator_count == old(metrics).validator_count,
        final(metrics).max_height_achieved == old(metrics).max_height_achieved,
        final(metrics).node_final_heights == old(metrics).node_final_heights,
        final(metrics).node_finalized_heights == old(metrics).node_finalized_heights,
        final(net).neighbors == old(net).neighbors,
        final(node).consensus == old(node).consensus,
        ingress_reaches(
            *old(node),
            drained(old(net).queues(), old(node).id@, slot),
            *old(metrics),
            polled(old(net).queues(), old(node).id@, slot),
            old(net).topology(),
            (slot + old(net).hop_latency) as u64,
            *final(node),
            final(net).queues(),
            *final(metrics),
        ),
{
    let ghost a = metrics.total_blocks_authored as nat;
    let ghost s = slot as nat;
    let ghost q0 = net.queues();
    let ghost topo = net.topology();
    let ghost arrival = (slot + net.hop_latency) as u64;
    let mut msgs = net.poll_ingress(node.id.as_str(), slot);
    let ghost all = msgs@.map_values(|m: Message| m@);
    let ghost mut ns: Seq<Node> = seq![*node];
    let ghost mut qss: Seq<Map<Seq<char>, Seq<(Slot, MessageView)>>> = seq![net.queues()];
    let ghost mut mss: Seq<SimMetrics> = seq![*metrics];
    proof {
        assert(all == polled(q0, node.id@, slot));
        assert(net.queues() == drained(q0, node.id@, slot));
        assert(all.skip(0) =~= all);
        assert(ingress_trace(ns, qss, mss, all.take(0), topo, arrival));
    }
    proof {
        if q0.contains_key(node.id@) {
            let q = q0[node.id@];
            let k = crate::network::network::arrived_prefix(q, slot);
            crate::network::network::lemma_arrived_prefix_bound(q, slot);
            assert(msgs@.map_values(|m: Message| m@).len() == msgs@.len());
            assert(msgs@.len() == k);
            assert forall|i: int| 0 <= i < msgs@.len() implies message_ok(
                (#[trigger] msgs@[i])@,
                a,
                s,
            ) by {
                assert(msgs@.map_values(|m: Message| m@)[i] == msgs@[i]@);
                assert(q.take(k as int).map_values(|e: (Slot, MessageView)| e.1)[i] == q[i].1);
                assert(message_ok(q0[node.id@][i].1, a, s));
            }
            assert forall|kk: Seq<char>, i: int|
                net.queues().contains_key(kk) && 0 <= i < net.queues()[kk].len() implies message_ok(
                #[trigger] net.queues()[kk][i].1,
                a,
                s,
            ) by {
                if kk == node.id@ {
                    assert(net.queues()[kk][i] == q[i + k]);
                    assert(message_ok(q0[kk][i + k].1, a, s));
                } else {
                    assert(message_ok(q0[kk][i].1, a, s));
                }
            }
        }
    }
    while msgs.len() > 0
        invariant
            node_ok(*node, a, s),
            node.id == old(node).id,
            net.wf(),
            net.hop_latency == old(net).hop_latency,
            queues_ok(net.queues(), a, s),
            metrics.wf(),
            metrics.total_blocks_authored == old(metrics).total_blocks_authored,
            a == metrics.total_blocks_authored as nat,
            s == slot as nat,
            metrics.precommits_broadcast == old(metrics).precommits_broadcast,
            metrics.finalization_rounds == old(metrics).finalization_rounds,
            metrics.slot_collisions == old(metrics).slot_collisions,
            metrics.total_slots == old(metrics).total_slots,
            metrics.validator_count == old(metrics).validator_count,
            metrics.max_height_achieved == old(metrics).max_height_achieved,
            metrics.node_final_heights == old(metrics).node_final_heights,
            metrics.node_finalized_heights == old(metrics).node_finalized_heights,
            slot + net.hop_latency <= u64::MAX,
            slot < 0x8000_0000_0000_0000,
            forall|i: int| 0 <= i < msgs@.len() ==> message_ok((#[trigger] msgs@[i])@, a, s),
            net.neighbors == old(net).neighbors,
            topo == old(net).topology(),
            arrival == (slot + old(net).hop_latency) as u64,
            ns.len() >= 1,
            ns.len() - 1 + msgs@.len() == all.len(),
            msgs@.map_values(|m: Message| m@) == all.skip(ns.len() - 1),
            ingress_trace(ns, qss, mss, all.take(ns.len() - 1), topo, arrival),
            node.consensus == old(node).consensus,
            ns[0] == *old(node),
            qss[0] == drained(old(net).queues(), old(node).id@, slot),
            mss[0] == *old(metrics),
            ns.last() == *node,
            qss.last() == net.queues(),
            mss.last() == *metrics,
        decreases msgs@.len(),
    {
        let ghost before = msgs@;
        let ghost i = ns.len() - 1;
        let ghost n0 = *node;
        let ghost qs0 = net.queues();
        let ghost m0 = *metrics;
        let msg = msgs.remove(0);
        let ghost mv = msg@;
        proof {
            assert(before.map_values(|m: Message| m@)[0] == before[0]@);
            assert(all.skip(i)[0] == all[i]);
            assert(mv == all[i]);
            let mvs = msgs@.map_values(|m: Message| m@);
            assert forall|j: int| 0 <= j < msgs@.len() implies #[trigger] mvs[j] == all.skip(
                i + 1,
            )[j] by {
                assert(msgs@[j] == before[j + 1]);
                assert(before.map_values(|m: Message| m@)[j + 1] == before[j + 1]@);
                assert(all.skip(i)[j + 1] == all[i + 1 + j]);
            }
            assert(mvs =~= all.skip(i + 1));
        }
        assert(message_ok(before[0]@, a, s));
        assert forall|i: int| 0 <= i < msgs@.len() implies message_ok((#[trigger] msgs@[i])@, a, s) by {
            assert(msgs@[i] == before[i + 1]);
        }
        match msg {
            Message::Block(b) => {
                if node.imported_blocks < u64::MAX {
                    proof {
                        lemma_ranks_defined(*node, a, s);
                    }
                    let copy = b.clone();
                    let ghost cg = copy;
                    let res = node.import_block(copy);
                    proof {
                        assert(import_effect(n0, cg, *node, res));
                    }
                    match res {
                        Some(depth) => {
                            metrics.record_reorg(depth);
                            gossip(net, node.id.as_str(), Message::Block(b), slot, Ghost(a), Ghost(s));
                        },
                        None => {},
                    }
                    proof {
                        assert(ingress_step(n0, qs0, m0, mv, topo, arrival, *node, net.queues(), *metrics));

                        assert forall|h: types::Hash| #[trigger]
                            node.blocks.map().contains_key(h) implies header_bounded(
                            node.blocks.map()[h].header,
                            a,
                            s,
                        ) by {
                            if n0.blocks.map().contains_key(h) && h != b.header.id() {
                            } else if h == b.header.id() && !n0.seen_blocks.set().contains(h) {
                            } else {
                                assert(n0.blocks.map().contains_key(h));
                            }
                        }
                    }
                }
            },
            Message::Precommit(p) => {
                if metrics.precommits_received < u64::MAX {
                    metrics.record_precommit_received();
                }
                node.handle_precommit(p.clone());
                gossip(net, node.id.as_str(), Message::Precommit(p), slot, Ghost(a), Ghost(s));
            },
            Message::Header(_) => {},
        }
        proof {
            assert(ingress_step(n0, qs0, m0, mv, topo, arrival, *node, net.queues(), *metrics));
            let ns2 = ns.push(*node);
            let qss2 = qss.push(net.queues());
            let mss2 = mss.push(*metrics);
            let ms2 = all.take(i + 1);
            assert forall|j: int| 0 <= j < ms2.len() implies #[trigger] ingress_step(
                ns2[j],
                qss2[j],
                mss2[j],
                ms2[j],
                topo,
                arrival,
                ns2[j + 1],
                qss2[j + 1],
                mss2[j + 1],
            ) by {
                if j < i {
                    assert(ms2[j] == all.take(i)[j]);
                    assert(ingress_step(
                        ns[j],
                        qss[j],
                        mss[j],
                        all.take(i)[j],
                        topo,
                        arrival,
                        ns[j + 1],
                        qss[j + 1],
                        mss[j + 1],
                    ));
                }
            }
            assert(ingress_trace(ns2, qss2, mss2, ms2, topo, arrival));
            ns = ns2;
            qss = qss2;
            mss = mss2;
        }
    }
    proof {
        assert(all.take(all.len() as int) =~= all);
        assert(ingress_trace(ns, qss, mss, all, topo, arrival));
    }
}

} // verus!

verus! {

/// A node's own turn in a slot: it proposes if it wins the slot (counting
/// and gossiping the block), then broadcasts and handles its own precommit
/// for its best head, counting a finalization round when its finalized
/// height rises. Returns whether it authored a block.
fn node_turn(
    node: &mut Node,
    net: &mut NetworkSimulator,
    metrics: &mut SimMetrics,
    slot: Slot,
    randomness: [u8; 32],
) -> (authored: bool)
    requires
        node_ok(*old(node), old(metrics).total_blocks_authored as nat, slot as nat),
        old(net).wf(),
        queues_ok(old(net).queues(), old(metrics).total_blocks_authored as nat, slot as nat),
        old(metrics).wf(),
        slot + old(net).hop_latency <= u64::MAX,
        old(metrics).total_blocks_authored < u64::MAX,
        old(metrics).precommits_broadcast < u64::MAX,
        old(metrics).finalization_rounds < u64::MAX,
    ensures
        node_ok(*final(node), final(metrics).total_blocks_authored as nat, slot as nat),
        final(node).id == old(node).id,
        final(net).wf(),
        final(net).hop_latency == old(net).hop_latency,
        queues_ok(final(net).queues(), final(metrics).total_blocks_authored as nat, slot as nat),
        final(metrics).wf(),
        final(metrics).total_blocks_authored == old(metrics).total_blocks_authored + if authored {
            1int
        } else {
            0int
        },
        final(metrics).precommits_broadcast == old(metrics).precommits_broadcast + 1,
        final(metrics).finalization_rounds <= old(metrics).finalization_rounds + 1,
        old(metrics).max_height_achieved <= old(metrics).total_blocks_authored
            ==> final(metrics).max_height_achieved <= final(metrics).total_blocks_authored,
        final(metrics).slot_collisions == old(metrics).slot_collisions,
        final(metrics).total_slots == old(metrics).total_slots,
        final(metrics).validator_count == old(metrics).validator_count,
        final(metrics).node_final_heights == old(metrics).node_final_heights,
        final(metrics).node_finalized_heights == old(metrics).node_finalized_heights,
        final(net).neighbors == old(net).neighbors,
        final(node).consensus == old(node).consensus,
        authored == old(node).consensus.wins(randomness@),
        turn_effect(
            *old(node),
            old(net).queues(),
            *old(metrics),
            old(net).topology(),
            slot,
            randomness@,
            (slot + old(net).hop_latency) as u64,
            *final(node),
            final(net).queues(),
            *final(metrics),
        ),
{
    let ghost a0 = metrics.total_blocks_authored as nat;
    let ghost s = slot as nat;
    let ghost topo = net.topology();
    let ghost arrival = (slot + net.hop_latency) as u64;
    let ghost q0 = net.queues();
    let ghost m0 = *metrics;
    let mut authored = false;
    proof {
        assert(old(node).blocks.map().contains_key(old(node).best_head_hash));
        assert(header_bounded(old(node).blocks.map()[old(node).best_head_hash].header, a0, s));
    }
    let ghost n0 = *node;
    match node.propose_block(slot, randomness) {
        Some(block) => {
            metrics.record_authorship();
            metrics.update_max_height(block.header.number);
            let ghost a1 = metrics.total_blocks_authored as nat;
            proof {
                assert(n0.consensus.wins(randomness@));
                assert(n0.authors(*node, block, slot));
                assert(block.header.number <= a1);
                assert(header_bounded(block.header, a1, s));
                lemma_queues_ok_weaken(net.queues(), a0, s, a1, s);
                assert forall|h: types::Hash| #[trigger]
                    node.blocks.map().contains_key(h) implies header_bounded(
                    node.blocks.map()[h].header,
                    a1,
                    s,
                ) by {
                    if h == block.header.id() {
                        assert(node.blocks.map()[h].header == block.header);
                    } else {
                        let rid = block.header.id();
                        assert(node.blocks.map().remove(rid).contains_key(h));
                        assert(n0.blocks.map().remove(rid).contains_key(h));
                        assert(node.blocks.map().remove(rid)[h] == node.blocks.map()[h]);
                        assert(n0.blocks.map().remove(rid)[h] == n0.blocks.map()[h]);
                        assert(n0.blocks.map().contains_key(h));
                        assert(header_bounded(n0.blocks.map()[h].header, a0, s));
                    }
                }
            }
            let ghost bg = block;
            gossip(net, node.id.as_str(), Message::Block(block), slot, Ghost(a1), Ghost(s));
            proof {
                assert(n0.authors(*node, bg, slot));
                assert(propose_effect(n0, q0, m0, topo, slot, randomness@, arrival, *node, net.queues(), *metrics));
            }
            authored = true;
        },
        None => {},
    }
    let ghost na = *node;
    let ghost qsa = net.queues();
    let ghost ma = *metrics;
    assert(propose_effect(n0, q0, m0, topo, slot, randomness@, arrival, na, qsa, ma));
    let ghost a = metrics.total_blocks_authored as nat;
    let old_finalized = node.finalized_height;
    let precommit = node.create_precommit(slot);
    assert(precommit == own_precommit(na, slot));
    metrics.record_precommit_broadcast();
    node.handle_precommit(precommit.clone());
    gossip(net, node.id.as_str(), Message::Precommit(precommit), slot, Ghost(a), Ghost(s));
    if node.finalized_height > old_finalized {
        metrics.record_finalization_round();
    }
    proof {
        assert(turn_effect(n0, q0, m0, topo, slot, randomness@, arrival, *node, net.queues(), *metrics));
    }
    authored
}

/// The text of a node id, "node_" and a digit.
pub open spec fn node_name(k: int) -> Seq<char> {
    seq!['n', 'o', 'd', 'e', '_', ('0' as int + k) as char]
}

/// A snapshot of a run: the nodes, the ingress queues, the topology and
/// the metrics.
pub type Snapshot = (
    Seq<Node>,
    Map<Seq<char>, Seq<(Slot, MessageView)>>,
    Map<Seq<char>, Seq<Seq<char>>>,
    SimMetrics,
);

/// The slot randomness: the slot number modulo 256 in the first byte, the
/// other 31 bytes zero.
pub open spec fn slot_randomness(slot: Slot) -> Seq<u8> {
    Seq::new(32, |i: int| if i == 0 { (slot % 256) as u8 } else { 0u8 })
}

/// The topology after the partition events of `slot`: the link node_1 --
/// node_2 is cut at `partition_start` and restored at `partition_end`
/// (when not 0).
pub open spec fn partition_topology(
    t: Map<Seq<char>, Seq<Seq<char>>>,
    slot: Slot,
    cfg: SimConfig,
) -> Map<Seq<char>, Seq<Seq<char>>> {
    let a = node_name(1);
    let b = node_name(2);
    let cut = if slot == cfg.partition_start {
        unlink(unlink(t, a, b), b, a)
    } else {
        t
    };
    if cfg.partition_end > 0 && slot == cfg.partition_end {
        link(link(cut, a, b), b, a)
    } else {
        cut
    }
}

/// How many of the first `j` nodes win a slot with this randomness.
pub open spec fn count_wins(ns: Seq<Node>, randomness: Seq<u8>, j: int) -> nat
    decreases j,
{
    if j <= 0 {
        0
    } else {
        count_wins(ns, randomness, j - 1) + if ns[j - 1].consensus.wins(randomness) {
            1nat
        } else {
            0nat
        }
    }
}

/// Nodes with the same lottery win the same number of times.
proof fn lemma_count_wins_same(ns1: Seq<Node>, ns2: Seq<Node>, randomness: Seq<u8>, j: int)
    requires
        forall|k: int| 0 <= k < j ==> #[trigger] ns1[k].consensus == ns2[k].consensus,
    ensures
        count_wins(ns1, randomness, j) == count_wins(ns2, randomness, j),
    decreases j,
{
    if j > 0 {
        lemma_count_wins_same(ns1, ns2, randomness, j - 1);
        assert(ns1[j - 1].consensus == ns2[j - 1].consensus);
    }
}

/// The close of a slot: a collision is counted when more than one node
/// won the slot, then convergence of the heads is observed.
pub open spec fn slot_close(m0: SimMetrics, slot: Slot, ns: Seq<Node>, m1: SimMetrics) -> bool {
    let mid = if count_wins(ns, slot_randomness(slot), 3) > 1 {
        m0.with_collision(slot)
    } else {
        m0
    };
    mid.observed(
        slot,
        seq![ns[0].best_head_hash, ns[1].best_head_hash, ns[2].best_head_hash],
        m1,
    )
}

/// Phase `p` of the slot with index `k` (slot `k + 1`) takes snapshot `a`
/// to `b`. Phase 0: the partition events. Phases 1, 3, 5: node 0, 1, 2
/// drains its ingress queue. Phases 2, 4, 6: node 0, 1, 2 takes its own
/// turn. Phase 7: the slot closes.
#[verifier::opaque]
pub open spec fn run_phase(cfg: SimConfig, k: int, p: int, a: Snapshot, b: Snapshot) -> bool {
    let slot = (k + 1) as u64;
    let arrival = (slot + cfg.hop_latency) as u64;
    if p == 0 {
        &&& b.0 == a.0
        &&& b.1 == a.1
        &&& b.3 == a.3
        &&& b.2 == partition_topology(a.2, slot, cfg)
    } else if p == 7 {
        &&& b.0 == a.0
        &&& b.1 == a.1
        &&& b.2 == a.2
        &&& slot_close(a.3, slot, a.0, b.3)
    } else if p % 2 == 1 {
        let j = (p - 1) / 2;
        &&& b.2 == a.2
        &&& b.0 == a.0.update(j, b.0[j])
        &&& ingress_reaches(
            a.0[j],
            drained(a.1, a.0[j].id@, slot),
            a.3,
            polled(a.1, a.0[j].id@, slot),
            a.2,
            arrival,
            b.0[j],
            b.1,
            b.3,
        )
    } else {
        let j = (p - 2) / 2;
        &&& b.2 == a.2
        &&& b.0 == a.0.update(j, b.0[j])
        &&& turn_effect(
            a.0[j],
            a.1,
            a.3,
            a.2,
            slot,
            slot_randomness(slot),
            arrival,
            b.0[j],
            b.1,
            b.3,
        )
    }
}

/// The nine snapshots of the slot with index `k` follow its eight phases.
pub open spec fn slot_ok(cfg: SimConfig, k: int, ph: Seq<Snapshot>) -> bool {
    &&& ph.len() == 9
    &&& forall|p: int| 0 <= p < 8 ==> run_phase(cfg, k, p, #[trigger] ph[p], ph[p + 1])
}

/// The first `n` slots of a run: `outs` holds the snapshots between slots,
/// `inner` the phase snapshots of each slot.
pub open spec fn run_prefix(
    cfg: SimConfig,
    outs: Seq<Snapshot>,
    inner: Seq<Seq<Snapshot>>,
    n: int,
) -> bool {
    &&& outs.len() == n + 1
    &&& inner.len() == n
    &&& forall|k: int|
        0 <= k < n ==> {
            &&& slot_ok(cfg, k, #[trigger] inner[k])
            &&& inner[k][0] == outs[k]
            &&& inner[k][8] == outs[k + 1]
        }
}

/// A node as `Node::new` makes it for a run.
pub open spec fn fresh_node(n: Node, id: Seq<char>, threshold: u64, total_validators: usize) -> bool {
    &&& n.inv()
    &&& n.id@ == id
    &&& n.consensus.validator_id@ == id
    &&& n.consensus.threshold == threshold
    &&& n.blocks.key_seq().len() == 1
    &&& node::is_genesis(n.blocks.map()[n.best_head_hash])
    &&& n.best_head_hash == n.blocks.map()[n.best_head_hash].header.id()
    &&& n.seen_blocks.set() == Set::<types::Hash>::empty().insert(n.best_head_hash)
    &&& n.finalized_hash == n.best_head_hash
    &&& n.finalized_height == 0
    &&& n.proposed_blocks == 0
    &&& n.imported_blocks == 0
    &&& n.supermajority_threshold == (total_validators * 2 + 2) / 3
    &&& n.grandpa_votes.map() == Map::<Seq<char>, types::Hash>::empty()
    &&& n.runtime.state.map() == Map::<Seq<u8>, Seq<u8>>::empty()
}

/// The queues of a fresh run: an empty queue for each node.
pub open spec fn initial_queues() -> Map<Seq<char>, Seq<(Slot, MessageView)>> {
    Map::<Seq<char>, Seq<(Slot, MessageView)>>::empty().insert(node_name(0), Seq::empty()).insert(
        node_name(1),
        Seq::empty(),
    ).insert(node_name(2), Seq::empty())
}

/// The topology of a fresh run: the line node_0 -- node_1 -- node_2.
pub open spec fn initial_topology() -> Map<Seq<char>, Seq<Seq<char>>> {
    let base = Map::<Seq<char>, Seq<Seq<char>>>::empty().insert(node_name(0), Seq::empty()).insert(
        node_name(1),
        Seq::empty(),
    ).insert(node_name(2), Seq::empty());
    let t = link(link(base, node_name(0), node_name(1)), node_name(1), node_name(0));
    link(link(t, node_name(1), node_name(2)), node_name(2), node_name(1))
}

/// The snapshot a run starts from.
pub open spec fn run_start(cfg: SimConfig, st: Snapshot) -> bool {
    &&& st.0.len() == 3
    &&& forall|k: int|
        0 <= k < 3 ==> fresh_node(
            #[trigger] st.0[k],
            node_name(k),
            cfg.consensus_threshold,
            cfg.total_validators,
        )
    &&& st.1 == initial_queues()
    &&& st.2 == initial_topology()
    &&& st.3.wf()
    &&& st.3.total_slots == cfg.total_slots
    &&& st.3.validator_count == 3
    &&& st.3.total_blocks_authored == 0
    &&& st.3.max_height_achieved == 0
    &&& st.3.slot_collisions == 0
    &&& st.3.node_final_heights.key_seq().len() == 0
    &&& st.3.node_finalized_heights.key_seq().len() == 0
    &&& st.3.open_fork_slot is None
    &&& st.3.convergence_latencies@.len() == 0
    &&& st.3.reorg_depths@.len() == 0
    &&& st.3.precommits_broadcast == 0
    &&& st.3.precommits_received == 0
    &&& st.3.equivocations_detected == 0
    &&& st.3.finalization_rounds == 0
}

/// The head heights of the first `k` nodes, by node id.
pub open spec fn head_heights(ns: Seq<Node>, k: int) -> Map<Seq<char>, u64>
    decreases k,
{
    if k <= 0 {
        Map::empty()
    } else {
        head_heights(ns, k - 1).insert(node_name(k - 1), ns[k - 1].head_height())
    }
}

/// The finalized heights of the first `k` nodes, by node id.
pub open spec fn finalized_heights(ns: Seq<Node>, k: int) -> Map<Seq<char>, u64>
    decreases k,
{
    if k <= 0 {
        Map::empty()
    } else {
        finalized_heights(ns, k - 1).insert(node_name(k - 1), ns[k - 1].finalized_height)
    }
}

/// The metrics a run returns from its last snapshot: each node's final head
/// height and finalized height recorded under its id.
pub open spec fn run_finish(st: Snapshot, m: SimMetrics) -> bool {
    &&& m.node_final_heights.map() == st.3.node_final_heights.map().union_prefer_right(
        head_heights(st.0, 3),
    )
    &&& m.node_finalized_heights.map() == st.3.node_finalized_heights.map().union_prefer_right(
        finalized_heights(st.0, 3),
    )
    &&& m == (SimMetrics {
        node_final_heights: m.node_final_heights,
        node_finalized_heights: m.node_finalized_heights,
        ..st.3
    })
}

/// `m` is what a run of `cfg` returns: snapshots from the start through
/// every phase of slots 1 to `total_slots`, then the final record.
pub open spec fn run_reaches(cfg: SimConfig, m: SimMetrics) -> bool {
    exists|outs: Seq<Snapshot>, inner: Seq<Seq<Snapshot>>|
        {
            &&& #[trigger] run_prefix(cfg, outs, inner, cfg.total_slots as int)
            &&& run_start(cfg, outs[0])
            &&& run_finish(outs.last(), m)
        }
}


/// Runs one experiment: three validators in a line (node_0 -- node_1 --
/// node_2), slots 1 to `total_slots`, the link node_1 -- node_2 cut at
/// `partition_start` and restored at `partition_end` (when not 0). Each
/// slot every node drains its ingress queue, may propose, and broadcasts a
/// precommit for its best head; a slot with several authors opens a fork,
/// and agreement of all heads closes it.
pub fn run_experiment(cfg: &SimConfig) -> (metrics: SimMetrics)
    requires
        3 * cfg.total_slots <= u64::MAX,
        cfg.total_slots + cfg.hop_latency <= u64::MAX,
        cfg.total_validators * 2 + 2 <= usize::MAX,
    ensures
        metrics.wf(),
        metrics.total_slots == cfg.total_slots,
        metrics.validator_count == 3,
        metrics.precommits_broadcast == 3 * cfg.total_slots,
        metrics.total_blocks_authored <= 3 * cfg.total_slots,
        metrics.finalization_rounds <= 3 * cfg.total_slots,
        metrics.slot_collisions <= cfg.total_slots,
        metrics.max_height_achieved <= metrics.total_blocks_authored,
        metrics.node_final_heights.map().dom() == set![node_name(0), node_name(1), node_name(2)],
        metrics.node_finalized_heights.map().dom() == set![
            node_name(0),
            node_name(1),
            node_name(2),
        ],
        run_reaches(*cfg, metrics),
{
    let mut net = NetworkSimulator::new(cfg.hop_latency);
    let mut metrics = SimMetrics::new(cfg.total_slots, 3);
    let id0 = String::from_str("node_0");
    let id1 = String::from_str("node_1");
    let id2 = String::from_str("node_2");
    proof {
        reveal_strlit("node_0");
        reveal_strlit("node_1");
        reveal_strlit("node_2");
        assert(id0@ =~= node_name(0));
        assert(id1@ =~= node_name(1));
        assert(id2@ =~= node_name(2));
        lemma_short_text_fits(id0@);
        lemma_short_text_fits(id1@);
        lemma_short_text_fits(id2@);
    }
    net.register_node(id0.clone());
    net.register_node(id1.clone());
    net.register_node(id2.clone());
    net.add_neighbor("node_0", "node_1");
    net.add_neighbor("node_1", "node_2");
    let mut nodes: Vec<Node> = Vec::new();
    nodes.push(Node::new(id0, cfg.consensus_threshold, cfg.total_validators));
    nodes.push(Node::new(id1, cfg.consensus_threshold, cfg.total_validators));
    nodes.push(Node::new(id2, cfg.consensus_threshold, cfg.total_validators));
    proof {
        assert forall|k: int| 0 <= k < 3 implies node_ok(#[trigger] nodes@[k], 0, 0) by {
            let n = nodes@[k];
            assert forall|h: types::Hash| #[trigger] n.blocks.map().contains_key(h) implies header_bounded(
                n.blocks.map()[h].header,
                0,
                0,
            ) by {
                n.blocks.lemma_wf();
                assert(n.blocks.key_seq().contains(h));
                assert(n.blocks.key_seq()[0] == h);
            }
        }
        assert(queues_ok(net.queues(), 0, 0));
    }
    let ghost mut outs: Seq<Snapshot> = seq![(nodes@, net.queues(), net.topology(), metrics)];
    let ghost mut inner: Seq<Seq<Snapshot>> = Seq::empty();
    proof {
        assert("node_0"@ =~= node_name(0));
        assert("node_1"@ =~= node_name(1));
        assert("node_2"@ =~= node_name(2));
        assert(net.queues() =~= initial_queues());
        assert(net.topology() =~= initial_topology());
        assert forall|k: int| 0 <= k < 3 implies fresh_node(
            #[trigger] nodes@[k],
            node_name(k),
            cfg.consensus_threshold,
            cfg.total_validators,
        ) by {}
        assert(run_start(*cfg, outs[0]));
        assert(run_prefix(*cfg, outs, inner, 0));
    }
    let mut randomness = [0u8; 32];
    let mut slot: u64 = 1;
    while slot <= cfg.total_slots
        invariant
            1 <= slot <= cfg.total_slots + 1,
            3 * cfg.total_slots <= u64::MAX,
            cfg.total_slots + cfg.hop_latency <= u64::MAX,
            nodes@.len() == 3,
            forall|k: int|
                0 <= k < 3 ==> node_ok(
                    #[trigger] nodes@[k],
                    metrics.total_blocks_authored as nat,
                    (slot - 1) as nat,
                ),
            nodes@[0].id@ == node_name(0),
            nodes@[1].id@ == node_name(1),
            nodes@[2].id@ == node_name(2),
            net.wf(),
            net.hop_latency == cfg.hop_latency,
            queues_ok(net.queues(), metrics.total_blocks_authored as nat, (slot - 1) as nat),
            metrics.wf(),
            metrics.total_slots == cfg.total_slots,
            metrics.validator_count == 3,
            metrics.precommits_broadcast == 3 * (slot - 1),
            metrics.total_blocks_authored <= 3 * (slot - 1),
            metrics.finalization_rounds <= 3 * (slot - 1),
            metrics.slot_collisions <= slot - 1,
            metrics.max_height_achieved <= metrics.total_blocks_authored,
            metrics.node_final_heights.key_seq().len() == 0,
            metrics.node_finalized_heights.key_seq().len() == 0,
            forall|i: int| 1 <= i < 32 ==> randomness@[i] == 0u8,
            run_prefix(*cfg, outs, inner, (slot - 1) as int),
            run_start(*cfg, outs[0]),
            outs.last() == (nodes@, net.queues(), net.topology(), metrics),
        decreases cfg.total_slots + 1 - slot,
    {
        let ghost st0: Snapshot = (nodes@, net.queues(), net.topology(), metrics);
        proof {
            reveal_strlit("node_1");
            reveal_strlit("node_2");
            assert("node_1"@ =~= node_name(1));
            assert("node_2"@ =~= node_name(2));
        }
        // Network partition events
        if slot == cfg.partition_start {
            net.disconnect("node_1", "node_2");
        }
        if cfg.partition_end > 0 && slot == cfg.partition_end {
            net.connect("node_1", "node_2");
        }
        randomness[0] = (slot % 256) as u8;
        let mut authors_this_slot: u64 = 0;
        let ghost mut ph: Seq<Snapshot> = seq![st0, (nodes@, net.queues(), net.topology(), metrics)];
        proof {
            assert(randomness@ =~= slot_randomness(slot));
            assert(net.topology() == partition_topology(st0.2, slot, *cfg));
            assert(run_phase(*cfg, slot - 1, 0, ph[0], ph[1])) by {
                reveal(run_phase);
            }
            assert(count_wins(nodes@, slot_randomness(slot), 0) == 0);
        }
        proof {
            lemma_queues_ok_weaken(
                net.queues(),
                metrics.total_blocks_authored as nat,
                (slot - 1) as nat,
                metrics.total_blocks_authored as nat,
                slot as nat,
            );
            assert forall|k: int| 0 <= k < 3 implies node_ok(
                #[trigger] nodes@[k],
                metrics.total_blocks_authored as nat,
                slot as nat,
            ) by {
                lemma_node_ok_weaken(
                    nodes@[k],
                    metrics.total_blocks_authored as nat,
                    (slot - 1) as nat,
                    metrics.total_blocks_authored as nat,
                    slot as nat,
                );
            }
        }
        let mut j: usize = 0;
        while j < 3
            invariant
                1 <= slot <= cfg.total_slots,
                3 * cfg.total_slots <= u64::MAX,
                cfg.total_slots + cfg.hop_latency <= u64::MAX,
                0 <= j <= 3,
                nodes@.len() == 3,
                forall|k: int|
                    0 <= k < 3 ==> node_ok(
                        #[trigger] nodes@[k],
                        metrics.total_blocks_authored as nat,
                        slot as nat,
                    ),
                nodes@[0].id@ == node_name(0),
                nodes@[1].id@ == node_name(1),
                nodes@[2].id@ == node_name(2),
                net.wf(),
                net.hop_latency == cfg.hop_latency,
                queues_ok(net.queues(), metrics.total_blocks_authored as nat, slot as nat),
                metrics.wf(),
                metrics.total_slots == cfg.total_slots,
                metrics.validator_count == 3,
                metrics.precommits_broadcast == 3 * (slot - 1) + j,
                metrics.total_blocks_authored <= 3 * (slot - 1) + j,
                metrics.finalization_rounds <= 3 * (slot - 1) + j,
                metrics.slot_collisions <= slot - 1,
                metrics.max_height_achieved <= metrics.total_blocks_authored,
                metrics.node_final_heights.key_seq().len() == 0,
                metrics.node_finalized_heights.key_seq().len() == 0,
                authors_this_slot <= j,
                randomness@ == slot_randomness(slot),
                run_prefix(*cfg, outs, inner, (slot - 1) as int),
                run_start(*cfg, outs[0]),
                ph.len() == 2 + 2 * j,
                ph[0] == outs.last(),
                forall|p: int|
                    0 <= p < ph.len() - 1 ==> run_phase(
                        *cfg,
                        slot - 1,
                        p,
                        #[trigger] ph[p],
                        ph[p + 1],
                    ),
                ph.last() == (nodes@, net.queues(), net.topology(), metrics),
                authors_this_slot == count_wins(nodes@, slot_randomness(slot), j as int),
            decreases 3 - j,
        {
            let ghost before = nodes@;
            let ghost a0 = metrics.total_blocks_authored as nat;
            let ghost q_b = net.queues();
            let ghost t_b = net.topology();
            let ghost m_b = metrics;
            let mut node = nodes.remove(j);
            assert(node == before[j as int]);
            process_ingress(&mut node, &mut net, &mut metrics, slot);
            let ghost n_mid = node;
            let ghost q_mid = net.queues();
            let ghost m_mid = metrics;
            let authored = node_turn(&mut node, &mut net, &mut metrics, slot, randomness);
            if authored {
                authors_this_slot = authors_this_slot + 1;
            }
            nodes.insert(j, node);
            proof {
                let jj = j as int;
                let s1: Snapshot = (before.update(jj, n_mid), q_mid, t_b, m_mid);
                let s2: Snapshot = (nodes@, net.queues(), net.topology(), metrics);
                assert(nodes@ =~= before.update(jj, node));
                assert(s1.0[jj] == n_mid);
                assert(s1.0.update(jj, node) =~= nodes@);
                assert(s1.0 =~= before.update(jj, s1.0[jj]));
                assert((1 + 2 * jj - 1) / 2 == jj);
                assert((2 + 2 * jj - 2) / 2 == jj);
                assert(run_phase(*cfg, slot - 1, 1 + 2 * jj, ph.last(), s1)) by {
                    reveal(run_phase);
                }
                assert(run_phase(*cfg, slot - 1, 2 + 2 * jj, s1, s2)) by {
                    reveal(run_phase);
                }
                let ph2 = ph.push(s1).push(s2);
                assert forall|p: int| 0 <= p < ph2.len() - 1 implies run_phase(
                    *cfg,
                    slot - 1,
                    p,
                    #[trigger] ph2[p],
                    ph2[p + 1],
                ) by {
                    if p < ph.len() - 1 {
                        assert(ph2[p] == ph[p]);
                        assert(ph2[p + 1] == ph[p + 1]);
                    } else if p == ph.len() - 1 {
                        assert(ph2[p] == ph.last());
                        assert(ph2[p + 1] == s1);
                    } else {
                        assert(ph2[p] == s1);
                        assert(ph2[p + 1] == s2);
                    }
                }
                assert(ph2[0] == ph[0]);
                ph = ph2;
                lemma_count_wins_same(nodes@, before, slot_randomness(slot), jj);
                assert(nodes@[jj].consensus == before[jj].consensus);
            }
            proof {
                let a1 = metrics.total_blocks_authored as nat;
                assert forall|k: int| 0 <= k < 3 implies node_ok(
                    #[trigger] nodes@[k],
                    a1,
                    slot as nat,
                ) by {
                    if k != j {
                        assert(nodes@[k] == before[k]);
                        lemma_node_ok_weaken(before[k], a0, slot as nat, a1, slot as nat);
                    }
                }
            }
            j = j + 1;
        }
        let ghost m_close = metrics;
        if authors_this_slot > 1 {
            metrics.record_collision(slot);
        }
        let mut heads: Vec<types::Hash> = Vec::new();
        let mut k: usize = 0;
        while k < 3
            invariant
                nodes@.len() == 3,
                0 <= k <= 3,
                forall|i: int| 0 <= i < k ==> heads@[i] == (#[trigger] nodes@[i]).best_head_hash,
                heads@.len() == k,
            decreases 3 - k,
        {
            heads.push(nodes[k].best_head_hash);
            k = k + 1;
        }
        metrics.observe_convergence(slot, heads.as_slice());
        proof {
            let k = slot - 1;
            assert(heads@ =~= seq![
                nodes@[0].best_head_hash,
                nodes@[1].best_head_hash,
                nodes@[2].best_head_hash,
            ]);
            let s3: Snapshot = (nodes@, net.queues(), net.topology(), metrics);
            assert(slot_close(m_close, slot, nodes@, metrics));
            assert(run_phase(*cfg, k, 7, ph.last(), s3)) by {
                reveal(run_phase);
            }
            let ph2 = ph.push(s3);
            assert forall|p: int| 0 <= p < 8 implies run_phase(
                *cfg,
                k,
                p,
                #[trigger] ph2[p],
                ph2[p + 1],
            ) by {
                if p < 7 {
                    assert(ph2[p] == ph[p]);
                    assert(ph2[p + 1] == ph[p + 1]);
                }
            }
            assert(slot_ok(*cfg, k, ph2));
            let outs2 = outs.push(s3);
            let inner2 = inner.push(ph2);
            assert forall|i: int| 0 <= i < k + 1 implies {
                &&& slot_ok(*cfg, i, #[trigger] inner2[i])
                &&& inner2[i][0] == outs2[i]
                &&& inner2[i][8] == outs2[i + 1]
            } by {
                if i < k {
                    assert(inner2[i] == inner[i]);
                    assert(outs2[i] == outs[i]);
                    assert(outs2[i + 1] == outs[i + 1]);
                }
            }
            assert(run_prefix(*cfg, outs2, inner2, k + 1));
            outs = outs2;
            inner = inner2;
        }
        slot = slot + 1;
    }
    let ghost mend = metrics;
    let mut k: usize = 0;
    while k < 3
        invariant
            nodes@.len() == 3,
            0 <= k <= 3,
            forall|i: int| 0 <= i < 3 ==> (#[trigger] nodes@[i]).inv(),
            metrics == (SimMetrics {
                node_final_heights: metrics.node_final_heights,
                node_finalized_heights: metrics.node_finalized_heights,
                ..mend
            }),
            metrics.node_final_heights.map() == mend.node_final_heights.map().union_prefer_right(
                head_heights(nodes@, k as int),
            ),
            metrics.node_finalized_heights.map()
                == mend.node_finalized_heights.map().union_prefer_right(
                finalized_heights(nodes@, k as int),
            ),
            nodes@[0].id@ == node_name(0),
            nodes@[1].id@ == node_name(1),
            nodes@[2].id@ == node_name(2),
            metrics.wf(),
            metrics.total_slots == cfg.total_slots,
            metrics.validator_count == 3,
            metrics.precommits_broadcast == 3 * cfg.total_slots,
            metrics.total_blocks_authored <= 3 * cfg.total_slots,
            metrics.finalization_rounds <= 3 * cfg.total_slots,
            metrics.slot_collisions <= cfg.total_slots,
            metrics.max_height_achieved <= metrics.total_blocks_authored,
            metrics.node_final_heights.map().dom() == Set::new(
                |t: Seq<char>| exists|i: int| 0 <= i < k && t == node_name(i),
            ),
            metrics.node_finalized_heights.map().dom() == Set::new(
                |t: Seq<char>| exists|i: int| 0 <= i < k && t == node_name(i),
            ),
        decreases 3 - k,
    {
        let node = &nodes[k];
        let ghost m_b = metrics;
        metrics.record_final_state(node.id.clone(), node.best_height(), node.finalized_height);
        proof {
            let kk = k as int;
            assert(head_heights(nodes@, kk + 1) == head_heights(nodes@, kk).insert(
                node_name(kk),
                nodes@[kk].head_height(),
            ));
            assert(finalized_heights(nodes@, kk + 1) == finalized_heights(nodes@, kk).insert(
                node_name(kk),
                nodes@[kk].finalized_height,
            ));
            assert(metrics.node_final_heights.map() =~= mend.node_final_heights.map().union_prefer_right(
                head_heights(nodes@, kk + 1),
            ));
            assert(metrics.node_finalized_heights.map()
                =~= mend.node_finalized_heights.map().union_prefer_right(
                finalized_heights(nodes@, kk + 1),
            ));
        }
        k = k + 1;
    }
    proof {
        assert(run_finish(outs.last(), metrics));
        assert(run_prefix(*cfg, outs, inner, cfg.total_slots as int));
    }
    metrics
}

} // verus!
