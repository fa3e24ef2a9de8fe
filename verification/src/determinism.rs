//! Determinism of a run: every step of the simulation depends only on the
//! contents of the state it starts from, so runs of equal configurations
//! agree at every slot and return the same metrics.
use vstd::prelude::*;
use crate::collections::ordered_map::OrderedMap;
use crate::primitives::types;
use crate::primitives::types::{Block, Header};
use crate::protocol::consensus;
use crate::protocol::node::{
    ancestry,
    common_ancestor,
    finality_target,
    fork_choice,
    header_seq,
    height_of,
    reorg_outcome,
    vote_support,
    Node,
};
use crate::protocol::grandpa::Precommit;
use crate::protocol::metrics::SimMetrics;
use crate::network::network::{MessageView, arrived_prefix, deliver};
use crate::simulation::{
    forward,
    polled,
    drained,
    ingress_step,
    ingress_trace,
    ingress_reaches,
    propose_effect,
    own_precommit,
    turn_effect,
    import_effect,
    precommit_effect,
};
use crate::primitives::types::Slot;
use crate::simulation::{
    SimConfig,
    Snapshot,
    count_wins,
    slot_close,
    slot_randomness,
    run_phase,
    slot_ok,
    run_prefix,
    run_start,
    run_finish,
    run_reaches,
    fresh_node,
    head_heights,
    finalized_heights,
    node_name,
};

verus! {

/// Two block stores agree: the same digests are stored, under headers that
/// agree field by field (the author by its text).
pub open spec fn stores_agree(m1: Map<types::Hash, Block>, m2: Map<types::Hash, Block>) -> bool {
    &&& m1.dom() == m2.dom()
    &&& forall|h: types::Hash| #[trigger] m1.contains_key(h) ==> m1[h].header.same_as(m2[h].header)
}

/// Two blocks agree: headers field by field, extrinsics by their contents.
pub open spec fn blocks_match(a: Block, b: Block) -> bool {
    a.header.same_as(b.header) && a.extrinsics_view() == b.extrinsics_view()
}

/// Two block sequences agree entry by entry.
pub open spec fn block_seqs_match(a: Seq<Block>, b: Seq<Block>) -> bool {
    &&& a.len() == b.len()
    &&& forall|i: int| 0 <= i < a.len() ==> blocks_match(#[trigger] a[i], b[i])
}

/// Block maps with the same keys and agreeing values agree.
pub proof fn lemma_stores_agree(b1: OrderedMap<types::Hash, Block>, b2: OrderedMap<types::Hash, Block>)
    requires
        b1.key_seq() == b2.key_seq(),
        b1.value_seq().len() == b1.key_seq().len(),
        block_seqs_match(b1.value_seq(), b2.value_seq()),
    ensures
        stores_agree(b1.map(), b2.map()),
        forall|h: types::Hash| #[trigger]
            b1.map().contains_key(h) ==> blocks_match(b1.map()[h], b2.map()[h]),
{
    let ks = b1.key_seq();
    assert(b1.map().dom() =~= b2.map().dom());
    assert forall|h: types::Hash| #[trigger] b1.map().contains_key(h) implies blocks_match(
        b1.map()[h],
        b2.map()[h],
    ) by {
        let i = ks.index_of(h);
        assert(ks.contains(h));
        assert(0 <= i < ks.len());
        assert(blocks_match(b1.value_seq()[i], b2.value_seq()[i]));
    }
}

pub proof fn lemma_ancestry_agree(
    m1: Map<types::Hash, Block>,
    m2: Map<types::Hash, Block>,
    h: types::Hash,
    fuel: nat,
)
    requires
        stores_agree(m1, m2),
    ensures
        ancestry(m1, h, fuel) == ancestry(m2, h, fuel),
    decreases fuel,
{
    assert(m1.contains_key(h) == m2.contains_key(h));
    if fuel > 0 && !h.is_zero() && m1.contains_key(h) {
        assert(m1[h].header.parent_hash == m2[h].header.parent_hash);
        lemma_ancestry_agree(m1, m2, m1[h].header.parent_hash, (fuel - 1) as nat);
    }
}

pub proof fn lemma_common_ancestor_agree(
    m1: Map<types::Hash, Block>,
    m2: Map<types::Hash, Block>,
    h1: types::Hash,
    h2: types::Hash,
    fuel: nat,
)
    requires
        stores_agree(m1, m2),
    ensures
        common_ancestor(m1, h1, h2, fuel) == common_ancestor(m2, h1, h2, fuel),
        height_of(m1, h1) == height_of(m2, h1),
        height_of(m1, h2) == height_of(m2, h2),
{
    lemma_ancestry_agree(m1, m2, h1, fuel);
    lemma_ancestry_agree(m1, m2, h2, fuel);
    assert(m1.contains_key(h1) == m2.contains_key(h1));
    assert(m1.contains_key(h2) == m2.contains_key(h2));
    if m1.contains_key(h1) {
        assert(m1[h1].header.same_as(m2[h1].header));
    }
    if m1.contains_key(h2) {
        assert(m1[h2].header.same_as(m2[h2].header));
    }
}

pub proof fn lemma_height_agree(m1: Map<types::Hash, Block>, m2: Map<types::Hash, Block>, h: types::Hash)
    requires
        stores_agree(m1, m2),
    ensures
        height_of(m1, h) == height_of(m2, h),
{
    assert(m1.contains_key(h) == m2.contains_key(h));
    if m1.contains_key(h) {
        assert(m1[h].header.same_as(m2[h].header));
    }
}

pub proof fn lemma_vote_support_agree(
    m1: Map<types::Hash, Block>,
    m2: Map<types::Hash, Block>,
    votes: Seq<types::Hash>,
    target: types::Hash,
    fuel: nat,
)
    requires
        stores_agree(m1, m2),
    ensures
        vote_support(m1, votes, target, fuel) == vote_support(m2, votes, target, fuel),
    decreases votes.len(),
{
    if votes.len() > 0 {
        lemma_vote_support_agree(m1, m2, votes.drop_last(), target, fuel);
        lemma_common_ancestor_agree(m1, m2, target, votes.last(), fuel);
    }
}

pub proof fn lemma_finality_target_agree(
    m1: Map<types::Hash, Block>,
    m2: Map<types::Hash, Block>,
    votes: Seq<types::Hash>,
    cur: types::Hash,
    finalized_height: u64,
    threshold: nat,
    fuel: nat,
    steps: nat,
)
    requires
        stores_agree(m1, m2),
    ensures
        finality_target(m1, votes, cur, finalized_height, threshold, fuel, steps) == finality_target(
            m2,
            votes,
            cur,
            finalized_height,
            threshold,
            fuel,
            steps,
        ),
    decreases steps,
{
    lemma_height_agree(m1, m2, cur);
    lemma_vote_support_agree(m1, m2, votes, cur, fuel);
    assert(m1.contains_key(cur) == m2.contains_key(cur));
    if m1.contains_key(cur) && steps > 0 {
        assert(m1[cur].header.parent_hash == m2[cur].header.parent_hash);
        lemma_finality_target_agree(
            m1,
            m2,
            votes,
            m1[cur].header.parent_hash,
            finalized_height,
            threshold,
            fuel,
            (steps - 1) as nat,
        );
    }
}

/// Header sequences whose heights and slots agree entry by entry.
pub open spec fn ranks_agree(hs1: Seq<Header>, hs2: Seq<Header>) -> bool {
    &&& hs1.len() == hs2.len()
    &&& forall|i: int|
        0 <= i < hs1.len() ==> (#[trigger] hs1[i]).number == hs2[i].number && hs1[i].slot
            == hs2[i].slot
}

pub proof fn lemma_best_index_agree(hs1: Seq<Header>, hs2: Seq<Header>)
    requires
        ranks_agree(hs1, hs2),
    ensures
        consensus::best_index(hs1) == consensus::best_index(hs2),
    decreases hs1.len(),
{
    if hs1.len() > 1 {
        let t1 = hs1.drop_last();
        let t2 = hs2.drop_last();
        assert forall|i: int| 0 <= i < t1.len() implies (#[trigger] t1[i]).number == t2[i].number
            && t1[i].slot == t2[i].slot by {
            assert(t1[i] == hs1[i]);
            assert(t2[i] == hs2[i]);
        }
        lemma_best_index_agree(t1, t2);
        consensus::lemma_best_index_maximal(t1);
        let i = consensus::best_index(t1);
        if 0 <= i < t1.len() {
            assert(hs1[i] == t1[i]);
            assert(hs2[i] == t2[i]);
        }
        assert(hs1.last().number == hs2.last().number);
    }
}

/// Fork choice and the re-org outcome depend only on the stored keys in
/// order and on the headers' fields.
pub proof fn lemma_reorg_outcome_agree(
    b1: OrderedMap<types::Hash, Block>,
    b2: OrderedMap<types::Hash, Block>,
    old_head: types::Hash,
    finalized_height: u64,
)
    requires
        b1.key_seq() == b2.key_seq(),
        b1.value_seq().len() == b1.key_seq().len(),
        block_seqs_match(b1.value_seq(), b2.value_seq()),
        b1.map().contains_key(old_head),
    ensures
        fork_choice(b1) == fork_choice(b2),
        reorg_outcome(b1, old_head, finalized_height) == reorg_outcome(b2, old_head, finalized_height),
{
    lemma_stores_agree(b1, b2);
    let hs1 = header_seq(b1);
    let hs2 = header_seq(b2);
    assert forall|i: int| 0 <= i < hs1.len() implies (#[trigger] hs1[i]).number == hs2[i].number
        && hs1[i].slot == hs2[i].slot by {
        assert(blocks_match(b1.value_seq()[i], b2.value_seq()[i]));
    }
    lemma_best_index_agree(hs1, hs2);
    let m1 = b1.map();
    let m2 = b2.map();
    let cand = fork_choice(b1);
    let ks = b1.key_seq();
    assert(ks.contains(old_head));
    let bi = consensus::best_index(hs1);
    if ks.len() > 0 {
        consensus::lemma_best_index_maximal(hs1);
        assert(ks.contains(ks[bi]));
        assert(m1.contains_key(cand));
        assert(m1[cand].header.same_as(m2[cand].header));
    }
    assert(m1[old_head].header.same_as(m2[old_head].header));
    lemma_common_ancestor_agree(m1, m2, old_head, cand, ks.len());
    let anc = common_ancestor(m1, old_head, cand, ks.len());
    lemma_height_agree(m1, m2, anc);
}


/// Agreeing block sequences stay agreeing when agreeing blocks are
/// appended or written at the same place.
pub proof fn lemma_block_seqs_push_update(a: Seq<Block>, b: Seq<Block>, x: Block, y: Block, i: int)
    requires
        block_seqs_match(a, b),
        blocks_match(x, y),
    ensures
        block_seqs_match(a.push(x), b.push(y)),
        0 <= i < a.len() ==> block_seqs_match(a.update(i, x), b.update(i, y)),
{
    assert forall|k: int| 0 <= k < a.push(x).len() implies blocks_match(
        #[trigger] a.push(x)[k],
        b.push(y)[k],
    ) by {
        if k < a.len() {
            assert(blocks_match(a[k], b[k]));
        }
    }
    if 0 <= i < a.len() {
        assert forall|k: int| 0 <= k < a.update(i, x).len() implies blocks_match(
            #[trigger] a.update(i, x)[k],
            b.update(i, y)[k],
        ) by {
            if k != i {
                assert(blocks_match(a[k], b[k]));
            }
        }
    }
}

/// Two nodes agree in everything a run observes or decides by: texts by
/// their contents, the stored blocks in arrival order with agreeing
/// blocks, and every counter, digest and vote.
pub open spec fn nodes_match(a: Node, b: Node) -> bool {
    &&& a.id@ == b.id@
    &&& a.consensus.validator_id@ == b.consensus.validator_id@
    &&& a.consensus.threshold == b.consensus.threshold
    &&& a.blocks.key_seq() == b.blocks.key_seq()
    &&& a.blocks.value_seq().len() == a.blocks.key_seq().len()
    &&& block_seqs_match(a.blocks.value_seq(), b.blocks.value_seq())
    &&& a.seen_blocks.set() == b.seen_blocks.set()
    &&& a.best_head_hash == b.best_head_hash
    &&& a.proposed_blocks == b.proposed_blocks
    &&& a.imported_blocks == b.imported_blocks
    &&& a.supermajority_threshold == b.supermajority_threshold
    &&& a.finalized_hash == b.finalized_hash
    &&& a.finalized_height == b.finalized_height
    &&& a.grandpa_votes.key_seq() == b.grandpa_votes.key_seq()
    &&& a.grandpa_votes.value_seq() == b.grandpa_votes.value_seq()
    &&& a.runtime.state.0.key_seq() == b.runtime.state.0.key_seq()
    &&& a.runtime.state.0.value_seq() == b.runtime.state.0.value_seq()
}

/// Agreeing nodes see the same head height and reach the same finality
/// decision, and win the same slots.
pub proof fn lemma_nodes_decide_alike(a: Node, b: Node)
    requires
        nodes_match(a, b),
    ensures
        stores_agree(a.blocks.map(), b.blocks.map()),
        a.head_height() == b.head_height(),
        a.finality_pick() == b.finality_pick(),
        a.fuel() == b.fuel(),
        a.grandpa_votes.map().dom() == b.grandpa_votes.map().dom(),
        forall|r: Seq<u8>| a.consensus.wins(r) == b.consensus.wins(r),
        a.runtime.state.root_digest() == b.runtime.state.root_digest(),
{
    lemma_stores_agree(a.blocks, b.blocks);
    lemma_height_agree(a.blocks.map(), b.blocks.map(), a.best_head_hash);
    lemma_finality_target_agree(
        a.blocks.map(),
        b.blocks.map(),
        a.grandpa_votes.value_seq(),
        a.best_head_hash,
        a.finalized_height,
        a.supermajority_threshold as nat,
        a.fuel(),
        a.fuel(),
    );
    assert(a.grandpa_votes.map().dom() =~= b.grandpa_votes.map().dom());
}

/// Importing agreeing blocks into agreeing nodes leaves agreeing nodes and
/// the same report.
pub proof fn lemma_import_agree(
    n0: Node,
    m0: Node,
    blk: Block,
    blk2: Block,
    n1: Node,
    m1: Node,
    r1: Option<u64>,
    r2: Option<u64>,
)
    requires
        nodes_match(n0, m0),
        n0.inv(),
        blocks_match(blk, blk2),
        crate::simulation::import_effect(n0, blk, n1, r1),
        crate::simulation::import_effect(m0, blk2, m1, r2),
    ensures
        nodes_match(n1, m1),
        r1 == r2,
{
    types::lemma_header_id_deterministic(blk.header, blk2.header);
    let id = blk.header.id();
    if !n0.seen_blocks.set().contains(id) {
        lemma_block_seqs_push_update(n0.blocks.value_seq(), m0.blocks.value_seq(), blk, blk2, 0);
        assert(n1.blocks.map().contains_key(n0.best_head_hash));
        lemma_reorg_outcome_agree(n1.blocks, m1.blocks, n0.best_head_hash, n0.finalized_height);
    }
}

/// Agreeing precommits handled by agreeing nodes leave agreeing nodes.
pub proof fn lemma_precommit_agree(
    n0: Node,
    m0: Node,
    p: Precommit,
    q: Precommit,
    n1: Node,
    m1: Node,
)
    requires
        nodes_match(n0, m0),
        p.target_hash == q.target_hash,
        p.voter_id@ == q.voter_id@,
        crate::simulation::precommit_effect(n0, p, n1),
        crate::simulation::precommit_effect(m0, q, m1),
    ensures
        nodes_match(n1, m1),
{
    lemma_nodes_decide_alike(n0, m0);
    assert(n0.blocks.map().contains_key(p.target_hash) == m0.blocks.map().contains_key(
        q.target_hash,
    ));
    if n0.blocks.map().contains_key(p.target_hash) {
        let mid1 = Node { grandpa_votes: n1.grandpa_votes, ..n0 };
        let mid2 = Node { grandpa_votes: m1.grandpa_votes, ..m0 };
        assert(n0.grandpa_votes.map().contains_key(p.voter_id@) == m0.grandpa_votes.map().contains_key(
            q.voter_id@,
        ));
        assert(nodes_match(mid1, mid2));
        lemma_nodes_decide_alike(mid1, mid2);
        match mid1.finality_pick() {
            Some(h) => {
                lemma_height_agree(n0.blocks.map(), m0.blocks.map(), h);
            },
            None => {},
        }
    }
}

/// Agreeing nodes author agreeing blocks and are left agreeing.
pub proof fn lemma_authors_agree(
    n0: Node,
    m0: Node,
    b1: Block,
    b2: Block,
    n1: Node,
    m1: Node,
    slot: u64,
)
    requires
        nodes_match(n0, m0),
        n0.authors(n1, b1, slot),
        m0.authors(m1, b2, slot),
    ensures
        blocks_match(b1, b2),
        nodes_match(n1, m1),
{
    lemma_nodes_decide_alike(n0, m0);
    types::Hash::lemma_bytes_determine(b1.header.state_root, b2.header.state_root);
    types::Hash::lemma_zero_unique(b1.header.extrinsics_root, b2.header.extrinsics_root);
    assert(b1.extrinsics_view() =~= b2.extrinsics_view());
    assert(b1.header.same_as(b2.header));
    types::lemma_header_id_deterministic(b1.header, b2.header);
    let id = b1.header.id();
    let x = n1.blocks.map()[id];
    let y = m1.blocks.map()[id];
    assert(blocks_match(x, y));
    assert(n0.blocks.map().contains_key(id) == m0.blocks.map().contains_key(id));
    if n0.blocks.map().contains_key(id) {
        let i = n0.blocks.key_seq().index_of(id);
        assert(n0.blocks.key_seq().contains(id));
        lemma_block_seqs_push_update(n0.blocks.value_seq(), m0.blocks.value_seq(), x, y, i);
    } else {
        lemma_block_seqs_push_update(n0.blocks.value_seq(), m0.blocks.value_seq(), x, y, 0);
    }
}


/// Two precommits agree, the voter by its text.
pub open spec fn precommits_match(p: Precommit, q: Precommit) -> bool {
    &&& p.target_hash == q.target_hash
    &&& p.target_height == q.target_height
    &&& p.voter_id@ == q.voter_id@
    &&& p.slot == q.slot
}

/// Two messages agree: the same kind, with agreeing contents.
pub open spec fn msg_match(a: MessageView, b: MessageView) -> bool {
    match a {
        MessageView::Block(h1, x1) => b matches MessageView::Block(h2, x2) && h1.same_as(h2) && x1
            == x2,
        MessageView::Header(h1) => b matches MessageView::Header(h2) && h1.same_as(h2),
        MessageView::Precommit(p1) => b matches MessageView::Precommit(p2) && precommits_match(
            p1,
            p2,
        ),
    }
}

/// Two message sequences agree entry by entry.
pub open spec fn msgs_match(a: Seq<MessageView>, b: Seq<MessageView>) -> bool {
    &&& a.len() == b.len()
    &&& forall|i: int| 0 <= i < a.len() ==> msg_match(#[trigger] a[i], b[i])
}

/// Two queues agree entry by entry: the same arrival slots, agreeing messages.
pub open spec fn entries_match(a: Seq<(Slot, MessageView)>, b: Seq<(Slot, MessageView)>) -> bool {
    &&& a.len() == b.len()
    &&& forall|i: int| 0 <= i < a.len() ==> (#[trigger] a[i]).0 == b[i].0 && msg_match(a[i].1, b[i].1)
}

/// Two sets of queues agree: the same nodes, with agreeing queues.
pub open spec fn queues_match(
    a: Map<Seq<char>, Seq<(Slot, MessageView)>>,
    b: Map<Seq<char>, Seq<(Slot, MessageView)>>,
) -> bool {
    &&& a.dom() == b.dom()
    &&& forall|k: Seq<char>| #[trigger] a.contains_key(k) ==> entries_match(a[k], b[k])
}

/// Two metrics agree in every counter and record, the height maps by
/// their contents.
pub open spec fn metrics_match(a: SimMetrics, b: SimMetrics) -> bool {
    &&& a.total_slots == b.total_slots
    &&& a.validator_count == b.validator_count
    &&& a.total_blocks_authored == b.total_blocks_authored
    &&& a.max_height_achieved == b.max_height_achieved
    &&& a.slot_collisions == b.slot_collisions
    &&& a.node_final_heights.map() == b.node_final_heights.map()
    &&& a.node_finalized_heights.map() == b.node_finalized_heights.map()
    &&& a.open_fork_slot == b.open_fork_slot
    &&& a.convergence_latencies@ == b.convergence_latencies@
    &&& a.reorg_depths@ == b.reorg_depths@
    &&& a.precommits_broadcast == b.precommits_broadcast
    &&& a.precommits_received == b.precommits_received
    &&& a.equivocations_detected == b.equivocations_detected
    &&& a.finalization_rounds == b.finalization_rounds
}

pub proof fn lemma_deliver_agree(
    a: Map<Seq<char>, Seq<(Slot, MessageView)>>,
    b: Map<Seq<char>, Seq<(Slot, MessageView)>>,
    peers: Seq<Seq<char>>,
    e1: (Slot, MessageView),
    e2: (Slot, MessageView),
)
    requires
        queues_match(a, b),
        e1.0 == e2.0,
        msg_match(e1.1, e2.1),
    ensures
        queues_match(deliver(a, peers, e1), deliver(b, peers, e2)),
    decreases peers.len(),
{
    if peers.len() > 0 {
        lemma_deliver_agree(a, b, peers.drop_last(), e1, e2);
        let x = deliver(a, peers.drop_last(), e1);
        let y = deliver(b, peers.drop_last(), e2);
        let p = peers.last();
        assert(x.contains_key(p) == y.contains_key(p));
        if x.contains_key(p) {
            let x2 = x.insert(p, x[p].push(e1));
            let y2 = y.insert(p, y[p].push(e2));
            assert(x2.dom() =~= y2.dom());
            assert forall|k: Seq<char>| #[trigger] x2.contains_key(k) implies entries_match(
                x2[k],
                y2[k],
            ) by {
                if k == p {
                    assert(entries_match(x[p], y[p]));
                    assert forall|i: int| 0 <= i < x2[k].len() implies (#[trigger] x2[k][i]).0
                        == y2[k][i].0 && msg_match(x2[k][i].1, y2[k][i].1) by {
                        if i < x[p].len() {
                            assert(x2[k][i] == x[p][i]);
                            assert(y2[k][i] == y[p][i]);
                        }
                    }
                } else {
                    assert(entries_match(x[k], y[k]));
                }
            }
        }
    }
}

pub proof fn lemma_forward_agree(
    a: Map<Seq<char>, Seq<(Slot, MessageView)>>,
    b: Map<Seq<char>, Seq<(Slot, MessageView)>>,
    topo: Map<Seq<char>, Seq<Seq<char>>>,
    sender: Seq<char>,
    e1: (Slot, MessageView),
    e2: (Slot, MessageView),
)
    requires
        queues_match(a, b),
        e1.0 == e2.0,
        msg_match(e1.1, e2.1),
    ensures
        queues_match(forward(a, topo, sender, e1), forward(b, topo, sender, e2)),
{
    if topo.contains_key(sender) {
        lemma_deliver_agree(a, b, topo[sender], e1, e2);
    }
}

pub proof fn lemma_arrived_agree(a: Seq<(Slot, MessageView)>, b: Seq<(Slot, MessageView)>, slot: Slot)
    requires
        entries_match(a, b),
    ensures
        arrived_prefix(a, slot) == arrived_prefix(b, slot),
    decreases a.len(),
{
    if a.len() > 0 {
        assert(a[0].0 == b[0].0);
        let a1 = a.drop_first();
        let b1 = b.drop_first();
        assert forall|i: int| 0 <= i < a1.len() implies (#[trigger] a1[i]).0 == b1[i].0
            && msg_match(a1[i].1, b1[i].1) by {
            assert(a1[i] == a[i + 1]);
            assert(b1[i] == b[i + 1]);
        }
        lemma_arrived_agree(a1, b1, slot);
    }
}

/// Agreeing queues yield agreeing polls and agreeing drained queues.
pub proof fn lemma_poll_agree(
    a: Map<Seq<char>, Seq<(Slot, MessageView)>>,
    b: Map<Seq<char>, Seq<(Slot, MessageView)>>,
    id: Seq<char>,
    slot: Slot,
)
    requires
        queues_match(a, b),
    ensures
        msgs_match(polled(a, id, slot), polled(b, id, slot)),
        queues_match(drained(a, id, slot), drained(b, id, slot)),
{
    if a.contains_key(id) {
        let qa = a[id];
        let qb = b[id];
        assert(entries_match(qa, qb));
        lemma_arrived_agree(qa, qb, slot);
        crate::network::network::lemma_arrived_prefix_bound(qa, slot);
        let k = arrived_prefix(qa, slot) as int;
        let pa = polled(a, id, slot);
        let pb = polled(b, id, slot);
        assert forall|i: int| 0 <= i < pa.len() implies msg_match(#[trigger] pa[i], pb[i]) by {
            assert(pa[i] == qa[i].1);
            assert(pb[i] == qb[i].1);
        }
        let da = drained(a, id, slot);
        let db = drained(b, id, slot);
        assert(da.dom() =~= db.dom());
        assert forall|kk: Seq<char>| #[trigger] da.contains_key(kk) implies entries_match(
            da[kk],
            db[kk],
        ) by {
            if kk == id {
                assert forall|i: int| 0 <= i < da[kk].len() implies (#[trigger] da[kk][i]).0
                    == db[kk][i].0 && msg_match(da[kk][i].1, db[kk][i].1) by {
                    assert(da[kk][i] == qa[i + k]);
                    assert(db[kk][i] == qb[i + k]);
                }
            } else {
                assert(entries_match(a[kk], b[kk]));
            }
        }
    }
}


/// One delivered message, agreeing in both runs, takes agreeing states to
/// agreeing states.
pub proof fn lemma_ingress_step_agree(
    n0: Node,
    q0: Map<Seq<char>, Seq<(Slot, MessageView)>>,
    m0: SimMetrics,
    msg: MessageView,
    n1: Node,
    q1: Map<Seq<char>, Seq<(Slot, MessageView)>>,
    m1: SimMetrics,
    n0b: Node,
    q0b: Map<Seq<char>, Seq<(Slot, MessageView)>>,
    m0b: SimMetrics,
    msgb: MessageView,
    n1b: Node,
    q1b: Map<Seq<char>, Seq<(Slot, MessageView)>>,
    m1b: SimMetrics,
    topo: Map<Seq<char>, Seq<Seq<char>>>,
    arrival: Slot,
)
    requires
        nodes_match(n0, n0b),
        n0.inv(),
        n0b.inv(),
        queues_match(q0, q0b),
        metrics_match(m0, m0b),
        msg_match(msg, msgb),
        ingress_step(n0, q0, m0, msg, topo, arrival, n1, q1, m1),
        ingress_step(n0b, q0b, m0b, msgb, topo, arrival, n1b, q1b, m1b),
    ensures
        nodes_match(n1, n1b),
        n1.inv(),
        n1b.inv(),
        queues_match(q1, q1b),
        metrics_match(m1, m1b),
{
    match msg {
        MessageView::Block(h, xs) => {
            let (hb, xsb) = match msgb {
                MessageView::Block(hb, xsb) => (hb, xsb),
                _ => (h, xs),
            };
            if n0.imported_blocks < u64::MAX {
                let (blk, r) = choose|blk: Block, r: Option<u64>|
                    {
                        &&& #[trigger] import_effect(n0, blk, n1, r)
                        &&& blk.header == h
                        &&& blk.extrinsics_view() == xs
                        &&& match r {
                            Some(d) => {
                                &&& m1.reorg_depths@ == m0.reorg_depths@.push(d)
                                &&& m1 == (SimMetrics { reorg_depths: m1.reorg_depths, ..m0 })
                                &&& q1 == forward(q0, topo, n0.id@, (arrival, msg))
                            },
                            None => m1 == m0 && q1 == q0,
                        }
                    };
                let (blkb, rb) = choose|blk: Block, r: Option<u64>|
                    {
                        &&& #[trigger] import_effect(n0b, blk, n1b, r)
                        &&& blk.header == hb
                        &&& blk.extrinsics_view() == xsb
                        &&& match r {
                            Some(d) => {
                                &&& m1b.reorg_depths@ == m0b.reorg_depths@.push(d)
                                &&& m1b == (SimMetrics { reorg_depths: m1b.reorg_depths, ..m0b })
                                &&& q1b == forward(q0b, topo, n0b.id@, (arrival, msgb))
                            },
                            None => m1b == m0b && q1b == q0b,
                        }
                    };
                lemma_import_agree(n0, n0b, blk, blkb, n1, n1b, r, rb);
                if r is Some {
                    lemma_forward_agree(q0, q0b, topo, n0.id@, (arrival, msg), (arrival, msgb));
                }
            }
        },
        MessageView::Precommit(p) => {
            let pb = match msgb {
                MessageView::Precommit(pb) => pb,
                _ => p,
            };
            lemma_precommit_agree(n0, n0b, p, pb, n1, n1b);
            lemma_forward_agree(q0, q0b, topo, n0.id@, (arrival, msg), (arrival, msgb));
        },
        MessageView::Header(_) => {},
    }
}

/// Two runs of `ingress_step`s over agreeing messages from agreeing states
/// agree at every step.
pub proof fn lemma_ingress_trace_agree(
    ns: Seq<Node>,
    qss: Seq<Map<Seq<char>, Seq<(Slot, MessageView)>>>,
    mss: Seq<SimMetrics>,
    msgs: Seq<MessageView>,
    nsb: Seq<Node>,
    qssb: Seq<Map<Seq<char>, Seq<(Slot, MessageView)>>>,
    mssb: Seq<SimMetrics>,
    msgsb: Seq<MessageView>,
    topo: Map<Seq<char>, Seq<Seq<char>>>,
    arrival: Slot,
    k: int,
)
    requires
        ingress_trace(ns, qss, mss, msgs, topo, arrival),
        ingress_trace(nsb, qssb, mssb, msgsb, topo, arrival),
        msgs_match(msgs, msgsb),
        nodes_match(ns[0], nsb[0]),
        ns[0].inv(),
        nsb[0].inv(),
        queues_match(qss[0], qssb[0]),
        metrics_match(mss[0], mssb[0]),
        0 <= k <= msgs.len(),
    ensures
        nodes_match(ns[k], nsb[k]),
        ns[k].inv(),
        nsb[k].inv(),
        queues_match(qss[k], qssb[k]),
        metrics_match(mss[k], mssb[k]),
    decreases k,
{
    if k > 0 {
        lemma_ingress_trace_agree(ns, qss, mss, msgs, nsb, qssb, mssb, msgsb, topo, arrival, k - 1);
        let i = k - 1;
        assert(ingress_step(ns[i], qss[i], mss[i], msgs[i], topo, arrival, ns[i + 1], qss[i + 1], mss[i + 1]));
        assert(ingress_step(
            nsb[i],
            qssb[i],
            mssb[i],
            msgsb[i],
            topo,
            arrival,
            nsb[i + 1],
            qssb[i + 1],
            mssb[i + 1],
        ));
        assert(msg_match(msgs[i], msgsb[i]));
        lemma_ingress_step_agree(
            ns[i],
            qss[i],
            mss[i],
            msgs[i],
            ns[i + 1],
            qss[i + 1],
            mss[i + 1],
            nsb[i],
            qssb[i],
            mssb[i],
            msgsb[i],
            nsb[i + 1],
            qssb[i + 1],
            mssb[i + 1],
            topo,
            arrival,
        );
    }
}

/// Draining agreeing queues into agreeing nodes leaves agreeing states.
pub proof fn lemma_ingress_reaches_agree(
    n0: Node,
    q0: Map<Seq<char>, Seq<(Slot, MessageView)>>,
    m0: SimMetrics,
    n1: Node,
    q1: Map<Seq<char>, Seq<(Slot, MessageView)>>,
    m1: SimMetrics,
    n0b: Node,
    q0b: Map<Seq<char>, Seq<(Slot, MessageView)>>,
    m0b: SimMetrics,
    n1b: Node,
    q1b: Map<Seq<char>, Seq<(Slot, MessageView)>>,
    m1b: SimMetrics,
    topo: Map<Seq<char>, Seq<Seq<char>>>,
    slot: Slot,
    arrival: Slot,
)
    requires
        nodes_match(n0, n0b),
        n0.inv(),
        n0b.inv(),
        queues_match(q0, q0b),
        metrics_match(m0, m0b),
        ingress_reaches(
            n0,
            drained(q0, n0.id@, slot),
            m0,
            polled(q0, n0.id@, slot),
            topo,
            arrival,
            n1,
            q1,
            m1,
        ),
        ingress_reaches(
            n0b,
            drained(q0b, n0b.id@, slot),
            m0b,
            polled(q0b, n0b.id@, slot),
            topo,
            arrival,
            n1b,
            q1b,
            m1b,
        ),
    ensures
        nodes_match(n1, n1b),
        n1.inv(),
        n1b.inv(),
        queues_match(q1, q1b),
        metrics_match(m1, m1b),
{
    let msgs = polled(q0, n0.id@, slot);
    let msgsb = polled(q0b, n0b.id@, slot);
    lemma_poll_agree(q0, q0b, n0.id@, slot);
    let (ns, qss, mss) = choose|
        ns: Seq<Node>,
        qss: Seq<Map<Seq<char>, Seq<(Slot, MessageView)>>>,
        mss: Seq<SimMetrics>,
    |
        {
            &&& #[trigger] ingress_trace(ns, qss, mss, msgs, topo, arrival)
            &&& ns[0] == n0
            &&& qss[0] == drained(q0, n0.id@, slot)
            &&& mss[0] == m0
            &&& ns.last() == n1
            &&& qss.last() == q1
            &&& mss.last() == m1
        };
    let (nsb, qssb, mssb) = choose|
        ns: Seq<Node>,
        qss: Seq<Map<Seq<char>, Seq<(Slot, MessageView)>>>,
        mss: Seq<SimMetrics>,
    |
        {
            &&& #[trigger] ingress_trace(ns, qss, mss, msgsb, topo, arrival)
            &&& ns[0] == n0b
            &&& qss[0] == drained(q0b, n0b.id@, slot)
            &&& mss[0] == m0b
            &&& ns.last() == n1b
            &&& qss.last() == q1b
            &&& mss.last() == m1b
        };
    lemma_ingress_trace_agree(
        ns,
        qss,
        mss,
        msgs,
        nsb,
        qssb,
        mssb,
        msgsb,
        topo,
        arrival,
        msgs.len() as int,
    );
}

/// A node's own turn, taken by agreeing nodes on agreeing queues and
/// metrics, leaves agreeing states.
pub proof fn lemma_turn_agree(
    n0: Node,
    q0: Map<Seq<char>, Seq<(Slot, MessageView)>>,
    m0: SimMetrics,
    n1: Node,
    q1: Map<Seq<char>, Seq<(Slot, MessageView)>>,
    m1: SimMetrics,
    n0b: Node,
    q0b: Map<Seq<char>, Seq<(Slot, MessageView)>>,
    m0b: SimMetrics,
    n1b: Node,
    q1b: Map<Seq<char>, Seq<(Slot, MessageView)>>,
    m1b: SimMetrics,
    topo: Map<Seq<char>, Seq<Seq<char>>>,
    slot: Slot,
    randomness: Seq<u8>,
    arrival: Slot,
)
    requires
        nodes_match(n0, n0b),
        queues_match(q0, q0b),
        metrics_match(m0, m0b),
        turn_effect(n0, q0, m0, topo, slot, randomness, arrival, n1, q1, m1),
        turn_effect(n0b, q0b, m0b, topo, slot, randomness, arrival, n1b, q1b, m1b),
    ensures
        nodes_match(n1, n1b),
        n1.inv(),
        n1b.inv(),
        queues_match(q1, q1b),
        metrics_match(m1, m1b),
{
    let (na, qsa, ma) = choose|
        na: Node,
        qsa: Map<Seq<char>, Seq<(Slot, MessageView)>>,
        ma: SimMetrics,
    |
        {
            &&& #[trigger] propose_effect(n0, q0, m0, topo, slot, randomness, arrival, na, qsa, ma)
            &&& precommit_effect(na, own_precommit(na, slot), n1)
            &&& q1 == forward(
                qsa,
                topo,
                na.id@,
                (arrival, MessageView::Precommit(own_precommit(na, slot))),
            )
            &&& m1 == (SimMetrics {
                precommits_broadcast: (ma.precommits_broadcast + 1) as u64,
                finalization_rounds: if n1.finalized_height > na.finalized_height {
                    (ma.finalization_rounds + 1) as u64
                } else {
                    ma.finalization_rounds
                },
                ..ma
            })
        };
    let (nab, qsab, mab) = choose|
        na: Node,
        qsa: Map<Seq<char>, Seq<(Slot, MessageView)>>,
        ma: SimMetrics,
    |
        {
            &&& #[trigger] propose_effect(n0b, q0b, m0b, topo, slot, randomness, arrival, na, qsa, ma)
            &&& precommit_effect(na, own_precommit(na, slot), n1b)
            &&& q1b == forward(
                qsa,
                topo,
                na.id@,
                (arrival, MessageView::Precommit(own_precommit(na, slot))),
            )
            &&& m1b == (SimMetrics {
                precommits_broadcast: (ma.precommits_broadcast + 1) as u64,
                finalization_rounds: if n1b.finalized_height > na.finalized_height {
                    (ma.finalization_rounds + 1) as u64
                } else {
                    ma.finalization_rounds
                },
                ..ma
            })
        };
    lemma_nodes_decide_alike(n0, n0b);
    if n0.consensus.wins(randomness) {
        let b = choose|b: Block|
            {
                &&& #[trigger] n0.authors(na, b, slot)
                &&& qsa == forward(
                    q0,
                    topo,
                    n0.id@,
                    (arrival, MessageView::Block(b.header, b.extrinsics_view())),
                )
                &&& ma == (SimMetrics {
                    total_blocks_authored: (m0.total_blocks_authored + 1) as u64,
                    max_height_achieved: if b.header.number > m0.max_height_achieved {
                        b.header.number
                    } else {
                        m0.max_height_achieved
                    },
                    ..m0
                })
            };
        let bb = choose|b: Block|
            {
                &&& #[trigger] n0b.authors(nab, b, slot)
                &&& qsab == forward(
                    q0b,
                    topo,
                    n0b.id@,
                    (arrival, MessageView::Block(b.header, b.extrinsics_view())),
                )
                &&& mab == (SimMetrics {
                    total_blocks_authored: (m0b.total_blocks_authored + 1) as u64,
                    max_height_achieved: if b.header.number > m0b.max_height_achieved {
                        b.header.number
                    } else {
                        m0b.max_height_achieved
                    },
                    ..m0b
                })
            };
        lemma_authors_agree(n0, n0b, b, bb, na, nab, slot);
        lemma_forward_agree(
            q0,
            q0b,
            topo,
            n0.id@,
            (arrival, MessageView::Block(b.header, b.extrinsics_view())),
            (arrival, MessageView::Block(bb.header, bb.extrinsics_view())),
        );
    }
    assert(nodes_match(na, nab));
    lemma_nodes_decide_alike(na, nab);
    let p = own_precommit(na, slot);
    let pb = own_precommit(nab, slot);
    lemma_precommit_agree(na, nab, p, pb, n1, n1b);
    lemma_forward_agree(
        qsa,
        qsab,
        topo,
        na.id@,
        (arrival, MessageView::Precommit(p)),
        (arrival, MessageView::Precommit(pb)),
    );
}


/// Two snapshots of a run agree: agreeing nodes (each well formed),
/// agreeing queues, the same topology and agreeing metrics.
pub open spec fn snapshots_match(a: Snapshot, b: Snapshot) -> bool {
    &&& a.0.len() == 3
    &&& b.0.len() == 3
    &&& forall|k: int|
        0 <= k < 3 ==> nodes_match(#[trigger] a.0[k], b.0[k]) && a.0[k].inv() && b.0[k].inv()
    &&& queues_match(a.1, b.1)
    &&& a.2 == b.2
    &&& metrics_match(a.3, b.3)
}

pub proof fn lemma_count_wins_agree(ns1: Seq<Node>, ns2: Seq<Node>, r: Seq<u8>, j: int)
    requires
        forall|k: int| 0 <= k < j ==> (#[trigger] ns1[k]).consensus.wins(r) == ns2[k].consensus.wins(r),
    ensures
        count_wins(ns1, r, j) == count_wins(ns2, r, j),
    decreases j,
{
    if j > 0 {
        lemma_count_wins_agree(ns1, ns2, r, j - 1);
        assert(ns1[j - 1].consensus.wins(r) == ns2[j - 1].consensus.wins(r));
    }
}

pub proof fn lemma_close_agree(a: Snapshot, b: Snapshot, a2: Snapshot, b2: Snapshot, slot: Slot)
    requires
        snapshots_match(a, a2),
        slot_close(a.3, slot, a.0, b.3),
        slot_close(a2.3, slot, a2.0, b2.3),
    ensures
        metrics_match(b.3, b2.3),
{
    let r = slot_randomness(slot);
    assert forall|k: int| 0 <= k < 3 implies (#[trigger] a.0[k]).consensus.wins(r)
        == a2.0[k].consensus.wins(r) by {
        assert(nodes_match(a.0[k], a2.0[k]));
        lemma_nodes_decide_alike(a.0[k], a2.0[k]);
    }
    lemma_count_wins_agree(a.0, a2.0, r, 3);
    assert(nodes_match(a.0[0], a2.0[0]));
    assert(nodes_match(a.0[1], a2.0[1]));
    assert(nodes_match(a.0[2], a2.0[2]));
    let heads = seq![a.0[0].best_head_hash, a.0[1].best_head_hash, a.0[2].best_head_hash];
    let heads2 = seq![a2.0[0].best_head_hash, a2.0[1].best_head_hash, a2.0[2].best_head_hash];
    assert(heads == heads2);
}

/// One phase of a slot takes agreeing snapshots to agreeing snapshots.
pub proof fn lemma_phase_agree(cfg: SimConfig, k: int, p: int, a: Snapshot, b: Snapshot, a2: Snapshot, b2: Snapshot)
    requires
        0 <= p < 8,
        snapshots_match(a, a2),
        run_phase(cfg, k, p, a, b),
        run_phase(cfg, k, p, a2, b2),
    ensures
        snapshots_match(b, b2),
{
    reveal(run_phase);
    let slot = (k + 1) as u64;
    let arrival = (slot + cfg.hop_latency) as u64;
    if p == 0 {
    } else if p == 7 {
        lemma_close_agree(a, b, a2, b2, slot);
    } else {
        let j = if p % 2 == 1 {
            (p - 1) / 2
        } else {
            (p - 2) / 2
        };
        assert(0 <= j < 3);
        assert(nodes_match(a.0[j], a2.0[j]));
        if p % 2 == 1 {
            lemma_ingress_reaches_agree(
                a.0[j],
                a.1,
                a.3,
                b.0[j],
                b.1,
                b.3,
                a2.0[j],
                a2.1,
                a2.3,
                b2.0[j],
                b2.1,
                b2.3,
                a.2,
                slot,
                arrival,
            );
        } else {
            lemma_turn_agree(
                a.0[j],
                a.1,
                a.3,
                b.0[j],
                b.1,
                b.3,
                a2.0[j],
                a2.1,
                a2.3,
                b2.0[j],
                b2.1,
                b2.3,
                a.2,
                slot,
                slot_randomness(slot),
                arrival,
            );
        }
        assert forall|i: int| 0 <= i < 3 implies nodes_match(#[trigger] b.0[i], b2.0[i])
            && b.0[i].inv() && b2.0[i].inv() by {
            if i != j {
                assert(b.0[i] == a.0[i]);
                assert(b2.0[i] == a2.0[i]);
            }
        }
    }
}

/// The phases of a slot take agreeing snapshots to agreeing snapshots.
pub proof fn lemma_slot_agree(cfg: SimConfig, k: int, ph: Seq<Snapshot>, ph2: Seq<Snapshot>, p: int)
    requires
        slot_ok(cfg, k, ph),
        slot_ok(cfg, k, ph2),
        snapshots_match(ph[0], ph2[0]),
        0 <= p <= 8,
    ensures
        snapshots_match(ph[p], ph2[p]),
    decreases p,
{
    if p > 0 {
        lemma_slot_agree(cfg, k, ph, ph2, p - 1);
        assert(run_phase(cfg, k, p - 1, ph[p - 1], ph[p]));
        assert(run_phase(cfg, k, p - 1, ph2[p - 1], ph2[p]));
        lemma_phase_agree(cfg, k, p - 1, ph[p - 1], ph[p], ph2[p - 1], ph2[p]);
    }
}

/// Two runs of a configuration from agreeing starts agree after every
/// slot.
pub proof fn lemma_prefix_agree(
    cfg: SimConfig,
    outs: Seq<Snapshot>,
    inner: Seq<Seq<Snapshot>>,
    outs2: Seq<Snapshot>,
    inner2: Seq<Seq<Snapshot>>,
    n: int,
    k: int,
)
    requires
        run_prefix(cfg, outs, inner, n),
        run_prefix(cfg, outs2, inner2, n),
        snapshots_match(outs[0], outs2[0]),
        0 <= k <= n,
    ensures
        snapshots_match(outs[k], outs2[k]),
    decreases k,
{
    if k > 0 {
        lemma_prefix_agree(cfg, outs, inner, outs2, inner2, n, k - 1);
        let i = k - 1;
        assert(slot_ok(cfg, i, inner[i]));
        assert(slot_ok(cfg, i, inner2[i]));
        lemma_slot_agree(cfg, i, inner[i], inner2[i], 8);
    }
}

pub proof fn lemma_queues_refl(q: Map<Seq<char>, Seq<(Slot, MessageView)>>)
    ensures
        queues_match(q, q),
{
    assert forall|k: Seq<char>| #[trigger] q.contains_key(k) implies entries_match(q[k], q[k]) by {
        assert forall|i: int| 0 <= i < q[k].len() implies (#[trigger] q[k][i]).0 == q[k][i].0
            && msg_match(q[k][i].1, q[k][i].1) by {
            match q[k][i].1 {
                MessageView::Block(h, x) => {},
                MessageView::Header(h) => {},
                MessageView::Precommit(p) => {},
            }
        }
    }
}

/// Two fresh nodes with the same id and settings agree.
pub proof fn lemma_fresh_agree(a: Node, b: Node, id: Seq<char>, threshold: u64, tv: usize)
    requires
        fresh_node(a, id, threshold, tv),
        fresh_node(b, id, threshold, tv),
    ensures
        nodes_match(a, b),
{
    a.blocks.lemma_wf();
    b.blocks.lemma_wf();
    let ga = a.blocks.map()[a.best_head_hash];
    let gb = b.blocks.map()[b.best_head_hash];
    types::Hash::lemma_zero_unique(ga.header.parent_hash, gb.header.parent_hash);
    types::Hash::lemma_zero_unique(ga.header.state_root, gb.header.state_root);
    types::Hash::lemma_zero_unique(ga.header.extrinsics_root, gb.header.extrinsics_root);
    assert(ga.header.same_as(gb.header));
    types::lemma_header_id_deterministic(ga.header, gb.header);
    assert(a.best_head_hash == b.best_head_hash);
    assert(a.blocks.key_seq().contains(a.best_head_hash));
    assert(a.blocks.key_seq() =~= seq![a.best_head_hash]);
    assert(b.blocks.key_seq().contains(b.best_head_hash));
    assert(b.blocks.key_seq() =~= seq![b.best_head_hash]);
    assert(a.blocks.value_seq()[0] == ga);
    assert(b.blocks.value_seq()[0] == gb);
    assert(ga.extrinsics_view() =~= gb.extrinsics_view());
    assert(blocks_match(a.blocks.value_seq()[0], b.blocks.value_seq()[0]));
    a.grandpa_votes.lemma_wf();
    b.grandpa_votes.lemma_wf();
    if a.grandpa_votes.key_seq().len() > 0 {
        assert(a.grandpa_votes.map().contains_key(a.grandpa_votes.key_seq()[0]));
    }
    if b.grandpa_votes.key_seq().len() > 0 {
        assert(b.grandpa_votes.map().contains_key(b.grandpa_votes.key_seq()[0]));
    }
    assert(a.grandpa_votes.key_seq() =~= b.grandpa_votes.key_seq());
    assert(a.grandpa_votes.value_seq() =~= b.grandpa_votes.value_seq());
    a.runtime.state.0.lemma_wf();
    b.runtime.state.0.lemma_wf();
    if a.runtime.state.0.key_seq().len() > 0 {
        assert(a.runtime.state.0.map().contains_key(a.runtime.state.0.key_seq()[0]));
    }
    if b.runtime.state.0.key_seq().len() > 0 {
        assert(b.runtime.state.0.map().contains_key(b.runtime.state.0.key_seq()[0]));
    }
    assert(a.runtime.state.0.key_seq() =~= b.runtime.state.0.key_seq());
    assert(a.runtime.state.0.value_seq() =~= b.runtime.state.0.value_seq());
}

/// Two runs of a configuration start from agreeing snapshots.
pub proof fn lemma_start_agree(cfg: SimConfig, a: Snapshot, b: Snapshot)
    requires
        run_start(cfg, a),
        run_start(cfg, b),
    ensures
        snapshots_match(a, b),
{
    assert forall|k: int| 0 <= k < 3 implies nodes_match(#[trigger] a.0[k], b.0[k]) && a.0[k].inv()
        && b.0[k].inv() by {
        assert(fresh_node(a.0[k], node_name(k), cfg.consensus_threshold, cfg.total_validators));
        assert(fresh_node(b.0[k], node_name(k), cfg.consensus_threshold, cfg.total_validators));
        lemma_fresh_agree(a.0[k], b.0[k], node_name(k), cfg.consensus_threshold, cfg.total_validators);
    }
    lemma_queues_refl(a.1);
    assert(a.3.node_final_heights.map() =~= b.3.node_final_heights.map());
    assert(a.3.node_finalized_heights.map() =~= b.3.node_finalized_heights.map());
    assert(a.3.convergence_latencies@ =~= b.3.convergence_latencies@);
    assert(a.3.reorg_depths@ =~= b.3.reorg_depths@);
}

pub proof fn lemma_recorded_heights_agree(ns1: Seq<Node>, ns2: Seq<Node>, k: int)
    requires
        forall|i: int| 0 <= i < k ==> nodes_match(#[trigger] ns1[i], ns2[i]),
    ensures
        head_heights(ns1, k) == head_heights(ns2, k),
        finalized_heights(ns1, k) == finalized_heights(ns2, k),
    decreases k,
{
    if k > 0 {
        lemma_recorded_heights_agree(ns1, ns2, k - 1);
        assert(nodes_match(ns1[k - 1], ns2[k - 1]));
        lemma_nodes_decide_alike(ns1[k - 1], ns2[k - 1]);
    }
}

/// Runs of one configuration agree after every slot: the same heads,
/// finalized blocks, stored blocks, votes, queues and metrics.
pub proof fn lemma_runs_agree_at_every_slot(
    cfg: SimConfig,
    outs: Seq<Snapshot>,
    inner: Seq<Seq<Snapshot>>,
    outs2: Seq<Snapshot>,
    inner2: Seq<Seq<Snapshot>>,
)
    requires
        run_prefix(cfg, outs, inner, cfg.total_slots as int),
        run_prefix(cfg, outs2, inner2, cfg.total_slots as int),
        run_start(cfg, outs[0]),
        run_start(cfg, outs2[0]),
    ensures
        forall|k: int|
            0 <= k <= cfg.total_slots ==> snapshots_match(#[trigger] outs[k], outs2[k]),
{
    lemma_start_agree(cfg, outs[0], outs2[0]);
    assert forall|k: int| 0 <= k <= cfg.total_slots implies snapshots_match(
        #[trigger] outs[k],
        outs2[k],
    ) by {
        lemma_prefix_agree(cfg, outs, inner, outs2, inner2, cfg.total_slots as int, k);
    }
}

/// Determinism: every run of a configuration returns the same metrics, in
/// every counter, record and recorded height.
pub proof fn lemma_run_deterministic(cfg: SimConfig, m1: SimMetrics, m2: SimMetrics)
    requires
        run_reaches(cfg, m1),
        run_reaches(cfg, m2),
    ensures
        metrics_match(m1, m2),
{
    let (outs, inner) = choose|outs: Seq<Snapshot>, inner: Seq<Seq<Snapshot>>|
        {
            &&& #[trigger] run_prefix(cfg, outs, inner, cfg.total_slots as int)
            &&& run_start(cfg, outs[0])
            &&& run_finish(outs.last(), m1)
        };
    let (outs2, inner2) = choose|outs: Seq<Snapshot>, inner: Seq<Seq<Snapshot>>|
        {
            &&& #[trigger] run_prefix(cfg, outs, inner, cfg.total_slots as int)
            &&& run_start(cfg, outs[0])
            &&& run_finish(outs.last(), m2)
        };
    lemma_runs_agree_at_every_slot(cfg, outs, inner, outs2, inner2);
    let n = cfg.total_slots as int;
    assert(snapshots_match(outs[n], outs2[n]));
    let st = outs.last();
    let st2 = outs2.last();
    assert(st == outs[n]);
    assert(st2 == outs2[n]);
    lemma_recorded_heights_agree(st.0, st2.0, 3);
}

} // verus!
