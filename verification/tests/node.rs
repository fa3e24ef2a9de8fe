use consensus_lab::primitives::types;
use consensus_lab::primitives::types::{Block, Header};
use consensus_lab::protocol::node::Node;

fn genesis_block() -> Block {
    let genesis_header = Header {
        parent_hash: types::Hash::zero(),
        number: 0,
        state_root: types::Hash::zero(),
        extrinsics_root: types::Hash::zero(),
        slot: 0,
        author: "genesis".to_string(),
    };
    Block { header: genesis_header, extrinsics: vec![] }
}

fn child(parent: types::Hash, number: u64, slot: u64, author: &str) -> Block {
    Block {
        header: Header {
            parent_hash: parent,
            number,
            state_root: types::Hash::zero(),
            extrinsics_root: types::Hash::zero(),
            slot,
            author: author.to_string(),
        },
        extrinsics: vec![],
    }
}

#[test]
fn test_seen_blocks_flood_protection() {
    let mut node = Node::new("node_0".to_string(), u64::MAX, 3);

    let header = Header {
        parent_hash: types::Hash::zero(),
        number: 1,
        state_root: types::Hash::zero(),
        extrinsics_root: types::Hash::zero(),
        slot: 1,
        author: "A".to_string(),
    };
    let block = Block { header, extrinsics: vec![] };

    let initial_count = node.imported_blocks;
    node.import_block(block.clone());
    assert_eq!(node.imported_blocks, initial_count + 1);
    assert!(node.seen_blocks.contains(&block.hash()));

    let count_after_first = node.imported_blocks;
    node.import_block(block);
    assert_eq!(node.imported_blocks, count_after_first);
}

#[test]
fn test_genesis_already_seen() {
    let node = Node::new("node_0".to_string(), u64::MAX, 3);

    let genesis_header = Header {
        parent_hash: types::Hash::zero(),
        number: 0,
        state_root: types::Hash::zero(),
        extrinsics_root: types::Hash::zero(),
        slot: 0,
        author: "genesis".to_string(),
    };
    let genesis_block = Block { header: genesis_header, extrinsics: vec![] };

    assert!(node.seen_blocks.contains(&genesis_block.hash()));
}

#[test]
fn new_node_starts_at_genesis() {
    let node = Node::new("node_0".to_string(), 7, 3);
    let g = genesis_block().hash();
    assert_eq!(node.best_head_hash, g);
    assert_eq!(node.finalized_hash, g);
    assert_eq!(node.finalized_height, 0);
    assert_eq!(node.best_height(), 0);
    assert_eq!(node.supermajority_threshold, 2);
    assert_eq!(node.blocks.len(), 1);
}

#[test]
fn supermajority_is_ceiling_of_two_thirds() {
    assert_eq!(Node::new("a".to_string(), 0, 1).supermajority_threshold, 1);
    assert_eq!(Node::new("a".to_string(), 0, 4).supermajority_threshold, 3);
    assert_eq!(Node::new("a".to_string(), 0, 6).supermajority_threshold, 4);
    assert_eq!(Node::new("a".to_string(), 0, 100).supermajority_threshold, 67);
}

#[test]
fn extension_moves_head_without_reorg() {
    let mut node = Node::new("node_0".to_string(), 0, 3);
    let g = node.best_head_hash;
    let b1 = child(g, 1, 1, "x");
    let h1 = b1.hash();
    assert_eq!(node.import_block(b1), None);
    assert_eq!(node.best_head_hash, h1);
    assert_eq!(node.best_height(), 1);
}

#[test]
fn branch_switch_reports_depth() {
    let mut node = Node::new("node_0".to_string(), 0, 3);
    let g = node.best_head_hash;
    let a1 = child(g, 1, 1, "a");
    let a1h = a1.hash();
    assert_eq!(node.import_block(a1), None);
    let b1 = child(g, 1, 2, "b");
    let b1h = b1.hash();
    // Same height, later slot: no switch.
    assert_eq!(node.import_block(b1), None);
    assert_eq!(node.best_head_hash, a1h);
    let b2 = child(b1h, 2, 3, "b");
    let b2h = b2.hash();
    // The longer branch wins: one block of the old chain is discarded.
    assert_eq!(node.import_block(b2), Some(1));
    assert_eq!(node.best_head_hash, b2h);
    assert_eq!(node.find_common_ancestor(a1h, b2h), g);
}

#[test]
fn finality_blocks_deep_reorg() {
    let mut node = Node::new("node_0".to_string(), 0, 3);
    let g = node.best_head_hash;
    let a1 = child(g, 1, 1, "a");
    let a1h = a1.hash();
    node.import_block(a1);
    let a2 = child(a1h, 2, 2, "a");
    let a2h = a2.hash();
    node.import_block(a2);
    // Two of three validators vote for a2: it becomes final.
    node.handle_grandpa_vote("v1".to_string(), a2h);
    assert_eq!(node.finalized_height, 0);
    node.handle_grandpa_vote("v2".to_string(), a2h);
    assert_eq!(node.finalized_hash, a2h);
    assert_eq!(node.finalized_height, 2);
    // A longer fork from genesis would revert the finalized block: refused.
    let b1 = child(g, 1, 3, "b");
    let b1h = b1.hash();
    node.import_block(b1);
    let b2 = child(b1h, 2, 4, "b");
    let b2h = b2.hash();
    node.import_block(b2);
    let b3 = child(b2h, 3, 5, "b");
    assert_eq!(node.import_block(b3), None);
    assert_eq!(node.best_head_hash, a2h);
}

#[test]
fn votes_for_unknown_blocks_are_ignored() {
    let mut node = Node::new("node_0".to_string(), 0, 3);
    let unknown = types::Hash::from_bytes([9u8; 32]);
    node.handle_grandpa_vote("v1".to_string(), unknown);
    assert_eq!(node.grandpa_votes.len(), 0);
}

#[test]
fn propose_with_max_threshold_extends_head() {
    let mut node = Node::new("node_0".to_string(), u64::MAX, 3);
    let g = node.best_head_hash;
    let mut produced = 0;
    for slot in 1..10u64 {
        let mut randomness = [0u8; 32];
        randomness[0] = slot as u8;
        if let Some(b) = node.propose_block(slot, randomness) {
            produced += 1;
            assert_eq!(b.header.slot, slot);
            assert_eq!(b.header.author, "node_0");
            assert_eq!(node.best_head_hash, b.hash());
        }
    }
    assert!(produced >= 8);
    assert_eq!(node.proposed_blocks, produced);
    assert_eq!(node.best_height(), produced);
    assert!(node.best_head_hash != g);
}

#[test]
fn propose_with_zero_threshold_never_proposes() {
    let mut node = Node::new("node_0".to_string(), 0, 3);
    for slot in 1..10u64 {
        assert!(node.propose_block(slot, [slot as u8; 32]).is_none());
    }
    assert_eq!(node.proposed_blocks, 0);
}

#[test]
fn own_precommit_is_valid() {
    let mut node = Node::new("node_0".to_string(), u64::MAX, 3);
    node.propose_block(1, [1u8; 32]);
    let p = node.create_precommit(1);
    assert_eq!(p.target_hash, node.best_head_hash);
    assert!(p.is_valid_for_node(&node));
    let mut other = p.clone();
    other.target_hash = types::Hash::from_bytes([7u8; 32]);
    assert!(!other.is_valid_for_node(&node));
}

#[test]
fn multi_block_extension_is_no_reorg() {
    let mut node = Node::new("node_0".to_string(), 0, 3);
    let g = node.best_head_hash;
    let c1 = child(g, 1, 1, "x");
    let c1h = c1.hash();
    let c2 = child(c1h, 2, 2, "x");
    let c2h = c2.hash();
    let c3 = child(c2h, 3, 3, "x");
    let c3h = c3.hash();
    node.import_block(c1);
    node.import_block(c2);
    // Pin the head back at genesis: the next pick lies three blocks above it.
    node.best_head_hash = g;
    assert_eq!(node.import_block(c3), None);
    assert_eq!(node.best_head_hash, c3h);
    assert_eq!(node.find_common_ancestor(g, c3h), g);
}

#[test]
fn equal_rank_block_never_displaces_head() {
    let mut node = Node::new("node_0".to_string(), 0, 3);
    let g = node.best_head_hash;
    let a1 = child(g, 1, 5, "a");
    let a1h = a1.hash();
    assert_eq!(node.import_block(a1), None);
    // Same height and slot, arriving later: the head keeps its place.
    let b1 = child(g, 1, 5, "b");
    assert_eq!(node.import_block(b1), None);
    assert_eq!(node.best_head_hash, a1h);
}

#[test]
fn finalized_block_stays_below_new_head() {
    let mut node = Node::new("node_0".to_string(), 0, 3);
    let g = node.best_head_hash;
    let a1 = child(g, 1, 1, "a");
    let a1h = a1.hash();
    node.import_block(a1);
    node.handle_grandpa_vote("v1".to_string(), a1h);
    node.handle_grandpa_vote("v2".to_string(), a1h);
    assert_eq!(node.finalized_hash, a1h);
    let a2 = child(a1h, 2, 2, "a");
    let a2h = a2.hash();
    node.import_block(a2);
    // A longer branch forking at the finalized block is accepted...
    let b2 = child(a1h, 2, 3, "b");
    let b2h = b2.hash();
    node.import_block(b2);
    let b3 = child(b2h, 3, 4, "b");
    let b3h = b3.hash();
    assert_eq!(node.import_block(b3), Some(1));
    assert_eq!(node.best_head_hash, b3h);
    // ...and the finalized block still lies below the head.
    assert_eq!(node.find_common_ancestor(node.best_head_hash, a1h), a1h);
    let _ = a2h;
}
