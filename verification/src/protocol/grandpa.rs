//! GRANDPA-lite votes: a validator's precommit for its best head.
use vstd::prelude::*;
use crate::primitives::types::Slot;
use crate::primitives::types;
use crate::protocol::node::Node;

verus! {

#[derive(Debug)]
pub struct Precommit {
    pub target_hash: types::Hash,
    pub target_height: u64,
    pub voter_id: String,
    pub slot: Slot,
}

impl Clone for Precommit {
    fn clone(&self) -> (res: Self)
        ensures
            res == *self,
    {
        Precommit {
            target_hash: self.target_hash,
            target_height: self.target_height,
            voter_id: self.voter_id.clone(),
            slot: self.slot,
        }
    }
}

impl Precommit {
    /// A precommit is valid for a node when the node knows the target block
    /// and it is an ancestor of the node's best head.
    pub open spec fn valid_for(self, node: Node) -> bool {
        &&& node.blocks.map().contains_key(self.target_hash)
        &&& node.ancestor_of(node.best_head_hash, self.target_hash) == self.target_hash
    }

    /// A precommit is considered valid for a node if the target block is
    /// currently part of that node's known ancestry (i.e. it is an ancestor
    /// of the node's best head).
    pub fn is_valid_for_node(&self, node: &Node) -> (valid: bool)
        requires
            node.inv(),
        ensures
            valid == self.valid_for(*node),
    {
        // If the node doesn't even have the block, it can't validate it yet.
        if !node.blocks.contains_key(&self.target_hash) {
            return false;
        }
        // Standard ancestry check: common ancestor must be the target itself.
        node.find_common_ancestor(node.best_head_hash, self.target_hash) == self.target_hash
    }
}

impl Node {
    /// This node's precommit for its best head in `slot`.
    pub fn create_precommit(&self, slot: Slot) -> (p: Precommit)
        requires
            self.inv(),
        ensures
            p.target_hash == self.best_head_hash,
            p.target_height == self.head_height(),
            p.voter_id == self.id,
            p.slot == slot,
    {
        Precommit {
            target_hash: self.best_head_hash,
            target_height: self.best_height(),
            voter_id: self.id.clone(),
            slot,
        }
    }

    /// Handles a precommit as the GRANDPA vote of its voter for its target.
    pub fn handle_precommit(&mut self, precommit: Precommit)
        requires
            old(self).inv(),
        ensures
            final(self).inv(),
            final(self).blocks == old(self).blocks,
            final(self).seen_blocks == old(self).seen_blocks,
            final(self).best_head_hash == old(self).best_head_hash,
            final(self).imported_blocks == old(self).imported_blocks,
            final(self).proposed_blocks == old(self).proposed_blocks,
            final(self).id == old(self).id,
            final(self).runtime == old(self).runtime,
            final(self).consensus == old(self).consensus,
            final(self).supermajority_threshold == old(self).supermajority_threshold,
            final(self).finalized_height >= old(self).finalized_height,
            !old(self).blocks.map().contains_key(precommit.target_hash) ==> *final(self) == *old(self),
            old(self).blocks.map().contains_key(precommit.target_hash) ==> {
                &&& final(self).grandpa_votes.map() == old(self).grandpa_votes.map().insert(
                    precommit.voter_id@,
                    precommit.target_hash,
                )
                &&& old(self).grandpa_votes.map().contains_key(precommit.voter_id@) ==> {
                    &&& final(self).grandpa_votes.key_seq() == old(self).grandpa_votes.key_seq()
                    &&& final(self).grandpa_votes.value_seq()
                        == old(self).grandpa_votes.value_seq().update(
                        old(self).grandpa_votes.key_seq().index_of(precommit.voter_id@),
                        precommit.target_hash,
                    )
                }
                &&& !old(self).grandpa_votes.map().contains_key(precommit.voter_id@) ==> {
                    &&& final(self).grandpa_votes.key_seq() == old(self).grandpa_votes.key_seq().push(
                        precommit.voter_id@,
                    )
                    &&& final(self).grandpa_votes.value_seq()
                        == old(self).grandpa_votes.value_seq().push(precommit.target_hash)
                }
                &&& ({
                    let mid = Node { grandpa_votes: final(self).grandpa_votes, ..*old(self) };
                    match mid.finality_pick() {
                        Some(h) => final(self).finalized_hash == h && final(self).finalized_height
                            == crate::protocol::node::height_of(old(self).blocks.map(), h),
                        None => final(self).finalized_hash == old(self).finalized_hash
                            && final(self).finalized_height == old(self).finalized_height,
                    }
                })
            },
    {
        self.handle_grandpa_vote(precommit.voter_id, precommit.target_hash);
    }
}

} // verus!
