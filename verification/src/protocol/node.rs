//! The node actor: block import into a local block tree, fork choice with
//! re-org detection, block proposal, and GRANDPA-lite finality.
use vstd::prelude::*;
use crate::collections::ordered_map::OrderedMap;
use crate::collections::ordered_set::OrderedSet;
use crate::primitives::scale;
use crate::primitives::types::{Block, Header, Slot};
use crate::primitives::types;
use crate::protocol::consensus;
use crate::protocol::consensus::Consensus;
use crate::protocol::runtime::Runtime;

verus! {

/// The walk from `h` along parent links: `h`, its parent, and so on, up to
/// the zero digest or a digest of no known block. The walk takes at most
/// `fuel` steps.
pub open spec fn ancestry(m: Map<types::Hash, Block>, h: types::Hash, fuel: nat) -> Seq<
    types::Hash,
>
    decreases fuel,
{
    if fuel == 0 || h.is_zero() || !m.contains_key(h) {
        seq![h]
    } else {
        seq![h] + ancestry(m, m[h].header.parent_hash, (fuel - 1) as nat)
    }
}

/// The first digest of `p2` that also lies on `p1`; the zero digest if none does.
pub open spec fn first_shared(p2: Seq<types::Hash>, p1: Seq<types::Hash>) -> types::Hash
    decreases p2.len(),
{
    if p2.len() == 0 {
        types::Hash::zero_spec()
    } else if p1.contains(p2[0]) {
        p2[0]
    } else {
        first_shared(p2.drop_first(), p1)
    }
}

/// The common ancestor of two blocks: the first block on the ancestry of
/// `h2` that is also on the ancestry of `h1`.
pub open spec fn common_ancestor(
    m: Map<types::Hash, Block>,
    h1: types::Hash,
    h2: types::Hash,
    fuel: nat,
) -> types::Hash {
    first_shared(ancestry(m, h2, fuel), ancestry(m, h1, fuel))
}

/// The height of a known block, and 0 for an unknown digest.
pub open spec fn height_of(m: Map<types::Hash, Block>, h: types::Hash) -> u64 {
    if m.contains_key(h) {
        m[h].header.number
    } else {
        0
    }
}

/// The number of votes for `target` or for one of its descendants.
pub open spec fn vote_support(
    m: Map<types::Hash, Block>,
    votes: Seq<types::Hash>,
    target: types::Hash,
    fuel: nat,
) -> nat
    decreases votes.len(),
{
    if votes.len() == 0 {
        0
    } else {
        vote_support(m, votes.drop_last(), target, fuel) + if common_ancestor(
            m,
            target,
            votes.last(),
            fuel,
        ) == target {
            1nat
        } else {
            0nat
        }
    }
}

/// The block that the finality walk settles on: walking back from `cur`,
/// the first block above the finalized height that a supermajority of the
/// votes supports, if the walk meets one before it reaches the finalized
/// height, the zero digest or an unknown block. The walk takes at most
/// `steps` parent steps.
pub open spec fn finality_target(
    m: Map<types::Hash, Block>,
    votes: Seq<types::Hash>,
    cur: types::Hash,
    finalized_height: u64,
    threshold: nat,
    fuel: nat,
    steps: nat,
) -> Option<types::Hash>
    decreases steps,
{
    if cur.is_zero() {
        None
    } else if height_of(m, cur) <= finalized_height {
        None
    } else if vote_support(m, votes, cur, fuel) >= threshold {
        Some(cur)
    } else if m.contains_key(cur) && steps > 0 {
        finality_target(
            m,
            votes,
            m[cur].header.parent_hash,
            finalized_height,
            threshold,
            fuel,
            (steps - 1) as nat,
        )
    } else {
        None
    }
}

/// The finality walk only settles on blocks above the finalized height.
pub proof fn lemma_finality_target_above(
    m: Map<types::Hash, Block>,
    votes: Seq<types::Hash>,
    cur: types::Hash,
    finalized_height: u64,
    threshold: nat,
    fuel: nat,
    steps: nat,
)
    ensures
        finality_target(m, votes, cur, finalized_height, threshold, fuel, steps) matches Some(h)
            ==> height_of(m, h) > finalized_height && m.contains_key(h),
    decreases steps,
{
    if !cur.is_zero() && height_of(m, cur) > finalized_height && vote_support(m, votes, cur, fuel)
        < threshold && m.contains_key(cur) && steps > 0 {
        lemma_finality_target_above(
            m,
            votes,
            m[cur].header.parent_hash,
            finalized_height,
            threshold,
            fuel,
            (steps - 1) as nat,
        );
    }
}

/// The headers of the stored blocks, in arrival order.
pub open spec fn header_seq(blocks: OrderedMap<types::Hash, Block>) -> Seq<Header> {
    blocks.value_seq().map_values(|b: Block| b.header)
}

/// The head that fork choice picks among the stored blocks.
pub open spec fn fork_choice(blocks: OrderedMap<types::Hash, Block>) -> types::Hash {
    blocks.key_seq()[consensus::best_index(header_seq(blocks))]
}

/// `a - b`, or 0 when `b` exceeds `a`.
pub open spec fn saturating_sub(a: u64, b: u64) -> u64 {
    if a >= b {
        (a - b) as u64
    } else {
        0
    }
}

/// Whether two headers tie under the fork-choice key: the same height and
/// the same slot.
pub open spec fn ranks_tie(a: Header, b: Header) -> bool {
    a.number == b.number && a.slot == b.slot
}

/// The head after a fork-choice re-evaluation and the re-org depth it
/// reports. The head stays when the pick ties with it (ties go by arrival,
/// so the head already chosen keeps its place). It moves to the pick when
/// the pick descends from it, reporting nothing: a chain extension. Else
/// it moves unless the pick branches off below the finalized height, and
/// the switch reports the number of old-chain blocks above the common
/// ancestor.
pub open spec fn reorg_outcome(
    blocks: OrderedMap<types::Hash, Block>,
    old_head: types::Hash,
    finalized_height: u64,
) -> (types::Hash, Option<u64>) {
    let m = blocks.map();
    let n = blocks.key_seq().len();
    let cand = fork_choice(blocks);
    if cand == old_head {
        (old_head, None)
    } else if ranks_tie(m[cand].header, m[old_head].header) {
        (old_head, None)
    } else if m[cand].header.parent_hash == old_head {
        (cand, None)
    } else {
        let anc = common_ancestor(m, old_head, cand, n);
        let anc_height = height_of(m, anc);
        if anc == old_head {
            (cand, None)
        } else if anc_height < finalized_height {
            (old_head, None)
        } else {
            (cand, Some(saturating_sub(height_of(m, old_head), anc_height)))
        }
    }
}

/// The genesis block: zero parent and roots, height and slot 0, author
/// "genesis", no extrinsics.
pub open spec fn is_genesis(b: Block) -> bool {
    &&& b.header.parent_hash.is_zero()
    &&& b.header.number == 0
    &&& b.header.state_root.is_zero()
    &&& b.header.extrinsics_root.is_zero()
    &&& b.header.slot == 0
    &&& b.header.author@ == seq!['g', 'e', 'n', 'e', 's', 'i', 's']
    &&& b.extrinsics@.len() == 0
}

/// A stored block is filed under its own identity and can be framed.
pub open spec fn block_filed(h: types::Hash, b: Block) -> bool {
    &&& h == b.header.id()
    &&& b.header.fits()
}

pub struct Node {
    pub id: String,
    pub runtime: Runtime,
    pub consensus: Consensus,
    pub blocks: OrderedMap<types::Hash, Block>,
    /// The primary flood-control record for P2P gossip.
    pub seen_blocks: OrderedSet<types::Hash>,
    pub best_head_hash: types::Hash,
    pub proposed_blocks: u64,
    pub imported_blocks: u64,
    // GRANDPA-lite state
    pub supermajority_threshold: usize,
    pub finalized_hash: types::Hash,
    pub finalized_height: u64,
    /// Maps validator id to the digest of its most recent vote.
    pub grandpa_votes: OrderedMap<String, types::Hash>,
}

/// Whether `h` occurs in `v`.
fn contains_hash(v: &Vec<types::Hash>, h: &types::Hash) -> (r: bool)
    ensures
        r == v@.contains(*h),
{
    let mut j: usize = 0;
    while j < v.len()
        invariant
            0 <= j <= v@.len(),
            forall|k: int| 0 <= k < j ==> v@[k] != *h,
        decreases v@.len() - j,
    {
        if v[j] == *h {
            assert(v@[j as int] == *h);
            return true;
        }
        j = j + 1;
    }
    assert(!v@.contains(*h)) by {
        if v@.contains(*h) {
            let k = v@.index_of(*h);
            assert(v@[k] == *h);
        }
    }
    false
}

/// Finality never moves down: a pick lies above the finalized height.
pub proof fn lemma_finality_raises(node: Node)
    ensures
        node.finality_pick() matches Some(h) ==> height_of(node.blocks.map(), h)
            > node.finalized_height,
{
    lemma_finality_target_above(
        node.blocks.map(),
        node.grandpa_votes.value_seq(),
        node.best_head_hash,
        node.finalized_height,
        node.supermajority_threshold as nat,
        node.fuel(),
        node.fuel(),
    );
}

impl Node {
    /// The node's invariant.
    pub open spec fn inv(self) -> bool {
        &&& self.blocks.wf()
        &&& self.seen_blocks.wf()
        &&& self.grandpa_votes.wf()
        &&& self.runtime.state.wf()
        &&& self.runtime.state.fits()
        &&& forall|h: types::Hash| #[trigger]
            self.blocks.map().contains_key(h) ==> block_filed(h, self.blocks.map()[h])
        &&& forall|h: types::Hash| #[trigger]
            self.blocks.map().contains_key(h) ==> self.seen_blocks.set().contains(h)
        &&& self.blocks.map().contains_key(self.best_head_hash)
    }

    /// The step bound of ancestry walks: the number of stored blocks.
    pub open spec fn fuel(self) -> nat {
        self.blocks.key_seq().len()
    }

    /// The common ancestor of two blocks in this node's tree.
    pub open spec fn ancestor_of(self, h1: types::Hash, h2: types::Hash) -> types::Hash {
        common_ancestor(self.blocks.map(), h1, h2, self.fuel())
    }

    /// The height of the current best head.
    pub open spec fn head_height(self) -> u64 {
        height_of(self.blocks.map(), self.best_head_hash)
    }

    /// Every stored header has a slot that fork choice can rank.
    pub open spec fn ranks_defined(self) -> bool {
        consensus::ranks_defined(header_seq(self.blocks))
    }

    /// The ancestry walk of `h` in this node's tree.
    fn ancestry_path(&self, h: types::Hash) -> (path: Vec<types::Hash>)
        requires
            self.inv(),
        ensures
            path@ == ancestry(self.blocks.map(), h, self.fuel()),
    {
        let ghost m = self.blocks.map();
        let n = self.blocks.len();
        let mut path: Vec<types::Hash> = Vec::new();
        let mut cur = h;
        let mut fuel = n;
        let zero = types::Hash::zero();
        loop
            invariant
                self.inv(),
                m == self.blocks.map(),
                n == self.fuel(),
                zero == types::Hash::zero_spec(),
                fuel <= n,
                path@ + ancestry(m, cur, fuel as nat) == ancestry(m, h, n as nat),
            ensures
                path@ + ancestry(m, cur, fuel as nat) == ancestry(m, h, n as nat),
                ancestry(m, cur, fuel as nat) == seq![cur],
            decreases fuel,
        {
            proof {
                types::Hash::lemma_zero_spec();
                if cur.is_zero() {
                    types::Hash::lemma_zero_unique(cur, zero);
                }
            }
            if fuel == 0 || cur == zero {
                break ;
            }
            match self.blocks.lookup(&cur) {
                Some(b) => {
                    let ghost before = path@;
                    assert(ancestry(m, cur, fuel as nat) == seq![cur] + ancestry(
                        m,
                        b.header.parent_hash,
                        (fuel - 1) as nat,
                    ));
                    path.push(cur);
                    cur = b.header.parent_hash;
                    fuel = fuel - 1;
                    assert(path@ + ancestry(m, cur, fuel as nat) =~= before + (seq![path@.last()]
                        + ancestry(m, cur, fuel as nat)));
                },
                None => {
                    break ;
                },
            }
        }
        let ghost before = path@;
        path.push(cur);
        assert(path@ =~= before + seq![cur]);
        path
    }

    /// Walks back the tree from two digests until a common ancestor is
    /// reached; genesis, whose parent link is zero, is the ultimate fallback.
    pub fn find_common_ancestor(&self, h1: types::Hash, h2: types::Hash) -> (anc: types::Hash)
        requires
            self.inv(),
        ensures
            anc == self.ancestor_of(h1, h2),
    {
        let path1 = self.ancestry_path(h1);
        let path2 = self.ancestry_path(h2);
        let mut i: usize = 0;
        assert(path2@.skip(0) =~= path2@);
        while i < path2.len()
            invariant
                0 <= i <= path2@.len(),
                path1@ == ancestry(self.blocks.map(), h1, self.fuel()),
                path2@ == ancestry(self.blocks.map(), h2, self.fuel()),
                first_shared(path2@, path1@) == first_shared(path2@.skip(i as int), path1@),
            decreases path2@.len() - i,
        {
            let ghost rest = path2@.skip(i as int);
            assert(rest[0] == path2@[i as int]);
            assert(rest.drop_first() =~= path2@.skip(i + 1));
            if contains_hash(&path1, &path2[i]) {
                assert(first_shared(rest, path1@) == rest[0]);
                return path2[i];
            }
            i = i + 1;
        }
        assert(path2@.skip(i as int).len() == 0);
        types::Hash::zero()
    }

    /// The finality target that the node's votes give from its best head.
    pub open spec fn finality_pick(self) -> Option<types::Hash> {
        finality_target(
            self.blocks.map(),
            self.grandpa_votes.value_seq(),
            self.best_head_hash,
            self.finalized_height,
            self.supermajority_threshold as nat,
            self.fuel(),
            self.fuel(),
        )
    }

    /// The number of stored votes for `target` or one of its descendants.
    fn count_support(&self, target: types::Hash) -> (c: usize)
        requires
            self.inv(),
        ensures
            c == vote_support(self.blocks.map(), self.grandpa_votes.value_seq(), target, self.fuel()),
    {
        let ghost votes = self.grandpa_votes.value_seq();
        let n = self.grandpa_votes.len();
        let mut c: usize = 0;
        let mut i: usize = 0;
        assert(votes.take(0) =~= Seq::<types::Hash>::empty());
        while i < n
            invariant
                self.inv(),
                votes == self.grandpa_votes.value_seq(),
                n == votes.len(),
                0 <= i <= n,
                c <= i,
                c == vote_support(self.blocks.map(), votes.take(i as int), target, self.fuel()),
            decreases n - i,
        {
            assert(votes.take(i + 1).drop_last() =~= votes.take(i as int));
            let v = *self.grandpa_votes.value_at(i);
            let anc = self.find_common_ancestor(target, v);
            if anc == target {
                c = c + 1;
            }
            i = i + 1;
        }
        assert(votes.take(n as int) =~= votes);
        c
    }

    /// Evaluates stored votes for prefix agreement: walking back from the
    /// best head, the first block above the finalized height with
    /// supermajority support becomes finalized. In GRANDPA, agreement on a
    /// block implies agreement on all its ancestors.
    fn try_finalize(&mut self)
        requires
            old(self).inv(),
        ensures
            final(self).inv(),
            final(self).blocks == old(self).blocks,
            final(self).seen_blocks == old(self).seen_blocks,
            final(self).grandpa_votes == old(self).grandpa_votes,
            final(self).best_head_hash == old(self).best_head_hash,
            final(self).id == old(self).id,
            final(self).runtime == old(self).runtime,
            final(self).consensus == old(self).consensus,
            final(self).proposed_blocks == old(self).proposed_blocks,
            final(self).imported_blocks == old(self).imported_blocks,
            final(self).supermajority_threshold == old(self).supermajority_threshold,
            match old(self).finality_pick() {
                Some(h) => final(self).finalized_hash == h && final(self).finalized_height
                    == height_of(old(self).blocks.map(), h),
                None => final(self).finalized_hash == old(self).finalized_hash
                    && final(self).finalized_height == old(self).finalized_height,
            },
    {
        let ghost m = self.blocks.map();
        let ghost pick = self.finality_pick();
        assert(pick == old(self).finality_pick());
        let zero = types::Hash::zero();
        let mut current = self.best_head_hash;
        let mut steps = self.blocks.len();
        loop
            invariant
                self.inv(),
                self == old(self),
                pick == old(self).finality_pick(),
                m == self.blocks.map(),
                zero == types::Hash::zero_spec(),
                steps <= self.fuel(),
                pick == finality_target(
                    m,
                    self.grandpa_votes.value_seq(),
                    current,
                    self.finalized_height,
                    self.supermajority_threshold as nat,
                    self.fuel(),
                    steps as nat,
                ),
            ensures
                self.inv(),
                self == old(self),
                pick is None,
            decreases steps,
        {
            proof {
                types::Hash::lemma_zero_spec();
                if current.is_zero() {
                    types::Hash::lemma_zero_unique(current, zero);
                }
            }
            if current == zero {
                break ;
            }
            let height = match self.blocks.lookup(&current) {
                Some(b) => b.header.number,
                None => 0,
            };
            if height <= self.finalized_height {
                break ;
            }
            let support = self.count_support(current);
            if support >= self.supermajority_threshold {
                assert(height == height_of(m, current));
                assert(pick == Some(current));
                self.finalized_hash = current;
                self.finalized_height = height;
                return ;
            }
            match self.blocks.lookup(&current) {
                Some(b) => {
                    if steps == 0 {
                        break ;
                    }
                    current = b.header.parent_hash;
                    steps = steps - 1;
                },
                None => {
                    break ;
                },
            }
        }
    }

    /// Process an incoming GRANDPA vote: a vote for a known block replaces
    /// the author's earlier vote, and finality is re-evaluated.
    pub fn handle_grandpa_vote(&mut self, author: String, hash: types::Hash)
        requires
            old(self).inv(),
        ensures
            final(self).inv(),
            final(self).blocks == old(self).blocks,
            final(self).seen_blocks == old(self).seen_blocks,
            final(self).best_head_hash == old(self).best_head_hash,
            final(self).imported_blocks == old(self).imported_blocks,
            final(self).proposed_blocks == old(self).proposed_blocks,
            final(self).supermajority_threshold == old(self).supermajority_threshold,
            final(self).id == old(self).id,
            final(self).runtime == old(self).runtime,
            final(self).consensus == old(self).consensus,
            !old(self).blocks.map().contains_key(hash) ==> *final(self) == *old(self),
            old(self).blocks.map().contains_key(hash) ==> {
                &&& final(self).grandpa_votes.map() == old(self).grandpa_votes.map().insert(
                    author@,
                    hash,
                )
                &&& old(self).grandpa_votes.map().contains_key(author@) ==> {
                    &&& final(self).grandpa_votes.key_seq() == old(self).grandpa_votes.key_seq()
                    &&& final(self).grandpa_votes.value_seq()
                        == old(self).grandpa_votes.value_seq().update(
                        old(self).grandpa_votes.key_seq().index_of(author@),
                        hash,
                    )
                }
                &&& !old(self).grandpa_votes.map().contains_key(author@) ==> {
                    &&& final(self).grandpa_votes.key_seq() == old(self).grandpa_votes.key_seq().push(
                        author@,
                    )
                    &&& final(self).grandpa_votes.value_seq()
                        == old(self).grandpa_votes.value_seq().push(hash)
                }
                &&& final(self).finalized_height >= old(self).finalized_height
                &&& ({
                    let mid = Node { grandpa_votes: final(self).grandpa_votes, ..*old(self) };
                    match mid.finality_pick() {
                        Some(h) => final(self).finalized_hash == h && final(self).finalized_height
                            == height_of(old(self).blocks.map(), h),
                        None => final(self).finalized_hash == old(self).finalized_hash
                            && final(self).finalized_height == old(self).finalized_height,
                    }
                })
            },
    {
        if self.blocks.contains_key(&hash) {
            self.grandpa_votes.insert(author, hash);
            proof {
                lemma_finality_raises(*self);
            }
            self.try_finalize();
        }
    }

    /// Each stored entry is filed under the identity of its header.
    proof fn lemma_entries_filed(self)
        requires
            self.inv(),
        ensures
            header_seq(self.blocks).len() == self.blocks.key_seq().len(),
            forall|i: int|
                0 <= i < self.blocks.key_seq().len() ==> {
                    &&& #[trigger] self.blocks.key_seq()[i] == header_seq(self.blocks)[i].id()
                    &&& header_seq(self.blocks)[i].fits()
                    &&& self.blocks.map().contains_key(self.blocks.key_seq()[i])
                    &&& self.blocks.map()[self.blocks.key_seq()[i]].header == header_seq(
                        self.blocks,
                    )[i]
                },
    {
        self.blocks.lemma_wf();
        assert forall|i: int| 0 <= i < self.blocks.key_seq().len() implies {
            &&& #[trigger] self.blocks.key_seq()[i] == header_seq(self.blocks)[i].id()
            &&& header_seq(self.blocks)[i].fits()
            &&& self.blocks.map().contains_key(self.blocks.key_seq()[i])
            &&& self.blocks.map()[self.blocks.key_seq()[i]].header == header_seq(self.blocks)[i]
        } by {
            let k = self.blocks.key_seq()[i];
            assert(self.blocks.map().contains_key(k));
            assert(block_filed(k, self.blocks.map()[k]));
        }
    }

    /// The headers of the stored blocks, in arrival order.
    fn collect_headers(&self) -> (hs: Vec<Header>)
        requires
            self.inv(),
        ensures
            hs@ == header_seq(self.blocks),
    {
        let n = self.blocks.len();
        let mut hs: Vec<Header> = Vec::new();
        let mut i: usize = 0;
        while i < n
            invariant
                self.inv(),
                n == self.blocks.key_seq().len(),
                n == self.blocks.value_seq().len(),
                0 <= i <= n,
                hs@ == header_seq(self.blocks).take(i as int),
            decreases n - i,
        {
            let b = self.blocks.value_at(i);
            hs.push(b.header.clone());
            i = i + 1;
            assert(hs@ =~= header_seq(self.blocks).take(i as int));
        }
        assert(header_seq(self.blocks).take(n as int) =~= header_seq(self.blocks));
        hs
    }

    /// Evaluates the canonical head by the fork-choice rule.
    ///
    /// Returns `Some(reorg_depth)` only on a genuine branch switch (re-org),
    /// when the new best head does not descend from the previous best;
    /// `None` for a chain extension or no change. A pick that ties with the
    /// current head leaves it in place, and a switch that would revert past
    /// the finalized height is rejected.
    fn reorg_chain(&mut self) -> (r: Option<u64>)
        requires
            old(self).inv(),
            old(self).ranks_defined(),
        ensures
            final(self).inv(),
            (final(self).best_head_hash, r) == reorg_outcome(
                old(self).blocks,
                old(self).best_head_hash,
                old(self).finalized_height,
            ),
            *final(self) == (Node { best_head_hash: final(self).best_head_hash, ..*old(self) }),
    {
        let ghost m = self.blocks.map();
        proof {
            self.lemma_entries_filed();
            self.blocks.lemma_wf();
        }
        let old_hash = self.best_head_hash;
        let old_height = self.best_height();
        let old_slot = match self.blocks.lookup(&old_hash) {
            Some(b) => b.header.slot,
            None => 0,
        };
        let headers = self.collect_headers();
        let ghost bi = consensus::best_index(headers@);
        proof {
            assert(self.blocks.key_seq().contains(old_hash));
            consensus::lemma_best_index_maximal(headers@);
        }
        let mut cand_number: u64 = old_height;
        let mut cand_slot: u64 = old_slot;
        match self.consensus.find_best_head(headers.as_slice()) {
            Some(best) => {
                proof {
                    assert(0 <= bi < headers@.len());
                    assert(self.blocks.key_seq()[bi] == header_seq(self.blocks)[bi].id());
                }
                cand_number = best.number;
                cand_slot = best.slot;
                self.best_head_hash = best.hash();
            },
            None => {},
        }
        assert(self.best_head_hash == fork_choice(old(self).blocks));
        assert(cand_number == m[self.best_head_hash].header.number);
        assert(cand_slot == m[self.best_head_hash].header.slot);
        if self.best_head_hash == old_hash {
            return None;
        }
        if cand_number == old_height && cand_slot == old_slot {
            self.best_head_hash = old_hash;
            return None;
        }
        let is_direct_extension = match self.blocks.lookup(&self.best_head_hash) {
            Some(b) => b.header.parent_hash == old_hash,
            None => false,
        };
        if is_direct_extension {
            None
        } else {
            let cand = self.best_head_hash;
            let ancestor_hash = self.find_common_ancestor(old_hash, cand);
            let ancestor_height = match self.blocks.lookup(&ancestor_hash) {
                Some(b) => b.header.number,
                None => 0,
            };
            if ancestor_hash == old_hash {
                return None;
            }
            if ancestor_height < self.finalized_height {
                self.best_head_hash = old_hash;
                return None;
            }
            Some(
                if old_height >= ancestor_height {
                    old_height - ancestor_height
                } else {
                    0
                },
            )
        }
    }

    /// Integrates a block into the local tree.
    ///
    /// Returns `Some(reorg_depth)` when a chain switch occurs (blocks
    /// discarded), `None` if the block was already seen or caused no
    /// branch switch. Every new block triggers a re-evaluation of the head.
    pub fn import_block(&mut self, block: Block) -> (r: Option<u64>)
        requires
            old(self).inv(),
            block.header.fits(),
            !old(self).seen_blocks.set().contains(block.header.id()) ==> {
                &&& old(self).imported_blocks < u64::MAX
                &&& old(self).ranks_defined()
                &&& !consensus::rank_overflows(block.header.slot)
            },
        ensures
            final(self).inv(),
            final(self).seen_blocks.set().contains(block.header.id()),
            final(self).finalized_hash == old(self).finalized_hash,
            final(self).finalized_height == old(self).finalized_height,
            old(self).seen_blocks.set().contains(block.header.id()) ==> r is None && *final(self)
                == *old(self),
            !old(self).seen_blocks.set().contains(block.header.id()) ==> {
                &&& final(self).seen_blocks.set() == old(self).seen_blocks.set().insert(
                    block.header.id(),
                )
                &&& final(self).blocks.map() == old(self).blocks.map().insert(
                    block.header.id(),
                    block,
                )
                &&& final(self).blocks.key_seq() == old(self).blocks.key_seq().push(
                    block.header.id(),
                )
                &&& final(self).blocks.value_seq() == old(self).blocks.value_seq().push(block)
                &&& final(self).imported_blocks == old(self).imported_blocks + 1
                &&& (final(self).best_head_hash, r) == reorg_outcome(
                    final(self).blocks,
                    old(self).best_head_hash,
                    old(self).finalized_height,
                )
                &&& *final(self) == (Node {
                    blocks: final(self).blocks,
                    seen_blocks: final(self).seen_blocks,
                    best_head_hash: final(self).best_head_hash,
                    imported_blocks: final(self).imported_blocks,
                    ..*old(self)
                })
            },
    {
        let hash = block.hash();
        if self.seen_blocks.contains(&hash) {
            return None;
        }
        let ghost old_headers = header_seq(self.blocks);
        self.seen_blocks.insert(hash);
        let prev = self.blocks.insert(hash, block);
        self.imported_blocks = self.imported_blocks + 1;
        proof {
            assert(header_seq(self.blocks) =~= old_headers.push(block.header));
            assert forall|h: types::Hash| #[trigger]
                self.blocks.map().contains_key(h) implies block_filed(h, self.blocks.map()[h])
                && self.seen_blocks.set().contains(h) by {
                if h != hash {
                    assert(old(self).blocks.map().contains_key(h));
                }
            }
        }
        self.reorg_chain()
    }

    /// Protocol genesis: a node whose tree holds the genesis block alone, as
    /// head and as finalized block, with the supermajority threshold
    /// ceil(2N/3) of `total_validators`.
    pub fn new(id: String, threshold: u64, total_validators: usize) -> (node: Self)
        requires
            total_validators * 2 + 2 <= usize::MAX,
        ensures
            node.inv(),
            node.id == id,
            node.consensus.validator_id == id,
            node.consensus.threshold == threshold,
            node.blocks.key_seq().len() == 1,
            node.blocks.map().contains_key(node.best_head_hash),
            is_genesis(node.blocks.map()[node.best_head_hash]),
            node.best_head_hash == node.blocks.map()[node.best_head_hash].header.id(),
            node.seen_blocks.set() == Set::<types::Hash>::empty().insert(node.best_head_hash),
            node.finalized_hash == node.best_head_hash,
            node.finalized_height == 0,
            node.proposed_blocks == 0,
            node.imported_blocks == 0,
            node.supermajority_threshold == (total_validators * 2 + 2) / 3,
            node.grandpa_votes.map() == Map::<Seq<char>, types::Hash>::empty(),
            node.runtime.state.map() == Map::<Seq<u8>, Seq<u8>>::empty(),
    {
        let genesis_author = String::from_str("genesis");
        proof {
            reveal_strlit("genesis");
            assert(genesis_author@ =~= seq!['g', 'e', 'n', 'e', 's', 'i', 's']);
            scale::lemma_utf8_len_bound(genesis_author@);
        }
        let genesis_header = Header {
            parent_hash: types::Hash::zero(),
            number: 0,
            state_root: types::Hash::zero(),
            extrinsics_root: types::Hash::zero(),
            slot: 0,
            author: genesis_author,
        };
        let genesis_block = Block { header: genesis_header, extrinsics: Vec::new() };
        let genesis_hash = genesis_block.hash();
        let mut blocks: OrderedMap<types::Hash, Block> = OrderedMap::new();
        let mut seen_blocks: OrderedSet<types::Hash> = OrderedSet::new();
        blocks.insert(genesis_hash, genesis_block);
        seen_blocks.insert(genesis_hash);
        let supermajority_threshold = (total_validators * 2 + 2) / 3;
        let runtime = Runtime::new();
        let node = Node {
            id: id.clone(),
            runtime,
            consensus: Consensus::new(id, threshold),
            blocks,
            seen_blocks,
            best_head_hash: genesis_hash,
            proposed_blocks: 0,
            imported_blocks: 0,
            supermajority_threshold,
            finalized_hash: genesis_hash,
            finalized_height: 0,
            grandpa_votes: OrderedMap::new(),
        };
        proof {
            node.blocks.lemma_wf();
            assert(node.blocks.key_seq() =~= seq![genesis_hash]);
            assert forall|h: types::Hash| #[trigger]
                node.blocks.map().contains_key(h) implies block_filed(h, node.blocks.map()[h])
                && node.seen_blocks.set().contains(h) by {
                assert(h == genesis_hash);
            }
            node.runtime.state.0.lemma_wf();
            assert(node.runtime.state.fits());
            assert(node.blocks.map()[genesis_hash] == genesis_block);
        }
        node
    }

    /// `next` is this node after authoring `b` for `slot`: `b` extends the
    /// best head by one, commits the current state root, carries no
    /// extrinsics, and is recorded, marked seen, made the head and counted.
    pub open spec fn authors(self, next: Node, b: Block, slot: Slot) -> bool {
        &&& b.header.parent_hash == self.best_head_hash
        &&& b.header.number == self.head_height() + 1
        &&& b.header.state_root.0@ == self.runtime.state.root_digest()
        &&& b.header.extrinsics_root.is_zero()
        &&& b.header.slot == slot
        &&& b.header.author == self.id
        &&& b.extrinsics@.len() == 0
        &&& next.blocks.map().contains_key(b.header.id())
        &&& next.blocks.map()[b.header.id()].same_as(b)
        &&& next.blocks.map().remove(b.header.id()) == self.blocks.map().remove(b.header.id())
        &&& !self.blocks.map().contains_key(b.header.id()) ==> {
            &&& next.blocks.key_seq() == self.blocks.key_seq().push(b.header.id())
            &&& next.blocks.value_seq() == self.blocks.value_seq().push(
                next.blocks.map()[b.header.id()],
            )
        }
        &&& self.blocks.map().contains_key(b.header.id()) ==> {
            &&& next.blocks.key_seq() == self.blocks.key_seq()
            &&& next.blocks.value_seq() == self.blocks.value_seq().update(
                self.blocks.key_seq().index_of(b.header.id()),
                next.blocks.map()[b.header.id()],
            )
        }
        &&& next.seen_blocks.set() == self.seen_blocks.set().insert(b.header.id())
        &&& next.best_head_hash == b.header.id()
        &&& next.proposed_blocks == self.proposed_blocks + 1
        &&& next == (Node {
            blocks: next.blocks,
            seen_blocks: next.seen_blocks,
            best_head_hash: next.best_head_hash,
            proposed_blocks: next.proposed_blocks,
            ..self
        })
    }

    /// Authors the next block on the best head for `slot`: it records the
    /// block, makes it the head and counts it as proposed.
    pub fn author_block(&mut self, slot: Slot) -> (b: Block)
        requires
            old(self).inv(),
            scale::text_fits(old(self).id@),
            old(self).head_height() < u64::MAX,
            old(self).proposed_blocks < u64::MAX,
        ensures
            final(self).inv(),
            old(self).authors(*final(self), b, slot),
    {
        let parent_number = self.best_height();
        let header = Header {
            parent_hash: self.best_head_hash,
            number: parent_number + 1,
            state_root: self.runtime.state.root(),
            extrinsics_root: types::Hash::zero(),
            slot,
            author: self.id.clone(),
        };
        let block = Block { header, extrinsics: Vec::new() };
        let hash = block.hash();
        let out = block.clone();
        assert(out.extrinsics_view().len() == out.extrinsics@.len());
        assert(block.extrinsics_view().len() == block.extrinsics@.len());
        self.blocks.insert(hash, block);
        self.seen_blocks.insert(hash);
        self.best_head_hash = hash;
        self.proposed_blocks = self.proposed_blocks + 1;
        proof {
            assert(self.blocks.map().remove(hash) =~= old(self).blocks.map().remove(hash));
            assert forall|h: types::Hash| #[trigger]
                self.blocks.map().contains_key(h) implies block_filed(h, self.blocks.map()[h])
                && self.seen_blocks.set().contains(h) by {
                if h != hash {
                    assert(old(self).blocks.map().contains_key(h));
                }
            }
        }
        out
    }

    /// Authors a new block candidate for the target slot when the
    /// consensus engine grants the slot.
    pub fn propose_block(&mut self, slot: Slot, randomness: [u8; 32]) -> (r: Option<Block>)
        requires
            old(self).inv(),
            old(self).consensus.wins(randomness@) ==> scale::text_fits(old(self).id@)
                && old(self).head_height() < u64::MAX && old(self).proposed_blocks < u64::MAX,
        ensures
            final(self).inv(),
            !old(self).consensus.wins(randomness@) ==> r is None && *final(self) == *old(self),
            old(self).consensus.wins(randomness@) ==> (r matches Some(b) && old(self).authors(
                *final(self),
                b,
                slot,
            )),
    {
        if self.consensus.claim_slot(slot, randomness) {
            Some(self.author_block(slot))
        } else {
            None
        }
    }

    /// Returns the height of the current canonical head.
    pub fn best_height(&self) -> (h: u64)
        requires
            self.inv(),
        ensures
            h == self.head_height(),
    {
        match self.blocks.lookup(&self.best_head_hash) {
            Some(b) => b.header.number,
            None => 0,
        }
    }
}

} // verus!

verus! {

/// The supermajority threshold `(2N + 2) / 3` is the ceiling of 2N/3: the
/// least count whose triple reaches twice the validator count.
pub proof fn lemma_supermajority_is_ceiling(total_validators: nat)
    ensures
        3 * ((2 * total_validators + 2) / 3) >= 2 * total_validators,
        3 * ((2 * total_validators + 2) / 3) < 2 * total_validators + 3,
{
}

/// A re-org never reverts past the finalized height: the head that fork
/// choice leaves is the old head, a child of it, a block descending from
/// it, or a block whose common ancestor with the old head lies at or above
/// the finalized height.
pub proof fn lemma_reorg_respects_finality(
    blocks: OrderedMap<types::Hash, Block>,
    old_head: types::Hash,
    finalized_height: u64,
)
    ensures
        ({
            let m = blocks.map();
            let new_head = reorg_outcome(blocks, old_head, finalized_height).0;
            ||| new_head == old_head
            ||| m[new_head].header.parent_hash == old_head
            ||| common_ancestor(m, old_head, new_head, blocks.key_seq().len()) == old_head
            ||| height_of(m, common_ancestor(m, old_head, new_head, blocks.key_seq().len()))
                >= finalized_height
        }),
{
}

/// A block is its own common ancestor.
pub proof fn lemma_ancestor_of_self(m: Map<types::Hash, Block>, h: types::Hash, fuel: nat)
    ensures
        common_ancestor(m, h, h, fuel) == h,
{
    let p = ancestry(m, h, fuel);
    assert(p[0] == h);
    assert(p.contains(h));
}

/// A node's precommit for its own best head is valid for it.
pub proof fn lemma_own_precommit_valid(node: Node, p: crate::protocol::grandpa::Precommit)
    requires
        node.inv(),
        p.target_hash == node.best_head_hash,
    ensures
        p.valid_for(node),
{
    lemma_ancestor_of_self(node.blocks.map(), node.best_head_hash, node.fuel());
}

} // verus!

verus! {

/// A block tree rooted at genesis `g`: `g` is stored with height 0 and a
/// zero parent link, no stored block has the zero digest, and every other
/// stored block has its parent stored one height below it.
pub open spec fn rooted_tree(m: Map<types::Hash, Block>, g: types::Hash) -> bool {
    &&& m.contains_key(g)
    &&& m[g].header.number == 0
    &&& m[g].header.parent_hash.is_zero()
    &&& forall|h: types::Hash| #[trigger] m.contains_key(h) ==> !h.is_zero()
    &&& forall|h: types::Hash|
        #[trigger] m.contains_key(h) && h != g ==> {
            &&& m.contains_key(m[h].header.parent_hash)
            &&& m[m[h].header.parent_hash].header.number + 1 == m[h].header.number
        }
}

/// In a rooted tree the walk from a stored block, given fuel for its
/// height, runs down one height per step to genesis and then to the zero
/// digest; more fuel does not change it.
proof fn lemma_tree_walk(m: Map<types::Hash, Block>, g: types::Hash, h: types::Hash, f: nat)
    requires
        rooted_tree(m, g),
        m.contains_key(h),
        f >= m[h].header.number + 1,
    ensures
        ancestry(m, h, f).len() == m[h].header.number + 2,
        forall|i: int|
            0 <= i <= m[h].header.number ==> m.contains_key(#[trigger] ancestry(m, h, f)[i])
                && m[ancestry(m, h, f)[i]].header.number == m[h].header.number - i,
        ancestry(m, h, f)[m[h].header.number + 1].is_zero(),
        ancestry(m, h, f) == ancestry(m, h, (m[h].header.number + 1) as nat),
    decreases m[h].header.number,
{
    let w = ancestry(m, h, f);
    assert(!h.is_zero());
    if h == g {
        let z = m[g].header.parent_hash;
        assert(ancestry(m, z, (f - 1) as nat) == seq![z]);
        assert(ancestry(m, z, 0) == seq![z]);
        assert(w == seq![h] + seq![z]);
    } else {
        let p = m[h].header.parent_hash;
        assert(m.contains_key(p));
        lemma_tree_walk(m, g, p, (f - 1) as nat);
        let wp = ancestry(m, p, (f - 1) as nat);
        assert(w == seq![h] + wp);
        assert(w[m[h].header.number + 1] == wp[m[p].header.number + 1]);
        assert forall|i: int|
            0 <= i <= m[h].header.number implies m.contains_key(#[trigger] w[i])
            && m[w[i]].header.number == m[h].header.number - i by {
            if i > 0 {
                assert(w[i] == wp[i - 1]);
            }
        }
        assert(ancestry(m, h, (m[h].header.number + 1) as nat) == seq![h] + ancestry(
            m,
            p,
            m[h].header.number as nat,
        ));
    }
}

/// In a rooted tree no block stands higher than the count of stored blocks
/// allows: its walk down to genesis visits that many distinct blocks.
proof fn lemma_tree_height_bound(
    m: Map<types::Hash, Block>,
    g: types::Hash,
    ks: Seq<types::Hash>,
    h: types::Hash,
)
    requires
        rooted_tree(m, g),
        m.contains_key(h),
        ks.no_duplicates(),
        forall|k: types::Hash| #[trigger] m.contains_key(k) <==> ks.contains(k),
    ensures
        m[h].header.number + 1 <= ks.len(),
{
    let n = m[h].header.number;
    let f = (n + 1) as nat;
    lemma_tree_walk(m, g, h, f);
    let w = ancestry(m, h, f);
    let pre = w.take(n + 1);
    assert forall|i: int, j: int| 0 <= i < j < pre.len() implies pre[i] != pre[j] by {
        assert(pre[i] == w[i]);
        assert(pre[j] == w[j]);
        assert(m[w[i]].header.number != m[w[j]].header.number);
    }
    assert(pre.no_duplicates());
    pre.unique_seq_to_set();
    ks.unique_seq_to_set();
    assert forall|x: types::Hash| pre.to_set().contains(x) implies ks.to_set().contains(x) by {
        let i = choose|i: int| 0 <= i < pre.len() && pre[i] == x;
        assert(pre[i] == w[i]);
        assert(m.contains_key(w[i]));
    }
    vstd::set_lib::lemma_len_subset(pre.to_set(), ks.to_set());
}


/// The walk from the `i`-th block of a walk is the rest of that walk.
proof fn lemma_walk_suffix(m: Map<types::Hash, Block>, h: types::Hash, f: nat, i: int)
    requires
        0 <= i < ancestry(m, h, f).len(),
    ensures
        i <= f,
        ancestry(m, h, f).skip(i) == ancestry(m, ancestry(m, h, f)[i], (f - i) as nat),
    decreases i,
{
    let w = ancestry(m, h, f);
    if i == 0 {
        assert(w.skip(0) =~= w);
    } else {
        let p = m[h].header.parent_hash;
        let wp = ancestry(m, p, (f - 1) as nat);
        assert(w == seq![h] + wp);
        lemma_walk_suffix(m, p, (f - 1) as nat, i - 1);
        assert(w.skip(i) =~= wp.skip(i - 1));
        assert(w[i] == wp[i - 1]);
    }
}

/// The first shared digest lies on both walks, no later than any shared
/// position `k` of the second.
proof fn lemma_first_shared_found(p2: Seq<types::Hash>, p1: Seq<types::Hash>, k: int) -> (i: int)
    requires
        0 <= k < p2.len(),
        p1.contains(p2[k]),
    ensures
        0 <= i <= k,
        p2[i] == first_shared(p2, p1),
        p1.contains(first_shared(p2, p1)),
    decreases p2.len(),
{
    if p1.contains(p2[0]) {
        0
    } else {
        let r = lemma_first_shared_found(p2.drop_first(), p1, k - 1);
        r + 1
    }
}

/// In a rooted tree the walk (with the node's fuel) from the `i`-th block
/// of a block's walk is the rest of that walk.
proof fn lemma_walk_through(
    m: Map<types::Hash, Block>,
    g: types::Hash,
    ks: Seq<types::Hash>,
    h: types::Hash,
    i: int,
)
    requires
        rooted_tree(m, g),
        m.contains_key(h),
        ks.no_duplicates(),
        forall|k: types::Hash| #[trigger] m.contains_key(k) <==> ks.contains(k),
        0 <= i <= m[h].header.number,
    ensures
        ancestry(m, h, ks.len()).len() == m[h].header.number + 2,
        m.contains_key(ancestry(m, h, ks.len())[i]),
        m[ancestry(m, h, ks.len())[i]].header.number == m[h].header.number - i,
        ancestry(m, ancestry(m, h, ks.len())[i], ks.len()) == ancestry(m, h, ks.len()).skip(i),
{
    let n = ks.len();
    lemma_tree_height_bound(m, g, ks, h);
    lemma_tree_walk(m, g, h, n);
    let w = ancestry(m, h, n);
    let x = w[i];
    lemma_walk_suffix(m, h, n, i);
    lemma_tree_walk(m, g, x, (n - i) as nat);
    lemma_tree_walk(m, g, x, n);
}

/// A stored block on a block's walk stands at a position no greater than
/// the block's height.
proof fn lemma_walk_position(
    m: Map<types::Hash, Block>,
    g: types::Hash,
    ks: Seq<types::Hash>,
    h: types::Hash,
    x: types::Hash,
) -> (i: int)
    requires
        rooted_tree(m, g),
        m.contains_key(h),
        m.contains_key(x),
        ks.no_duplicates(),
        forall|k: types::Hash| #[trigger] m.contains_key(k) <==> ks.contains(k),
        ancestry(m, h, ks.len()).contains(x),
    ensures
        0 <= i <= m[h].header.number,
        ancestry(m, h, ks.len())[i] == x,
{
    let w = ancestry(m, h, ks.len());
    lemma_tree_height_bound(m, g, ks, h);
    lemma_tree_walk(m, g, h, ks.len());
    let i = choose|i: int| 0 <= i < w.len() && w[i] == x;
    assert(!x.is_zero());
    i
}

/// Two walks that meet at a stored block share everything below it: what
/// lies on the first walk at or after the meeting point lies on the second.
proof fn lemma_walk_transfer(
    m: Map<types::Hash, Block>,
    g: types::Hash,
    ks: Seq<types::Hash>,
    h1: types::Hash,
    i1: int,
    h2: types::Hash,
    i2: int,
    j: int,
)
    requires
        rooted_tree(m, g),
        m.contains_key(h1),
        m.contains_key(h2),
        ks.no_duplicates(),
        forall|k: types::Hash| #[trigger] m.contains_key(k) <==> ks.contains(k),
        0 <= i1 <= j <= m[h1].header.number,
        0 <= i2 <= m[h2].header.number,
        ancestry(m, h1, ks.len())[i1] == ancestry(m, h2, ks.len())[i2],
    ensures
        ancestry(m, h2, ks.len()).contains(ancestry(m, h1, ks.len())[j]),
{
    let w1 = ancestry(m, h1, ks.len());
    let w2 = ancestry(m, h2, ks.len());
    lemma_walk_through(m, g, ks, h1, i1);
    lemma_walk_through(m, g, ks, h2, i2);
    assert(w1.skip(i1) == w2.skip(i2));
    assert(w1.skip(i1)[j - i1] == w1[j]);
    assert(w2.skip(i2)[j - i1] == w2[i2 + j - i1]);
}

/// The finalized block stays on the walk of a child of the head.
proof fn lemma_finalized_child_case(
    m: Map<types::Hash, Block>,
    g: types::Hash,
    ks: Seq<types::Hash>,
    old_head: types::Hash,
    cand: types::Hash,
    fin: types::Hash,
)
    requires
        rooted_tree(m, g),
        m.contains_key(old_head),
        m.contains_key(cand),
        m.contains_key(fin),
        ks.no_duplicates(),
        forall|k: types::Hash| #[trigger] m.contains_key(k) <==> ks.contains(k),
        ancestry(m, old_head, ks.len()).contains(fin),
        m[cand].header.parent_hash == old_head,
    ensures
        ancestry(m, cand, ks.len()).contains(fin),
{
    let n = ks.len();
    let jf = lemma_walk_position(m, g, ks, old_head, fin);
    assert(cand != g);
    lemma_tree_height_bound(m, g, ks, cand);
    lemma_tree_walk(m, g, cand, n);
    let wn = ancestry(m, cand, n);
    assert(wn == seq![cand] + ancestry(m, old_head, (n - 1) as nat));
    assert(wn[1] == old_head);
    lemma_walk_transfer(m, g, ks, old_head, 0, cand, 1, jf);
}

/// The finalized block stays on the walk of a block whose common ancestor
/// with the head is the head itself or stands at or above the finalized
/// height.
proof fn lemma_finalized_branch_case(
    m: Map<types::Hash, Block>,
    g: types::Hash,
    ks: Seq<types::Hash>,
    old_head: types::Hash,
    cand: types::Hash,
    fin: types::Hash,
)
    requires
        rooted_tree(m, g),
        m.contains_key(old_head),
        m.contains_key(cand),
        m.contains_key(fin),
        ks.no_duplicates(),
        forall|k: types::Hash| #[trigger] m.contains_key(k) <==> ks.contains(k),
        ancestry(m, old_head, ks.len()).contains(fin),
        ({
            let anc = common_ancestor(m, old_head, cand, ks.len());
            anc == old_head || height_of(m, anc) >= m[fin].header.number
        }),
    ensures
        ancestry(m, cand, ks.len()).contains(fin),
{
    let n = ks.len();
    let wo = ancestry(m, old_head, n);
    let wn = ancestry(m, cand, n);
    let jf = lemma_walk_position(m, g, ks, old_head, fin);
    lemma_tree_height_bound(m, g, ks, cand);
    lemma_tree_height_bound(m, g, ks, old_head);
    let gi = m[cand].header.number as int;
    lemma_tree_walk(m, g, cand, n);
    lemma_tree_walk(m, g, old_head, n);
    assert(m[wn[gi]].header.number == 0);
    assert(wn[gi] == g);
    assert(wo[m[old_head].header.number as int] == g);
    assert(wo.contains(g));
    let b = lemma_first_shared_found(wn, wo, gi);
    let anc = first_shared(wn, wo);
    assert(anc == common_ancestor(m, old_head, cand, n));
    assert(m.contains_key(anc));
    let a = lemma_walk_position(m, g, ks, old_head, anc);
    lemma_walk_through(m, g, ks, old_head, a);
    if anc == old_head {
        lemma_walk_through(m, g, ks, old_head, 0);
        lemma_walk_transfer(m, g, ks, old_head, 0, cand, b, jf);
    } else {
        lemma_walk_through(m, g, ks, old_head, jf);
        assert(a <= jf);
        lemma_walk_transfer(m, g, ks, old_head, a, cand, b, jf);
    }
}

/// Finality is safe along the chain: in a block tree rooted at genesis, if
/// the finalized block lies on the walk of the head, it still lies on the
/// walk of the head that a fork-choice re-evaluation leaves (as `reorg_chain`
/// and `import_block` apply it).
pub proof fn lemma_finalized_stays_on_walk(
    blocks: OrderedMap<types::Hash, Block>,
    g: types::Hash,
    old_head: types::Hash,
    fin: types::Hash,
    fin_height: u64,
)
    requires
        blocks.wf(),
        rooted_tree(blocks.map(), g),
        blocks.map().contains_key(old_head),
        blocks.map().contains_key(fin),
        blocks.map()[fin].header.number == fin_height,
        ancestry(blocks.map(), old_head, blocks.key_seq().len()).contains(fin),
    ensures
        ancestry(
            blocks.map(),
            reorg_outcome(blocks, old_head, fin_height).0,
            blocks.key_seq().len(),
        ).contains(fin),
{
    let m = blocks.map();
    let ks = blocks.key_seq();
    blocks.lemma_wf();
    let hs = header_seq(blocks);
    assert(ks.contains(old_head));
    assert(hs.len() == ks.len());
    consensus::lemma_best_index_maximal(hs);
    let cand = fork_choice(blocks);
    assert(m.contains_key(cand));
    let new_head = reorg_outcome(blocks, old_head, fin_height).0;
    if new_head != old_head {
        if m[cand].header.parent_hash == old_head {
            lemma_finalized_child_case(m, g, ks, old_head, cand, fin);
        } else {
            lemma_finalized_branch_case(m, g, ks, old_head, cand, fin);
        }
    }
}

/// Every stored block whose parent is stored stands above its parent.
pub open spec fn parents_below(m: Map<types::Hash, Block>) -> bool {
    forall|h: types::Hash|
        #[trigger] m.contains_key(h) && m.contains_key(m[h].header.parent_hash) ==> m[m[h].header.parent_hash].header.number
            < m[h].header.number
}

/// Where parents stand below their children, the finality walk settles on
/// a block no higher than the block it starts from.
pub proof fn lemma_finality_below_start(
    m: Map<types::Hash, Block>,
    votes: Seq<types::Hash>,
    cur: types::Hash,
    finalized_height: u64,
    threshold: nat,
    fuel: nat,
    steps: nat,
)
    requires
        parents_below(m),
    ensures
        finality_target(m, votes, cur, finalized_height, threshold, fuel, steps) matches Some(h)
            ==> height_of(m, h) <= height_of(m, cur),
    decreases steps,
{
    if !cur.is_zero() && height_of(m, cur) > finalized_height && vote_support(m, votes, cur, fuel)
        < threshold && m.contains_key(cur) && steps > 0 {
        let p = m[cur].header.parent_hash;
        lemma_finality_below_start(m, votes, p, finalized_height, threshold, fuel, (steps - 1) as nat);
    }
}

/// Fork choice never lowers the head: the head a re-evaluation leaves
/// stands at least as high as the old head.
pub proof fn lemma_reorg_keeps_height(
    blocks: OrderedMap<types::Hash, Block>,
    old_head: types::Hash,
    finalized_height: u64,
)
    requires
        blocks.wf(),
        blocks.map().contains_key(old_head),
    ensures
        height_of(blocks.map(), reorg_outcome(blocks, old_head, finalized_height).0) >= height_of(
            blocks.map(),
            old_head,
        ),
{
    let m = blocks.map();
    let ks = blocks.key_seq();
    blocks.lemma_wf();
    let hs = header_seq(blocks);
    assert(ks.contains(old_head));
    let j = choose|j: int| 0 <= j < ks.len() && ks[j] == old_head;
    assert(hs.len() == ks.len());
    consensus::lemma_best_index_maximal(hs);
    let bi = consensus::best_index(hs);
    assert(m.contains_key(ks[bi]));
    assert(hs[j] == m[old_head].header);
    assert(hs[bi] == m[ks[bi]].header);
    assert(!consensus::ranks_above(hs[j], hs[bi]));
}

/// Finality stays at or below the head: where parents stand below their
/// children, a node whose finalized height is at or below its head height
/// keeps it so through finalization (which walks down from the head) and
/// through fork choice (which never lowers the head).
pub proof fn lemma_finalized_below_head(node: Node)
    requires
        node.inv(),
        parents_below(node.blocks.map()),
        node.finalized_height <= node.head_height(),
    ensures
        node.finality_pick() matches Some(h) ==> height_of(node.blocks.map(), h)
            <= node.head_height(),
        node.finalized_height <= height_of(
            node.blocks.map(),
            reorg_outcome(node.blocks, node.best_head_hash, node.finalized_height).0,
        ),
{
    lemma_finality_below_start(
        node.blocks.map(),
        node.grandpa_votes.value_seq(),
        node.best_head_hash,
        node.finalized_height,
        node.supermajority_threshold as nat,
        node.fuel(),
        node.fuel(),
    );
    lemma_reorg_keeps_height(node.blocks, node.best_head_hash, node.finalized_height);
}

/// In a rooted tree the common ancestor that a vote for `v` has with `b`
/// is `b` exactly when `b` lies on the walk of `v`.
proof fn lemma_common_ancestor_on_walk(
    m: Map<types::Hash, Block>,
    g: types::Hash,
    ks: Seq<types::Hash>,
    b: types::Hash,
    v: types::Hash,
)
    requires
        rooted_tree(m, g),
        m.contains_key(b),
        m.contains_key(v),
        ks.no_duplicates(),
        forall|k: types::Hash| #[trigger] m.contains_key(k) <==> ks.contains(k),
    ensures
        (common_ancestor(m, b, v, ks.len()) == b) == ancestry(m, v, ks.len()).contains(b),
{
    let n = ks.len();
    let wv = ancestry(m, v, n);
    let wb = ancestry(m, b, n);
    lemma_tree_height_bound(m, g, ks, v);
    lemma_tree_height_bound(m, g, ks, b);
    lemma_tree_walk(m, g, v, n);
    lemma_tree_walk(m, g, b, n);
    assert(wb[0] == b);
    assert(wb.contains(b));
    if wv.contains(b) {
        let i = lemma_walk_position(m, g, ks, v, b);
        let j = lemma_first_shared_found(wv, wb, i);
        let r = first_shared(wv, wb);
        assert(m.contains_key(wv[j]));
        let a = lemma_walk_position(m, g, ks, b, r);
        assert(m[r].header.number == m[v].header.number - j);
        assert(m[b].header.number == m[v].header.number - i);
        assert(m[wb[a]].header.number == m[b].header.number - a);
        assert(a == 0);
    } else {
        let gv = m[v].header.number as int;
        let gb = m[b].header.number as int;
        assert(m[wv[gv]].header.number == 0);
        assert(wv[gv] == g);
        assert(m[wb[gb]].header.number == 0);
        assert(wb[gb] == g);
        assert(wb.contains(g));
        let j = lemma_first_shared_found(wv, wb, gv);
        if first_shared(wv, wb) == b {
            assert(wv[j] == b);
            assert(wv.contains(b));
        }
    }
}

/// A vote for a descendant is a vote for its ancestors: in a block tree
/// rooted at genesis, a further vote for a stored block `v` raises the
/// support of a stored block `b` by one exactly when `b` lies on the walk
/// from `v` down to genesis (`b` itself or an ancestor of `v`), and
/// leaves it otherwise; no votes give no support.
pub proof fn lemma_support_counts_descendant_votes(
    blocks: OrderedMap<types::Hash, Block>,
    g: types::Hash,
    votes: Seq<types::Hash>,
    b: types::Hash,
    v: types::Hash,
)
    requires
        blocks.wf(),
        rooted_tree(blocks.map(), g),
        blocks.map().contains_key(b),
        blocks.map().contains_key(v),
    ensures
        vote_support(blocks.map(), Seq::empty(), b, blocks.key_seq().len()) == 0,
        vote_support(blocks.map(), votes.push(v), b, blocks.key_seq().len()) == vote_support(
            blocks.map(),
            votes,
            b,
            blocks.key_seq().len(),
        ) + if ancestry(blocks.map(), v, blocks.key_seq().len()).contains(b) {
            1int
        } else {
            0int
        },
{
    blocks.lemma_wf();
    lemma_common_ancestor_on_walk(blocks.map(), g, blocks.key_seq(), b, v);
    assert(votes.push(v).drop_last() =~= votes);
}

/// A precommit is valid exactly when its target is a known block on the
/// walk from the node's best head down to genesis (the head itself or one
/// of its ancestors), in a block tree rooted at genesis.
pub proof fn lemma_precommit_valid_iff_on_head_chain(
    node: Node,
    g: types::Hash,
    p: crate::protocol::grandpa::Precommit,
)
    requires
        node.inv(),
        rooted_tree(node.blocks.map(), g),
    ensures
        p.valid_for(node) <==> node.blocks.map().contains_key(p.target_hash) && ancestry(
            node.blocks.map(),
            node.best_head_hash,
            node.fuel(),
        ).contains(p.target_hash),
{
    let m = node.blocks.map();
    let ks = node.blocks.key_seq();
    let n = ks.len();
    let h = node.best_head_hash;
    let t = p.target_hash;
    node.blocks.lemma_wf();
    if m.contains_key(t) {
        let wt = ancestry(m, t, n);
        let wh = ancestry(m, h, n);
        lemma_tree_height_bound(m, g, ks, t);
        lemma_tree_height_bound(m, g, ks, h);
        lemma_tree_walk(m, g, t, n);
        lemma_tree_walk(m, g, h, n);
        assert(wt[0] == t);
        if !wh.contains(t) {
            let gt = m[t].header.number as int;
            let gh = m[h].header.number as int;
            assert(m[wt[gt]].header.number == 0);
            assert(wt[gt] == g);
            assert(m[wh[gh]].header.number == 0);
            assert(wh[gh] == g);
            assert(wh.contains(g));
            let j = lemma_first_shared_found(wt, wh, gt);
            assert(first_shared(wt, wh) != t);
        }
    }
}

/// A reported re-org depth counts the discarded blocks: in a block tree
/// rooted at genesis, when fork choice switches the head to a block that
/// does not descend from the old head and reports `Some(d)`, the first `d`
/// blocks on the old head's walk (the old head and the blocks below it)
/// are all off the new head's walk, and the next block on it is on the new
/// head's walk; `d` is at least one.
pub proof fn lemma_reorg_depth_counts_discarded(
    blocks: OrderedMap<types::Hash, Block>,
    g: types::Hash,
    old_head: types::Hash,
    finalized_height: u64,
)
    requires
        blocks.wf(),
        rooted_tree(blocks.map(), g),
        blocks.map().contains_key(old_head),
    ensures
        ({
            let m = blocks.map();
            let n = blocks.key_seq().len();
            let (new_head, r) = reorg_outcome(blocks, old_head, finalized_height);
            r matches Some(d) ==> {
                &&& 1 <= d <= m[old_head].header.number
                &&& ancestry(m, new_head, n).contains(ancestry(m, old_head, n)[d as int])
                &&& forall|i: int|
                    0 <= i < d ==> !ancestry(m, new_head, n).contains(
                        #[trigger] ancestry(m, old_head, n)[i],
                    )
            }
        }),
{
    let m = blocks.map();
    let ks = blocks.key_seq();
    let n = ks.len();
    blocks.lemma_wf();
    let hs = header_seq(blocks);
    assert(ks.contains(old_head));
    assert(hs.len() == ks.len());
    consensus::lemma_best_index_maximal(hs);
    let cand = fork_choice(blocks);
    assert(m.contains_key(cand));
    let (new_head, r) = reorg_outcome(blocks, old_head, finalized_height);
    if r is Some {
        assert(new_head == cand);
        let wo = ancestry(m, old_head, n);
        let wn = ancestry(m, cand, n);
        lemma_tree_height_bound(m, g, ks, cand);
        lemma_tree_height_bound(m, g, ks, old_head);
        lemma_tree_walk(m, g, cand, n);
        lemma_tree_walk(m, g, old_head, n);
        let gi = m[cand].header.number as int;
        assert(m[wn[gi]].header.number == 0);
        assert(wn[gi] == g);
        assert(m[wo[m[old_head].header.number as int]].header.number == 0);
        assert(wo[m[old_head].header.number as int] == g);
        assert(wo.contains(g));
        let b = lemma_first_shared_found(wn, wo, gi);
        let anc = first_shared(wn, wo);
        assert(anc == common_ancestor(m, old_head, cand, n));
        assert(m.contains_key(anc));
        let a = lemma_walk_position(m, g, ks, old_head, anc);
        assert(m[anc].header.number == m[cand].header.number - b);
        assert(anc != old_head);
        assert(a != 0);
        let d = r->0;
        assert(d == a);
        assert(wn.contains(wo[a]));
        assert forall|i: int| 0 <= i < d implies !wn.contains(#[trigger] wo[i]) by {
            if wn.contains(wo[i]) {
                let x = wo[i];
                assert(m.contains_key(x));
                assert(m[x].header.number == m[old_head].header.number - i);
                let c = lemma_walk_position(m, g, ks, cand, x);
                let i0 = lemma_first_shared_found(wn, wo, c);
                assert(m[wn[i0]].header.number == m[cand].header.number - i0);
                assert(m[wn[c]].header.number == m[cand].header.number - c);
                assert(false);
            }
        }
    }
}

} // verus!
