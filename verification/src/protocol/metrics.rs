//! Counters and observations of a simulation run.
use vstd::prelude::*;
use crate::collections::ordered_map::OrderedMap;
use crate::primitives::types;

verus! {

/// Whether all digests of a sequence agree (every adjacent pair is equal).
pub open spec fn all_agree(heads: Seq<types::Hash>) -> bool {
    forall|i: int| 0 <= i < heads.len() - 1 ==> #[trigger] heads[i] == heads[i + 1]
}

/// How many entries of `vs` equal `x`.
pub open spec fn count_equal(vs: Seq<u64>, x: u64) -> nat
    decreases vs.len(),
{
    if vs.len() == 0 {
        0
    } else {
        count_equal(vs.drop_last(), x) + if vs.last() == x {
            1nat
        } else {
            0nat
        }
    }
}

/// The greatest entry of `vs`, and 0 for an empty sequence.
pub open spec fn seq_max(vs: Seq<u64>) -> u64
    decreases vs.len(),
{
    if vs.len() == 0 {
        0
    } else {
        let m = seq_max(vs.drop_last());
        if vs.last() > m {
            vs.last()
        } else {
            m
        }
    }
}

pub struct SimMetrics {
    pub total_slots: u64,
    pub validator_count: usize,
    pub total_blocks_authored: u64,
    pub max_height_achieved: u64,
    pub slot_collisions: u64,
    pub node_final_heights: OrderedMap<String, u64>,
    pub node_finalized_heights: OrderedMap<String, u64>,
    /// Slot at which the most-recently-opened, unresolved fork began.
    pub open_fork_slot: Option<u64>,
    /// Recorded convergence latencies (in slots) for each resolved fork.
    pub convergence_latencies: Vec<u64>,
    /// Re-org depths recorded on import-triggered chain switches.
    pub reorg_depths: Vec<u64>,
    // GRANDPA-specific metrics
    pub precommits_broadcast: u64,
    pub precommits_received: u64,
    pub equivocations_detected: u64,
    pub finalization_rounds: u64,
}

impl SimMetrics {
    pub open spec fn wf(self) -> bool {
        self.node_final_heights.wf() && self.node_finalized_heights.wf()
    }

    pub fn new(total_slots: u64, validator_count: usize) -> (m: Self)
        ensures
            m.wf(),
            m.total_slots == total_slots,
            m.validator_count == validator_count,
            m.total_blocks_authored == 0,
            m.max_height_achieved == 0,
            m.slot_collisions == 0,
            m.node_final_heights.key_seq().len() == 0,
            m.node_finalized_heights.key_seq().len() == 0,
            m.open_fork_slot is None,
            m.convergence_latencies@.len() == 0,
            m.reorg_depths@.len() == 0,
            m.precommits_broadcast == 0,
            m.precommits_received == 0,
            m.equivocations_detected == 0,
            m.finalization_rounds == 0,
    {
        SimMetrics {
            total_slots,
            validator_count,
            total_blocks_authored: 0,
            max_height_achieved: 0,
            slot_collisions: 0,
            node_final_heights: OrderedMap::new(),
            node_finalized_heights: OrderedMap::new(),
            open_fork_slot: None,
            convergence_latencies: Vec::new(),
            reorg_depths: Vec::new(),
            precommits_broadcast: 0,
            precommits_received: 0,
            equivocations_detected: 0,
            finalization_rounds: 0,
        }
    }

    pub fn record_precommit_broadcast(&mut self)
        requires
            old(self).precommits_broadcast < u64::MAX,
        ensures
            *final(self) == (SimMetrics {
                precommits_broadcast: (old(self).precommits_broadcast + 1) as u64,
                ..*old(self)
            }),
    {
        self.precommits_broadcast = self.precommits_broadcast + 1;
    }

    pub fn record_precommit_received(&mut self)
        requires
            old(self).precommits_received < u64::MAX,
        ensures
            *final(self) == (SimMetrics {
                precommits_received: (old(self).precommits_received + 1) as u64,
                ..*old(self)
            }),
    {
        self.precommits_received = self.precommits_received + 1;
    }

    pub fn record_equivocation(&mut self)
        requires
            old(self).equivocations_detected < u64::MAX,
        ensures
            *final(self) == (SimMetrics {
                equivocations_detected: (old(self).equivocations_detected + 1) as u64,
                ..*old(self)
            }),
    {
        self.equivocations_detected = self.equivocations_detected + 1;
    }

    pub fn record_finalization_round(&mut self)
        requires
            old(self).finalization_rounds < u64::MAX,
        ensures
            *final(self) == (SimMetrics {
                finalization_rounds: (old(self).finalization_rounds + 1) as u64,
                ..*old(self)
            }),
    {
        self.finalization_rounds = self.finalization_rounds + 1;
    }

    pub fn record_authorship(&mut self)
        requires
            old(self).total_blocks_authored < u64::MAX,
        ensures
            *final(self) == (SimMetrics {
                total_blocks_authored: (old(self).total_blocks_authored + 1) as u64,
                ..*old(self)
            }),
    {
        self.total_blocks_authored = self.total_blocks_authored + 1;
    }

    /// These metrics with a collision at `slot` counted and, unless a fork
    /// is open already, a fork opened at `slot`.
    pub open spec fn with_collision(self, slot: u64) -> SimMetrics {
        SimMetrics {
            slot_collisions: (self.slot_collisions + 1) as u64,
            open_fork_slot: if self.open_fork_slot is None {
                Some(slot)
            } else {
                self.open_fork_slot
            },
            ..self
        }
    }

    /// Whether `next` is these metrics after observing `heads` at
    /// `current_slot`: an open fork closes when all heads agree, sampling
    /// the slots since it opened (0 if none); else nothing changes.
    pub open spec fn observed(self, current_slot: u64, heads: Seq<types::Hash>, next: SimMetrics) -> bool {
        match self.open_fork_slot {
            Some(start) => if all_agree(heads) && heads.len() > 0 {
                &&& next.convergence_latencies@ == self.convergence_latencies@.push(
                    if current_slot >= start {
                        (current_slot - start) as u64
                    } else {
                        0u64
                    },
                )
                &&& next == (SimMetrics {
                    convergence_latencies: next.convergence_latencies,
                    open_fork_slot: None,
                    ..self
                })
            } else {
                next == self
            },
            None => next == self,
        }
    }

    /// Records a slot collision and marks the fork as open, unless one is
    /// open already.
    pub fn record_collision(&mut self, slot: u64)
        requires
            old(self).slot_collisions < u64::MAX,
        ensures
            *final(self) == old(self).with_collision(slot),
    {
        self.slot_collisions = self.slot_collisions + 1;
        if self.open_fork_slot.is_none() {
            self.open_fork_slot = Some(slot);
        }
    }

    pub fn update_max_height(&mut self, height: u64)
        ensures
            *final(self) == (SimMetrics {
                max_height_achieved: if height > old(self).max_height_achieved {
                    height
                } else {
                    old(self).max_height_achieved
                },
                ..*old(self)
            }),
    {
        if height > self.max_height_achieved {
            self.max_height_achieved = height;
        }
    }

    /// Records the depth (old head height) of a re-org triggered by block import.
    pub fn record_reorg(&mut self, old_head_height: u64)
        ensures
            final(self).reorg_depths@ == old(self).reorg_depths@.push(old_head_height),
            *final(self) == (SimMetrics { reorg_depths: final(self).reorg_depths, ..*old(self) }),
    {
        self.reorg_depths.push(old_head_height);
    }

    /// Called every slot with the canonical heads of all live nodes. When a
    /// fork is open and all heads agree, the convergence latency (slots since
    /// the fork opened, 0 if none) is sampled and the fork is closed.
    pub fn observe_convergence(&mut self, current_slot: u64, heads: &[types::Hash])
        ensures
            old(self).observed(current_slot, heads@, *final(self)),
    {
        if let Some(fork_start) = self.open_fork_slot {
            let mut all = true;
            let n = heads.len();
            let mut i: usize = 0;
            while i < n
                invariant
                    n == heads@.len(),
                    0 <= i <= n,
                    all == (forall|j: int|
                        0 <= j < i && j < n - 1 ==> #[trigger] heads@[j] == heads@[j + 1]),
                decreases n - i,
            {
                if i + 1 < n && heads[i] != heads[i + 1] {
                    all = false;
                }
                i = i + 1;
            }
            if all && heads.len() > 0 {
                let latency = if current_slot >= fork_start {
                    current_slot - fork_start
                } else {
                    0
                };
                self.convergence_latencies.push(latency);
                self.open_fork_slot = None;
            }
        }
    }

    /// Records a node's final head height and finalized height.
    pub fn record_final_state(&mut self, node_id: String, height: u64, finalized_height: u64)
        requires
            old(self).wf(),
        ensures
            final(self).wf(),
            final(self).node_final_heights.map() == old(self).node_final_heights.map().insert(
                node_id@,
                height,
            ),
            final(self).node_finalized_heights.map()
                == old(self).node_finalized_heights.map().insert(node_id@, finalized_height),
            *final(self) == (SimMetrics {
                node_final_heights: final(self).node_final_heights,
                node_finalized_heights: final(self).node_finalized_heights,
                ..*old(self)
            }),
    {
        self.node_final_heights.insert(node_id.clone(), height);
        self.node_finalized_heights.insert(node_id, finalized_height);
    }

    /// How many nodes ended at the greatest height achieved.
    pub fn nodes_at_max_height(&self) -> (n: usize)
        requires
            self.wf(),
        ensures
            n == count_equal(self.node_final_heights.value_seq(), self.max_height_achieved),
    {
        let ghost vs = self.node_final_heights.value_seq();
        let len = self.node_final_heights.len();
        let mut n: usize = 0;
        let mut i: usize = 0;
        while i < len
            invariant
                self.wf(),
                vs == self.node_final_heights.value_seq(),
                len == vs.len(),
                0 <= i <= len,
                n <= i,
                n == count_equal(vs.take(i as int), self.max_height_achieved),
            decreases len - i,
        {
            assert(vs.take(i + 1).drop_last() =~= vs.take(i as int));
            if *self.node_final_heights.value_at(i) == self.max_height_achieved {
                n = n + 1;
            }
            i = i + 1;
        }
        assert(vs.take(len as int) =~= vs);
        n
    }

    /// The greatest finalized height of any node, 0 if none is recorded.
    pub fn max_finalized_height(&self) -> (h: u64)
        requires
            self.wf(),
        ensures
            h == seq_max(self.node_finalized_heights.value_seq()),
    {
        let ghost vs = self.node_finalized_heights.value_seq();
        let len = self.node_finalized_heights.len();
        let mut h: u64 = 0;
        let mut i: usize = 0;
        while i < len
            invariant
                self.wf(),
                vs == self.node_finalized_heights.value_seq(),
                len == vs.len(),
                0 <= i <= len,
                h == seq_max(vs.take(i as int)),
            decreases len - i,
        {
            assert(vs.take(i + 1).drop_last() =~= vs.take(i as int));
            let v = *self.node_finalized_heights.value_at(i);
            if v > h {
                h = v;
            }
            i = i + 1;
        }
        assert(vs.take(len as int) =~= vs);
        h
    }
}

} // verus!
