//! Slot-based probabilistic leadership (a BABE approximation) and the
//! longest-chain fork-choice rule.
use vstd::prelude::*;
use rand::{Rng, SeedableRng};
use crate::primitives::types::{Header, Slot};

verus! {

/// The first `u64` that `rand_chacha::ChaCha20Rng` yields from a 32-byte seed.
pub uninterp spec fn chacha20_first_u64(seed: Seq<u8>) -> u64;

/// `ChaCha20Rng::from_seed` of rand_chacha followed by one `Rng::gen::<u64>`
/// of rand. The contract names the value; it says nothing of it.
#[verifier::external_body]
fn chacha20_draw(seed: [u8; 32]) -> (v: u64)
    ensures
        v == chacha20_first_u64(seed@),
{
    rand_chacha::ChaCha20Rng::from_seed(seed).gen::<u64>()
}

/// The lottery seed: up to 16 bytes of the validator id, zero-padded, then
/// the first 16 bytes of the slot randomness.
pub open spec fn slot_seed(id: Seq<u8>, randomness: Seq<u8>) -> Seq<u8> {
    Seq::new(
        32,
        |i: int|
            if i < 16 {
                if i < id.len() {
                    id[i]
                } else {
                    0u8
                }
            } else {
                randomness[i - 16]
            },
    )
}

/// The second component of the fork-choice key: a lower slot ranks higher.
pub open spec fn slot_rank(slot: u64) -> int {
    -((slot as i64) as int)
}

/// The slot that the fork-choice key cannot negate.
pub open spec fn rank_overflows(slot: u64) -> bool {
    slot == 0x8000_0000_0000_0000u64
}

/// Whether `a` ranks strictly above `b`: a greater number, or the same
/// number at a lower slot.
pub open spec fn ranks_above(a: Header, b: Header) -> bool {
    a.number > b.number || (a.number == b.number && slot_rank(a.slot) > slot_rank(b.slot))
}

/// The index that `max_by_key` picks: the last of the highest-ranked headers.
pub open spec fn best_index(hs: Seq<Header>) -> int
    decreases hs.len(),
{
    if hs.len() <= 1 {
        0
    } else {
        let i = best_index(hs.drop_last());
        if ranks_above(hs[i], hs.last()) {
            i
        } else {
            hs.len() - 1
        }
    }
}

/// No header carries the slot on which the rank negation overflows.
pub open spec fn ranks_defined(hs: Seq<Header>) -> bool {
    forall|i: int| 0 <= i < hs.len() ==> !rank_overflows(#[trigger] hs[i].slot)
}

/// The chosen header is a greatest one, and no later header ties with it.
pub proof fn lemma_best_index_maximal(hs: Seq<Header>)
    requires
        hs.len() > 0,
    ensures
        0 <= best_index(hs) < hs.len(),
        forall|j: int| 0 <= j < hs.len() ==> !ranks_above(#[trigger] hs[j], hs[best_index(hs)]),
        forall|j: int| best_index(hs) < j < hs.len() ==> ranks_above(hs[best_index(hs)], #[trigger] hs[j]),
    decreases hs.len(),
{
    if hs.len() > 1 {
        let t = hs.drop_last();
        lemma_best_index_maximal(t);
        let i = best_index(t);
        let b = best_index(hs);
        assert forall|j: int| 0 <= j < t.len() implies hs[j] == #[trigger] t[j] by {}
        assert forall|j: int| 0 <= j < hs.len() implies !ranks_above(#[trigger] hs[j], hs[b]) by {
            if j < t.len() {
                assert(!ranks_above(t[j], t[i]));
            }
        }
        assert forall|j: int| b < j < hs.len() implies ranks_above(hs[b], #[trigger] hs[j]) by {
            if j < t.len() {
                assert(ranks_above(t[i], t[j]));
            }
        }
    }
}

/// The consensus engine implementing a slot-based probabilistic lottery.
pub struct Consensus {
    pub validator_id: String,
    pub threshold: u64,
}

impl Consensus {
    pub fn new(validator_id: String, threshold: u64) -> (c: Self)
        ensures
            c.validator_id == validator_id,
            c.threshold == threshold,
    {
        Consensus { validator_id, threshold }
    }

    /// Whether this validator wins the slot with the given randomness.
    pub open spec fn wins(self, randomness: Seq<u8>) -> bool {
        chacha20_first_u64(
            slot_seed(vstd::utf8::encode_utf8(self.validator_id@), randomness),
        ) < self.threshold
    }

    /// Verifies if the validator has won the authorship rights for a given slot.
    ///
    /// A simplified VRF approximation: a ChaCha20 generator seeded with the
    /// validator id and the slot randomness draws a number, which wins below
    /// the threshold.
    pub fn claim_slot(&self, slot: Slot, randomness: [u8; 32]) -> (won: bool)
        ensures
            won == self.wins(randomness@),
    {
        let mut seed = [0u8; 32];
        let id_bytes = self.validator_id.as_str().as_bytes();
        let len: usize = if id_bytes.len() < 16 {
            id_bytes.len()
        } else {
            16
        };
        let mut i: usize = 0;
        while i < len
            invariant
                len <= 16,
                len <= id_bytes@.len(),
                0 <= i <= len,
                forall|j: int| 0 <= j < i ==> seed[j] == id_bytes@[j],
                forall|j: int| i <= j < 32 ==> seed[j] == 0,
            decreases len - i,
        {
            seed[i] = id_bytes[i];
            i = i + 1;
        }
        let mut i: usize = 16;
        while i < 32
            invariant
                len <= 16,
                len <= id_bytes@.len(),
                len == id_bytes@.len() || len == 16,
                16 <= i <= 32,
                forall|j: int| 0 <= j < len ==> seed[j] == id_bytes@[j],
                forall|j: int| len <= j < 16 ==> seed[j] == 0,
                forall|j: int| 16 <= j < i ==> seed[j] == randomness@[j - 16],
            decreases 32 - i,
        {
            seed[i] = randomness[i - 16];
            i = i + 1;
        }
        assert(seed@ =~= slot_seed(id_bytes@, randomness@));
        let val = chacha20_draw(seed);
        val < self.threshold
    }

    /// Identifies the canonical chain tip from a set of observed headers:
    /// the longest chain, a lower slot breaking a tie in height, and the last
    /// of equally ranked headers winning.
    pub fn find_best_head<'a>(&self, headers: &'a [Header]) -> (best: Option<&'a Header>)
        requires
            ranks_defined(headers@),
        ensures
            best is None <==> headers@.len() == 0,
            best matches Some(h) ==> *h == headers@[best_index(headers@)],
    {
        if headers.len() == 0 {
            return None;
        }
        let mut best: usize = 0;
        let mut i: usize = 1;
        while i < headers.len()
            invariant
                ranks_defined(headers@),
                1 <= i <= headers@.len(),
                best == best_index(headers@.subrange(0, i as int)),
                best < i,
            decreases headers@.len() - i,
        {
            let ghost pre = headers@.subrange(0, i as int);
            let ghost next = headers@.subrange(0, i + 1);
            assert(next.drop_last() =~= pre);
            proof {
                lemma_best_index_maximal(next);
                assert(pre[best as int] == headers@[best as int]);
            }
            let b = &headers[best];
            let h = &headers[i];
            let b_slot: i64 = #[verifier::truncate] (b.slot as i64);
            let h_slot: i64 = #[verifier::truncate] (h.slot as i64);
            let above = b.number > h.number || (b.number == h.number && b_slot < h_slot);
            if !above {
                best = i;
            }
            i = i + 1;
        }
        assert(headers@.subrange(0, headers@.len() as int) =~= headers@);
        Some(&headers[best])
    }
}

} // verus!
