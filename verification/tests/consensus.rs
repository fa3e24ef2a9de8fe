use consensus_lab::primitives::types;
use consensus_lab::primitives::types::Header;
use consensus_lab::protocol::consensus::Consensus;

fn header(number: u64, slot: u64, author: &str) -> Header {
    Header {
        parent_hash: types::Hash::zero(),
        number,
        state_root: types::Hash::zero(),
        extrinsics_root: types::Hash::zero(),
        slot,
        author: author.to_string(),
    }
}

#[test]
fn test_longest_chain_rule() {
    let consensus = Consensus::new("test".to_string(), 0);

    let h1 = Header {
        parent_hash: types::Hash::zero(),
        number: 1,
        state_root: types::Hash::zero(),
        extrinsics_root: types::Hash::zero(),
        slot: 1,
        author: "a".to_string(),
    };

    let h2 = Header {
        parent_hash: types::Hash::zero(),
        number: 2,
        state_root: types::Hash::zero(),
        extrinsics_root: types::Hash::zero(),
        slot: 2,
        author: "b".to_string(),
    };

    let headers = vec![h1.clone(), h2.clone()];
    let best = consensus.find_best_head(&headers).unwrap();
    assert_eq!(best.number, 2);
}

#[test]
fn best_head_of_no_headers_is_none() {
    let consensus = Consensus::new("test".to_string(), 0);
    let headers: Vec<Header> = vec![];
    assert!(consensus.find_best_head(&headers).is_none());
}

#[test]
fn equal_height_prefers_lower_slot() {
    let consensus = Consensus::new("test".to_string(), 0);
    let headers = vec![header(3, 9, "a"), header(3, 4, "b"), header(2, 1, "c")];
    let best = consensus.find_best_head(&headers).unwrap();
    assert_eq!(best.author, "b");
}

#[test]
fn full_tie_goes_to_last_arrival() {
    let consensus = Consensus::new("test".to_string(), 0);
    let headers = vec![header(5, 7, "first"), header(5, 7, "second"), header(1, 1, "low")];
    let best = consensus.find_best_head(&headers).unwrap();
    assert_eq!(best.author, "second");
}

#[test]
fn threshold_zero_never_wins_and_max_always_wins() {
    let never = Consensus::new("node_0".to_string(), 0);
    let always = Consensus::new("node_0".to_string(), u64::MAX);
    for slot in 0..20u64 {
        let mut randomness = [0u8; 32];
        randomness[0] = slot as u8;
        assert!(!never.claim_slot(slot, randomness));
        // Only a draw equal to u64::MAX loses at the maximum threshold.
        assert!(always.claim_slot(slot, randomness));
    }
}

#[test]
fn claim_slot_is_deterministic_and_depends_on_randomness() {
    let c = Consensus::new("validator".to_string(), u64::MAX / 2);
    let mut wins = 0;
    for r in 0..64u8 {
        let mut randomness = [0u8; 32];
        randomness[0] = r;
        let a = c.claim_slot(1, randomness);
        let b = c.claim_slot(99, randomness);
        assert_eq!(a, b);
        if a {
            wins += 1;
        }
    }
    // With half the range winning, 64 draws do not all agree.
    assert!(wins > 0 && wins < 64);
}
