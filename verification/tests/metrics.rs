use consensus_lab::primitives::types;
use consensus_lab::protocol::metrics::SimMetrics;

#[test]
fn counters_start_at_zero_and_count() {
    let mut m = SimMetrics::new(40, 3);
    assert_eq!(m.total_slots, 40);
    assert_eq!(m.validator_count, 3);
    m.record_precommit_broadcast();
    m.record_precommit_received();
    m.record_precommit_received();
    m.record_equivocation();
    m.record_finalization_round();
    m.record_authorship();
    assert_eq!(m.precommits_broadcast, 1);
    assert_eq!(m.precommits_received, 2);
    assert_eq!(m.equivocations_detected, 1);
    assert_eq!(m.finalization_rounds, 1);
    assert_eq!(m.total_blocks_authored, 1);
}

#[test]
fn max_height_only_rises() {
    let mut m = SimMetrics::new(10, 3);
    m.update_max_height(5);
    m.update_max_height(3);
    assert_eq!(m.max_height_achieved, 5);
    m.update_max_height(9);
    assert_eq!(m.max_height_achieved, 9);
}

#[test]
fn fork_window_opens_once_and_closes_on_agreement() {
    let mut m = SimMetrics::new(10, 3);
    let a = types::Hash::from_bytes([1u8; 32]);
    let b = types::Hash::from_bytes([2u8; 32]);
    m.observe_convergence(1, &[a, b]);
    assert!(m.convergence_latencies.is_empty());
    m.record_collision(4);
    m.record_collision(6);
    assert_eq!(m.slot_collisions, 2);
    assert_eq!(m.open_fork_slot, Some(4));
    m.observe_convergence(7, &[a, b, a]);
    assert_eq!(m.open_fork_slot, Some(4));
    m.observe_convergence(9, &[a, a, a]);
    assert_eq!(m.convergence_latencies, vec![5]);
    assert_eq!(m.open_fork_slot, None);
    // An empty set of heads never closes a fork.
    m.record_collision(10);
    m.observe_convergence(11, &[]);
    assert_eq!(m.open_fork_slot, Some(10));
    // The latency saturates at zero.
    m.observe_convergence(3, &[b]);
    assert_eq!(m.convergence_latencies, vec![5, 0]);
}

#[test]
fn final_state_summary() {
    let mut m = SimMetrics::new(10, 3);
    m.update_max_height(7);
    m.record_final_state("node_0".to_string(), 7, 4);
    m.record_final_state("node_1".to_string(), 6, 5);
    m.record_final_state("node_2".to_string(), 7, 2);
    m.record_final_state("node_1".to_string(), 7, 3);
    assert_eq!(m.nodes_at_max_height(), 3);
    assert_eq!(m.max_finalized_height(), 4);
    assert_eq!(m.node_finalized_heights.get("node_1"), Some(&3));
    m.record_reorg(2);
    assert_eq!(m.reorg_depths, vec![2]);
}

#[test]
fn empty_summary_is_zero() {
    let m = SimMetrics::new(10, 3);
    assert_eq!(m.nodes_at_max_height(), 0);
    assert_eq!(m.max_finalized_height(), 0);
}
