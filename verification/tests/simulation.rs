use consensus_lab::simulation::{run_experiment, SimConfig};

fn config(partition_start: u64, partition_end: u64) -> SimConfig {
    SimConfig {
        label: "test",
        total_slots: 12,
        hop_latency: 1,
        consensus_threshold: u64::MAX / 3,
        total_validators: 3,
        partition_start,
        partition_end,
    }
}

#[test]
fn run_counts_every_precommit_broadcast() {
    let m = run_experiment(&config(5, 8));
    assert_eq!(m.total_slots, 12);
    assert_eq!(m.validator_count, 3);
    assert_eq!(m.precommits_broadcast, 36);
    assert!(m.total_blocks_authored <= 36);
    assert!(m.slot_collisions <= 12);
    assert!(m.max_height_achieved <= m.total_blocks_authored);
    assert!(m.node_final_heights.get("node_0").is_some());
    assert!(m.node_final_heights.get("node_1").is_some());
    assert!(m.node_finalized_heights.get("node_2").is_some());
}

#[test]
fn run_is_deterministic() {
    let a = run_experiment(&config(3, 0));
    let b = run_experiment(&config(3, 0));
    assert_eq!(a.total_blocks_authored, b.total_blocks_authored);
    assert_eq!(a.max_height_achieved, b.max_height_achieved);
    assert_eq!(a.reorg_depths, b.reorg_depths);
    assert_eq!(a.precommits_received, b.precommits_received);
    assert_eq!(a.max_finalized_height(), b.max_finalized_height());
}

#[test]
fn zero_threshold_run_authors_nothing() {
    let mut cfg = config(0, 0);
    cfg.consensus_threshold = 0;
    let m = run_experiment(&cfg);
    assert_eq!(m.total_blocks_authored, 0);
    assert_eq!(m.max_height_achieved, 0);
    assert_eq!(m.nodes_at_max_height(), 3);
    assert_eq!(m.max_finalized_height(), 0);
}
