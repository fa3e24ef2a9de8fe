use consensus_lab::primitives::types::Extrinsic;
use consensus_lab::protocol::runtime::{bincode_deserialize, bincode_serialize, Runtime};

#[test]
fn test_transfer_logic() {
    let mut runtime = Runtime::new();
    let alice = "alice".to_string();
    let bob = "bob".to_string();

    let alice_key = format!("balance:{}", alice).into_bytes();
    runtime.state.0.insert(alice_key, 100u64.to_le_bytes().to_vec());

    runtime.execute_transaction(Extrinsic::Transfer {
        from: alice.clone(),
        to: bob.clone(),
        amount: 40,
    });

    assert_eq!(runtime.get_read_balance(&format!("balance:{}", alice).into_bytes()), 60);
    assert_eq!(runtime.get_read_balance(&format!("balance:{}", bob).into_bytes()), 40);
}

#[test]
fn state_root_depends_on_contents_only() {
    let mut r1 = Runtime::new();
    let mut r2 = Runtime::new();
    r1.execute_transaction(Extrinsic::SetState { key: b"foo".to_vec(), value: b"bar".to_vec() });
    r1.execute_transaction(Extrinsic::SetState { key: b"abc".to_vec(), value: b"x".to_vec() });
    r2.execute_transaction(Extrinsic::SetState { key: b"abc".to_vec(), value: b"x".to_vec() });
    r2.execute_transaction(Extrinsic::SetState { key: b"foo".to_vec(), value: b"bar".to_vec() });
    assert_eq!(r1.state.root(), r2.state.root());
    r2.execute_transaction(Extrinsic::SetState { key: b"foo".to_vec(), value: b"baz".to_vec() });
    assert_ne!(r1.state.root(), r2.state.root());
}

#[test]
fn state_encoding_is_sorted_scale_map() {
    let mut r = Runtime::new();
    r.execute_transaction(Extrinsic::SetState { key: vec![2], value: vec![20] });
    r.execute_transaction(Extrinsic::SetState { key: vec![1], value: vec![10, 11] });
    assert_eq!(r.state.encode(), vec![8, 4, 1, 8, 10, 11, 4, 2, 4, 20]);
}

#[test]
fn transfer_without_funds_changes_nothing() {
    let mut runtime = Runtime::new();
    runtime.execute_transaction(Extrinsic::Transfer {
        from: "carol".to_string(),
        to: "dave".to_string(),
        amount: 1,
    });
    assert_eq!(runtime.state.0.len(), 0);
    assert_eq!(runtime.get_read_balance(b"balance:dave"), 0);
}

#[test]
fn transfer_to_self_keeps_balance() {
    let mut runtime = Runtime::new();
    runtime.state.0.insert(b"balance:eve".to_vec(), 50u64.to_le_bytes().to_vec());
    runtime.execute_transaction(Extrinsic::Transfer {
        from: "eve".to_string(),
        to: "eve".to_string(),
        amount: 20,
    });
    assert_eq!(runtime.get_read_balance(b"balance:eve"), 50);
}

#[test]
fn malformed_balance_reads_as_zero() {
    let mut runtime = Runtime::new();
    runtime.state.0.insert(b"balance:x".to_vec(), vec![1, 2, 3]);
    assert_eq!(runtime.get_read_balance(b"balance:x"), 0);
}

#[test]
fn balance_bytes_roundtrip() {
    for v in [0u64, 1, 255, 256, 0x0102_0304_0506_0708, u64::MAX] {
        let bytes = bincode_serialize(v);
        assert_eq!(bytes, v.to_le_bytes().to_vec());
        assert_eq!(bincode_deserialize(&bytes), Some(v));
    }
    assert_eq!(bincode_deserialize(&[1, 2, 3]), None);
}

#[test]
fn test_state_determinism() {
    let mut r1 = Runtime::new();
    let mut r2 = Runtime::new();

    let ext = Extrinsic::SetState {
        key: b"foo".to_vec(),
        value: b"bar".to_vec(),
    };

    r1.execute_transaction(ext.clone());
    r2.execute_transaction(ext);

    assert_eq!(r1.state.root(), r2.state.root());
}
