use consensus_lab::primitives::hex;
use consensus_lab::primitives::types;
use consensus_lab::primitives::types::{Block, Extrinsic, Header};

#[test]
fn test_header_scale_codec() {
    let header = Header {
        parent_hash: types::Hash::zero(),
        number: 42,
        state_root: types::Hash::from_bytes([1u8; 32]),
        extrinsics_root: types::Hash::from_bytes([2u8; 32]),
        slot: 100,
        author: "alice".to_string(),
    };

    let encoded = header.encode();
    let decoded = Header::decode(&encoded).unwrap();
    assert_eq!(header, decoded);
}

#[test]
fn test_header_hashing_determinism() {
    let h1 = Header {
        parent_hash: types::Hash::zero(),
        number: 1,
        state_root: types::Hash::zero(),
        extrinsics_root: types::Hash::zero(),
        slot: 1,
        author: "validator_1".to_string(),
    };
    let h2 = h1.clone();
    assert_eq!(h1.hash(), h2.hash());

    let mut h3 = h1.clone();
    h3.author = "validator_2".to_string();
    assert_ne!(h1.hash(), h3.hash());
}

fn header_with(number: u64, author: &str) -> Header {
    Header {
        parent_hash: types::Hash::from_bytes([3u8; 32]),
        number,
        state_root: types::Hash::zero(),
        extrinsics_root: types::Hash::zero(),
        slot: 7,
        author: author.to_string(),
    }
}

#[test]
fn header_encoding_layout() {
    let h = header_with(42, "ab");
    let e = h.encode();
    let mut expected = vec![3u8; 32];
    expected.push(42 * 4);
    expected.extend_from_slice(&[0u8; 64]);
    expected.extend_from_slice(&7u64.to_le_bytes());
    expected.extend_from_slice(&[8, b'a', b'b']);
    assert_eq!(e, expected);
}

#[test]
fn compact_number_modes_roundtrip() {
    for n in [0u64, 63, 64, 16383, 16384, (1 << 30) - 1, 1 << 30, u32::MAX as u64, 1 << 40, u64::MAX] {
        let h = header_with(n, "é✓");
        let e = h.encode();
        let d = Header::decode(&e).unwrap();
        assert_eq!(d, h);
        // Trailing bytes are left alone.
        let mut longer = e.clone();
        longer.extend_from_slice(&[9, 9, 9]);
        assert_eq!(Header::decode(&longer).unwrap(), h);
    }
}

#[test]
fn compact_two_byte_mode_bytes() {
    let e = header_with(64, "").encode();
    assert_eq!(&e[32..34], &[0x01, 0x01]);
    let e = header_with(1 << 30, "").encode();
    assert_eq!(&e[32..37], &[0x03, 0x00, 0x00, 0x00, 0x40]);
}

#[test]
fn decode_rejects_truncated_and_non_canonical() {
    let e = header_with(5, "bob").encode();
    assert!(Header::decode(&e[..e.len() - 1]).is_none());
    assert!(Header::decode(&e[..20]).is_none());
    // 5 written in two-byte mode is not canonical.
    let mut bad = e.clone();
    bad[32] = 0x15;
    bad.insert(33, 0x00);
    assert!(Header::decode(&bad).is_none());
    // Invalid UTF-8 in the author.
    let mut bad_utf8 = e.clone();
    let last = bad_utf8.len() - 1;
    bad_utf8[last] = 0xff;
    assert!(Header::decode(&bad_utf8).is_none());
}

#[test]
fn block_hash_is_header_hash() {
    let b = Block { header: header_with(1, "x"), extrinsics: vec![] };
    assert_eq!(b.hash(), b.header.hash());
}

#[test]
fn extrinsic_encoding_and_hash() {
    let e = Extrinsic::SetState { key: vec![1, 2], value: vec![3] };
    assert_eq!(e.encode(), vec![1, 8, 1, 2, 4, 3]);
    let t = Extrinsic::Transfer { from: "a".to_string(), to: "b".to_string(), amount: 5 };
    let mut expected = vec![0u8, 4, b'a', 4, b'b'];
    expected.extend_from_slice(&5u64.to_le_bytes());
    assert_eq!(t.encode(), expected);
    assert_eq!(t.hash(), t.clone().hash());
    assert_ne!(t.hash(), e.hash());
}

#[test]
fn hash_accessors() {
    let h = types::Hash::from_bytes([5u8; 32]);
    assert_eq!(h.as_bytes(), &[5u8; 32]);
    assert_eq!(types::Hash::zero().as_bytes(), &[0u8; 32]);
    assert_ne!(h, types::Hash::zero());
}

#[test]
fn hex_encoding() {
    let mut bytes = [0u8; 32];
    bytes[0] = 0xab;
    bytes[31] = 0x01;
    let s = hex::encode(bytes);
    assert_eq!(s.len(), 64);
    assert!(s.starts_with("ab00"));
    assert!(s.ends_with("0001"));
}
