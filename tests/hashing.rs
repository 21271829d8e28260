use asset_ledger::hashing::{gen_key, key_payload_bytes, ExecutionContext};

#[test]
fn payload_encodes_each_field() {
    let ctx = ExecutionContext { parent_hash: [7u8; 32], block_number: 0x0102, extrinsic_index: Some(3) };
    let mut expected = vec![7u8; 32];
    expected.extend_from_slice(&[2, 1, 0, 0, 0, 0, 0, 0]);
    expected.extend_from_slice(&[1, 3, 0, 0, 0]);
    expected.extend_from_slice(&[5, 0, 0, 0]);
    assert_eq!(key_payload_bytes(&ctx, 5), expected);

    let none = ExecutionContext { parent_hash: [0u8; 32], block_number: u64::MAX, extrinsic_index: None };
    let mut expected = vec![0u8; 32];
    expected.extend_from_slice(&[255; 8]);
    expected.push(0);
    expected.extend_from_slice(&[0xff, 0xff, 0xff, 0xff]);
    assert_eq!(key_payload_bytes(&none, u32::MAX), expected);
}

#[test]
fn key_is_a_digest_of_the_payload() {
    let ctx = ExecutionContext { parent_hash: [0u8; 32], block_number: 0, extrinsic_index: None };
    let key = gen_key(&ctx, 0);
    let payload = key_payload_bytes(&ctx, 0);
    assert_ne!(key.to_vec(), payload[..32].to_vec());
    assert_eq!(gen_key(&ctx, 0), key);
    assert_ne!(gen_key(&ctx, 1), key);
    let other = ExecutionContext { parent_hash: [0u8; 32], block_number: 0, extrinsic_index: Some(0) };
    assert_ne!(gen_key(&other, 0), key);
}
