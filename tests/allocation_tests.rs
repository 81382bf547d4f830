use merkle_tree::allocation::Allocation;
use merkle_tree::felt::u64_to_felt;
use starknet_crypto::Felt;
use std::hash::DefaultHasher;
use std::hash::Hash;
use std::hash::Hasher;

#[test]
fn test_allocation_to_felts() {
    let allocation = Allocation {
        address: "0x1234567890abcdef1234567890abcdef12345678".to_string(),
        amount: 150,
        timestamp: "0x2".to_string(),
        id: 1,
    };

    let felts = allocation.to_felts().expect("Failed to convert to felts");
    assert_eq!(
        felts.0.to_bytes_be(),
        Felt::from_hex("0x1234567890abcdef1234567890abcdef12345678")
            .unwrap()
            .to_bytes_be()
    );
    assert_eq!(felts.1, u64_to_felt(150));
    assert_eq!(felts.2.to_bytes_be(), Felt::from_hex("0x2").unwrap().to_bytes_be());
    assert_eq!(felts.3, u64_to_felt(1));
}

#[test]
fn test_allocation_invalid_address() {
    let allocation = Allocation {
        address: "0x12939jojdo30".to_string(),
        amount: 150,
        timestamp: "0x".to_string(),
        id: 1,
    };
    let felts = allocation.to_felts();
    assert!(felts.is_err());
    assert_eq!(felts.unwrap_err().message(), "Invalid address");
}

#[test]
fn test_allocation_invalid_timestamp() {
    let allocation = Allocation {
        address: "0x1234567890abcdef1234567890abcdef12345678".to_string(),
        amount: 150,
        timestamp: "0x38djij".to_string(),
        id: 1,
    };
    let felts = allocation.to_felts();
    assert!(felts.is_err());
    assert_eq!(felts.unwrap_err().message(), "Invalid timestamp");
}

#[test]
fn test_u64_to_felt_conversion() {
    let value: u64 = 150;
    let felt = u64_to_felt(value);
    let mut value_bytes = [0u8; 8];
    value_bytes.copy_from_slice(&value.to_be_bytes());

    // The last eight bytes of the encoding are the value's own.
    let felt_bytes = felt.to_bytes_be();
    assert_eq!(felt_bytes[24..], value_bytes);
}

#[test]
fn test_u64_edge_case() {
    let zero_value = 0;
    let felt = u64_to_felt(zero_value);
    assert!(matches!(felt, merkle_tree::felt::FieldElement { .. }));

    let max_value = u64::MAX;
    let felt = u64_to_felt(max_value);
    assert!(matches!(felt, merkle_tree::felt::FieldElement { .. }));
}

#[test]
fn test_allocation_hash() {
    let allocation = Allocation {
        address: "0x1234567890abcdef1234567890abcdef12345678".to_string(),
        amount: 150,
        timestamp: "0x2".to_string(),
        id: 1,
    };
    let mut state = DefaultHasher::new();
    allocation.hash(&mut state);
    let hash = state.finish();

    assert_ne!(hash, 0, "Hash should not be zero");
    assert_eq!(std::mem::size_of_val(&hash), 8, "Hash should be u64");

    let mut other_state = DefaultHasher::new();
    allocation.hash(&mut other_state);
    let other_hash = other_state.finish();

    assert_eq!(hash, other_hash, "Hash should be the same");
}
