use merkle_tree::allocation::Allocation;
use merkle_tree::allocation::MerkleError;
use merkle_tree::felt::u64_to_felt;
use merkle_tree::merkle_tree::MerkleTree;
use merkle_tree::node::Node;
use starknet_crypto::pedersen_hash;
use starknet_crypto::Felt;

fn record(address: &str, amount: u64, timestamp: &str, id: u64) -> Allocation {
    Allocation {
        address: address.to_string(),
        amount,
        timestamp: timestamp.to_string(),
        id,
    }
}

fn three_records() -> Vec<Allocation> {
    vec![
        record("0x1234567890abcdef1234567890abcdef12345678", 150, "0x2", 1),
        record("0xabcdefabcdefabcdefabcdefabcdefabcdef1234", 200, "0x3", 2),
        record("0x892cdefabcdefabcdefabcdefabcdefabcdef1234", 200, "0x3", 2),
    ]
}

fn prove(tree: &MerkleTree, a: &Allocation) -> Result<Vec<String>, MerkleError> {
    tree.build_address_calldata(&a.address, a.amount, &a.timestamp, a.id)
}

fn leaf_felt(a: &Allocation) -> Felt {
    let h = pedersen_hash(
        &Felt::from_hex(&a.address).unwrap(),
        &Felt::from(a.amount),
    );
    let h = pedersen_hash(&h, &Felt::from_hex(&a.timestamp).unwrap());
    pedersen_hash(&h, &Felt::from(a.id))
}

fn fold(proof: &[String]) -> Felt {
    let f: Vec<Felt> = proof.iter().map(|s| Felt::from_hex(s).unwrap()).collect();
    let mut acc = pedersen_hash(&pedersen_hash(&pedersen_hash(&f[0], &f[1]), &f[2]), &f[3]);
    for s in &f[4..] {
        acc = if acc < *s {
            pedersen_hash(&acc, s)
        } else {
            pedersen_hash(s, &acc)
        };
    }
    acc
}

fn root_felt(tree: &MerkleTree) -> Felt {
    Felt::from_bytes_be(&tree.root().value().to_bytes_be())
}

#[test]
fn building_twice_gives_same_root_and_proofs() {
    let a = MerkleTree::new(three_records()).unwrap();
    let b = MerkleTree::new(three_records()).unwrap();
    assert_eq!(a.root().value(), b.root().value());
    for r in three_records().iter() {
        assert_eq!(prove(&a, r).unwrap(), prove(&b, r).unwrap());
    }
}

#[test]
fn combine_is_commutative() {
    let recs = three_records();
    let ab = Node::new(
        Node::new_leaf(recs[0].clone()).unwrap(),
        Node::new_leaf(recs[1].clone()).unwrap(),
    );
    let ba = Node::new(
        Node::new_leaf(recs[1].clone()).unwrap(),
        Node::new_leaf(recs[0].clone()).unwrap(),
    );
    assert_eq!(ab.value(), ba.value());
    assert_eq!(ab.accessible_allocations().len(), ba.accessible_allocations().len());
    for r in ab.accessible_allocations().iter() {
        assert!(ba.contains(r));
    }
    assert!(!ab.right_child().unwrap().value().lt(&ab.left_child().unwrap().value()));
}

#[test]
fn combine_hash_is_pedersen_of_ordered_children() {
    let recs = three_records();
    let x = leaf_felt(&recs[0]);
    let y = leaf_felt(&recs[1]);
    let parent = Node::new(
        Node::new_leaf(recs[0].clone()).unwrap(),
        Node::new_leaf(recs[1].clone()).unwrap(),
    );
    let expected = if x < y { pedersen_hash(&x, &y) } else { pedersen_hash(&y, &x) };
    assert_eq!(parent.value().to_bytes_be(), expected.to_bytes_be());
}

#[test]
fn odd_list_builds_like_list_with_last_repeated() {
    let odd = three_records();
    let mut padded = three_records();
    padded.push(odd[2].clone());
    let a = MerkleTree::new(odd).unwrap();
    let b = MerkleTree::new(padded).unwrap();
    assert_eq!(a.root().value(), b.root().value());
}

#[test]
fn every_record_proves_back_to_the_root() {
    let mut recs = three_records();
    recs.push(record("0x42", 7, "0x9", 3));
    recs.push(record("0x43", 8, "0xA", 4));
    let tree = MerkleTree::new(recs.clone()).unwrap();
    for r in recs.iter() {
        let proof = prove(&tree, r).unwrap();
        assert_eq!(fold(&proof), root_felt(&tree));
    }
}

#[test]
fn altered_proof_does_not_fold_to_root() {
    let tree = MerkleTree::new(three_records()).unwrap();
    let mut proof = prove(&tree, &three_records()[0]).unwrap();
    proof[4] = "0x1".to_string();
    assert_ne!(fold(&proof), root_felt(&tree));
}

#[test]
fn absent_record_is_not_found_and_root_is_kept() {
    let tree = MerkleTree::new(three_records()).unwrap();
    let before = tree.root().value();
    let r = tree.build_address_calldata("0x99", 1, "0x1", 1);
    assert_eq!(r, Err(MerkleError::AllocationNotFound));
    assert_eq!(tree.root().value(), before);
}

#[test]
fn merge_appends_records() {
    let tree = MerkleTree::new(three_records()).unwrap();
    let extra = vec![record("0x5", 5, "0x5", 5), record("0x6", 6, "0x6", 6)];
    let merged = tree.merge_merkle_trees(extra.clone()).unwrap();
    assert_eq!(merged.get_allocations().len(), 5);
    assert_eq!(merged.get_allocations()[3], extra[0]);
    assert_eq!(merged.get_allocations()[0], three_records()[0]);
    assert_eq!(tree.get_allocations().len(), 3);
    assert_ne!(merged.root().value(), tree.root().value());
    let mut all = three_records();
    all.extend(extra);
    assert_eq!(MerkleTree::new(all).unwrap().root().value(), merged.root().value());
}

#[test]
fn merge_with_bad_record_fails() {
    let tree = MerkleTree::new(three_records()).unwrap();
    let extra = vec![record("0x5", 5, "zz", 5)];
    assert_eq!(
        tree.merge_merkle_trees(extra).err(),
        Some(MerkleError::InvalidTimestamp)
    );
}

#[test]
fn single_record_scenario() {
    let tree = MerkleTree::new(vec![record("0x1", 150, "0x2", 1)]).unwrap();
    let proof = prove(&tree, &record("0x1", 150, "0x2", 1)).unwrap();
    assert_eq!(proof.len(), 5);
    assert_eq!(proof[0], "0x1");
    assert_eq!(proof[1], "0x96");
    assert_eq!(proof[2], "0x2");
    assert_eq!(proof[3], "0x1");
    let leaf = leaf_felt(&record("0x1", 150, "0x2", 1));
    assert_eq!(proof[4], format!("{:#x}", leaf));
    assert_eq!(root_felt(&tree), pedersen_hash(&leaf, &leaf));
}

#[test]
fn three_records_scenario() {
    let tree = MerkleTree::new(three_records()).unwrap();
    let proof = prove(&tree, &three_records()[0]).unwrap();
    assert_eq!(proof.len(), 6);
}

#[test]
fn absent_address_scenario() {
    let tree = MerkleTree::new(vec![
        record("0x123", 100, "0x1", 1),
        record("0x456", 200, "0x2", 2),
    ])
    .unwrap();
    let r = tree.build_address_calldata("0x789", 100, "0x1", 1);
    assert_eq!(r, Err(MerkleError::AllocationNotFound));
    assert_eq!(r.unwrap_err().message(), "Allocation not found");
}

#[test]
fn empty_list_is_refused() {
    let r = MerkleTree::new(vec![]);
    assert_eq!(r.err(), Some(MerkleError::NoAllocations));
}

#[test]
fn first_bad_record_decides_the_error() {
    let recs = vec![
        record("0x1", 1, "0x1", 1),
        record("0x2", 2, "zz", 2),
        record("0xq", 3, "0x3", 3),
    ];
    assert_eq!(MerkleTree::new(recs).err(), Some(MerkleError::InvalidTimestamp));
}

#[test]
fn query_with_bad_fields_is_refused() {
    let tree = MerkleTree::new(three_records()).unwrap();
    assert_eq!(
        tree.build_address_calldata("0xg", 1, "0x1", 1),
        Err(MerkleError::InvalidAddress)
    );
    assert_eq!(
        tree.build_address_calldata("0x1", 1, "", 1),
        Err(MerkleError::InvalidTimestamp)
    );
}

#[test]
fn duplicate_records_share_one_entry() {
    let r = record("0x1", 1, "0x1", 1);
    let tree = MerkleTree::new(vec![r.clone(), r.clone()]).unwrap();
    assert_eq!(tree.root().accessible_allocations().len(), 1);
    assert!(prove(&tree, &r).is_ok());
}

#[test]
fn hex_parsing_edges() {
    let prime = "0x800000000000011000000000000000000000000000000000000000000000001";
    let above = "0x800000000000011000000000000000000000000000000000000000000000002";
    let at = record(prime, 0, "0x0", 0).to_felts().unwrap();
    assert!(at.0.is_zero());
    assert_eq!(
        record(above, 0, "0x0", 0).to_felts().err(),
        Some(MerkleError::InvalidAddress)
    );
    assert_eq!(
        record("0x", 0, "0x0", 0).to_felts().err(),
        Some(MerkleError::InvalidAddress)
    );
    let long = format!("0x{}", "0".repeat(65));
    assert_eq!(
        record(&long, 0, "0x0", 0).to_felts().err(),
        Some(MerkleError::InvalidAddress)
    );
    let bare = record("abc", 0, "0XA", 0).to_felts();
    assert_eq!(bare.err(), Some(MerkleError::InvalidTimestamp));
    let upper = record("ABC", 0, "0xAbC", 0).to_felts().unwrap();
    assert_eq!(upper.0.to_hex(), "0xabc");
    assert_eq!(upper.2.to_hex(), "0xabc");
}

#[test]
fn field_element_rendering_and_order() {
    assert_eq!(u64_to_felt(150).to_hex(), "0x96");
    assert_eq!(u64_to_felt(0).to_hex(), "0x0");
    assert_eq!(u64_to_felt(u64::MAX).to_hex(), "0xffffffffffffffff");
    assert!(u64_to_felt(0).is_zero());
    assert!(!u64_to_felt(1).is_zero());
    assert!(u64_to_felt(255).lt(&u64_to_felt(256)));
    assert!(!u64_to_felt(256).lt(&u64_to_felt(255)));
    assert!(!u64_to_felt(7).lt(&u64_to_felt(7)));
    let b = u64_to_felt(0x0102030405060708).to_bytes_be();
    assert_eq!(b[24..], [1, 2, 3, 4, 5, 6, 7, 8]);
    assert!(b[..24].iter().all(|x| *x == 0));
}

#[test]
fn error_messages() {
    assert_eq!(MerkleError::InvalidAddress.message(), "Invalid address");
    assert_eq!(MerkleError::InvalidTimestamp.message(), "Invalid timestamp");
    assert_eq!(MerkleError::AllocationNotFound.message(), "Allocation not found");
    assert_eq!(MerkleError::NoAllocations.message(), "No allocations");
}
