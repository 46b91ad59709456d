//! Tests of the aggregation service: the submission lifecycle, batch
//! selection and commitment, status monotonicity, and the error vocabulary.

use proof_aggregation::errors::AggregationError;
use proof_aggregation::leaf::compute_leaf;
use proof_aggregation::merkle::{split_nodes, MerkleTree};
use proof_aggregation::request::ProofRequest;
use proof_aggregation::service::AggregationRpc;
use proof_aggregation::status::{
    status_code, status_from_code, AggregationStatus, AggregationStatusResponse,
};
use proof_aggregation::store::ProofRequestStore;

fn digest_of_byte(x: u8) -> [u8; 32] {
    let mut d = [0u8; 32];
    d[0] = x;
    d
}

fn submit(svc: &mut AggregationRpc, tag: u8) -> [u8; 32] {
    svc.aggregate_proof(
        vec![tag, 1, 2, 3],
        vec![tag, 4, 5, 6],
        digest_of_byte(tag),
        vec![tag, 7],
    )
    .expect("fresh identifier")
}

fn response_rank(r: AggregationStatusResponse) -> i32 {
    match r {
        AggregationStatusResponse::AggregationPending => 0,
        AggregationStatusResponse::AggregationComplete => 1,
        AggregationStatusResponse::AggregationVerified => 2,
        AggregationStatusResponse::NotFound => panic!("request disappeared"),
    }
}

#[test]
fn test_aggregate_proof() {
    let mut svc = AggregationRpc::new();
    let proof: Vec<u8> = vec![1, 2, 3, 4, 5];
    let vk: Vec<u8> = vec![6, 7, 8, 9, 10];
    let proof_id = svc
        .aggregate_proof(proof, vk, digest_of_byte(1), vec![1])
        .expect("fresh identifier");
    let status = svc.get_aggregation_status(&proof_id);
    assert_eq!(status, AggregationStatusResponse::AggregationPending);
}

#[test]
fn test_e2e() {
    let mut svc = AggregationRpc::new();
    let mut proof_ids = Vec::new();
    for tag in 0..5u8 {
        proof_ids.push(submit(&mut svc, tag));
    }

    let (batch_id, requests) = svc.get_batch(Some(0), Some(5));
    assert_eq!(requests.len(), 5);
    for i in 0..5 {
        // FIFO selection: ascending submission order
        assert_eq!(requests[i].proof_id, proof_ids[i]);
    }

    let leaves = svc
        .process_batch(requests, batch_id)
        .expect("all five are pending");
    assert_eq!(leaves.len(), 5 * 32);
    for i in 0..5u8 {
        let expected = compute_leaf(&digest_of_byte(i), &vec![i, 7]);
        let got = &leaves[i as usize * 32..(i as usize + 1) * 32];
        assert_eq!(got, expected.as_slice());
        assert_eq!(
            svc.get_aggregation_status(&proof_ids[i as usize]),
            AggregationStatusResponse::AggregationComplete
        );
    }

    assert_eq!(svc.write_merkle_tree(leaves.clone(), batch_id), Ok(true));

    // the third submitted proof gets an inclusion proof that verifies
    // against the root rebuilt from the stored leaves
    let data = svc.get_aggregated_data(&proof_ids[2]).expect("batch is stored");
    assert_eq!(data.status, AggregationStatusResponse::AggregationComplete);
    assert!(data.tx_hash.is_empty());
    let stored = svc.store.get_merkle_tree(&proof_ids[2]).expect("tree is stored");
    let tree = MerkleTree::new(split_nodes(&stored).expect("whole nodes"));
    let leaf2 = compute_leaf(&digest_of_byte(2), &vec![2, 7]);
    assert!(tree.verify_proof(data.siblings, leaf2));

    // confirmation on-chain: record the transaction context, then verify
    let tx_hash = vec![0xaa; 32];
    let contract = vec![0xbb; 20];
    svc.store
        .update_proof_tx_hash(batch_id, tx_hash.clone(), 10, contract.clone())
        .expect("context not yet set");
    assert_eq!(
        svc.update_batch_status(batch_id, AggregationStatus::Verified),
        Ok(true)
    );
    for id in &proof_ids {
        assert_eq!(
            svc.get_aggregation_status(id),
            AggregationStatusResponse::AggregationVerified
        );
    }

    let done = svc.get_aggregated_data(&proof_ids[2]).expect("fully verified");
    assert_eq!(done.status, AggregationStatusResponse::AggregationVerified);
    assert_eq!(done.tx_hash, tx_hash);
    assert_eq!(done.chain_id, 10);
    assert_eq!(done.contract_address, contract);
}

#[test]
fn test_not_found_sentinel() {
    let svc = AggregationRpc::new();
    let unknown = [42u8; 32];
    assert_eq!(
        svc.get_aggregation_status(&unknown),
        AggregationStatusResponse::NotFound
    );
    let data = svc
        .get_aggregated_data(&unknown)
        .expect("never-submitted identifiers earn the sentinel, not an error");
    assert_eq!(data.status, AggregationStatusResponse::NotFound);
    assert!(data.siblings.is_empty());
    assert!(data.tx_hash.is_empty());
    assert_eq!(data.chain_id, 0);
    assert!(data.contract_address.is_empty());
}

#[test]
fn test_status_monotonic_polling() {
    let mut svc = AggregationRpc::new();
    let id = submit(&mut svc, 1);
    let mut observed = Vec::new();
    observed.push(svc.get_aggregation_status(&id));
    let (batch_id, requests) = svc.get_batch(None, None);
    observed.push(svc.get_aggregation_status(&id));
    svc.process_batch(requests, batch_id).expect("pending");
    observed.push(svc.get_aggregation_status(&id));
    svc.update_batch_status(batch_id, AggregationStatus::Verified)
        .expect("forward transition");
    observed.push(svc.get_aggregation_status(&id));
    for w in observed.windows(2) {
        assert!(response_rank(w[0]) <= response_rank(w[1]));
    }
    assert_eq!(observed[0], AggregationStatusResponse::AggregationPending);
    assert_eq!(observed[3], AggregationStatusResponse::AggregationVerified);
}

#[test]
fn test_batch_exclusivity() {
    let mut svc = AggregationRpc::new();
    let mut ids = Vec::new();
    for tag in 0..4u8 {
        ids.push(submit(&mut svc, tag));
    }
    let (batch1, first) = svc.get_batch(Some(0), Some(2));
    let first_ids: Vec<[u8; 32]> = first.iter().map(|r| r.proof_id).collect();
    svc.process_batch(first, batch1).expect("both pending");

    let (batch2, second) = svc.get_batch(Some(0), Some(10));
    assert_eq!(second.len(), 2);
    let second_ids: Vec<[u8; 32]> = second.iter().map(|r| r.proof_id).collect();
    svc.process_batch(second, batch2).expect("both pending");

    for a in &first_ids {
        assert!(!second_ids.contains(a), "a proof joined two batches");
    }
    assert_eq!(first_ids, ids[0..2].to_vec());
    assert_eq!(second_ids, ids[2..4].to_vec());
}

#[test]
fn test_reprocessing_a_batch_is_refused() {
    let mut svc = AggregationRpc::new();
    submit(&mut svc, 1);
    let (batch_id, requests) = svc.get_batch(None, None);
    let again = requests.clone();
    svc.process_batch(requests, batch_id).expect("pending");
    // the rows already carry a batch: a second commit must not re-batch them
    assert_eq!(
        svc.process_batch(again, [9u8; 32]),
        Err(AggregationError::InvariantViolation)
    );
}

#[test]
fn test_duplicate_ids_in_one_batch_are_refused() {
    let mut svc = AggregationRpc::new();
    submit(&mut svc, 1);
    let (batch_id, requests) = svc.get_batch(None, None);
    let mut doubled = requests.clone();
    doubled.push(requests[0].clone());
    assert_eq!(
        svc.process_batch(doubled, batch_id),
        Err(AggregationError::InvariantViolation)
    );
}

#[test]
fn test_unknown_request_in_batch_is_not_found() {
    let mut svc = AggregationRpc::new();
    let unknown_row = ProofRequest {
        proof_id: [9u8; 32],
        status: AggregationStatus::Pending,
        proof: Vec::new(),
        vk: Vec::new(),
        vkey_digest: [0u8; 32],
        public_values: Vec::new(),
        created_at: 1,
        batch_id: None,
        tx_hash: None,
        chain_id: None,
        contract_address: None,
    };
    assert_eq!(
        svc.process_batch(vec![unknown_row], [1u8; 32]),
        Err(AggregationError::NotFound)
    );
}

#[test]
fn test_pending_request_has_no_aggregated_data() {
    let mut svc = AggregationRpc::new();
    let id = submit(&mut svc, 1);
    // no batch yet: a normal negative result, surfaced as NotFound
    assert!(matches!(
        svc.get_aggregated_data(&id),
        Err(AggregationError::NotFound)
    ));
}

#[test]
fn test_second_tree_write_is_rejected() {
    let mut svc = AggregationRpc::new();
    submit(&mut svc, 1);
    let (batch_id, requests) = svc.get_batch(None, None);
    let leaves = svc.process_batch(requests, batch_id).expect("pending");
    assert_eq!(svc.write_merkle_tree(leaves.clone(), batch_id), Ok(true));
    assert_eq!(
        svc.write_merkle_tree(leaves, batch_id),
        Err(AggregationError::StorageFailure)
    );
}

#[test]
fn test_ragged_stored_tree_is_malformed() {
    let mut svc = AggregationRpc::new();
    let id = submit(&mut svc, 1);
    let (batch_id, requests) = svc.get_batch(None, None);
    svc.process_batch(requests, batch_id).expect("pending");
    assert_eq!(svc.write_merkle_tree(vec![0u8; 33], batch_id), Ok(true));
    assert!(matches!(
        svc.get_aggregated_data(&id),
        Err(AggregationError::MalformedPayload)
    ));
}

#[test]
fn test_leaf_missing_from_stored_tree_is_loud() {
    let mut svc = AggregationRpc::new();
    let id = submit(&mut svc, 1);
    let (batch_id, requests) = svc.get_batch(None, None);
    svc.process_batch(requests, batch_id).expect("pending");
    // a stored tree that does not contain the request's own leaf
    assert_eq!(svc.write_merkle_tree(vec![0u8; 32], batch_id), Ok(true));
    assert!(matches!(
        svc.get_aggregated_data(&id),
        Err(AggregationError::InvariantViolation)
    ));
}

#[test]
fn test_status_regression_is_refused() {
    let mut svc = AggregationRpc::new();
    let id = submit(&mut svc, 1);
    let (batch_id, requests) = svc.get_batch(None, None);
    svc.process_batch(requests, batch_id).expect("pending");
    svc.update_batch_status(batch_id, AggregationStatus::Verified)
        .expect("forward transition");
    assert_eq!(
        svc.update_batch_status(batch_id, AggregationStatus::Aggregated),
        Err(AggregationError::InvariantViolation)
    );
    assert_eq!(
        svc.get_aggregation_status(&id),
        AggregationStatusResponse::AggregationVerified
    );
}

#[test]
fn test_verified_without_context_is_not_found() {
    let mut svc = AggregationRpc::new();
    let id = submit(&mut svc, 1);
    let (batch_id, requests) = svc.get_batch(None, None);
    let leaves = svc.process_batch(requests, batch_id).expect("pending");
    svc.write_merkle_tree(leaves, batch_id).expect("first write");
    svc.update_batch_status(batch_id, AggregationStatus::Verified)
        .expect("forward transition");
    assert!(matches!(
        svc.get_aggregated_data(&id),
        Err(AggregationError::NotFound)
    ));
}

#[test]
fn test_tx_context_is_set_exactly_once() {
    let mut svc = AggregationRpc::new();
    let id = submit(&mut svc, 1);
    let (batch_id, requests) = svc.get_batch(None, None);
    svc.process_batch(requests, batch_id).expect("pending");
    svc.store
        .update_proof_tx_hash(batch_id, vec![1], 5, vec![2])
        .expect("context not yet set");
    assert_eq!(
        svc.store.update_proof_tx_hash(batch_id, vec![3], 6, vec![4]),
        Err(AggregationError::InvariantViolation)
    );
    let (tx, chain, addr) = svc.store.get_tx_context(&id).expect("context recorded");
    assert_eq!((tx, chain, addr), (vec![1], 5, vec![2]));
}

#[test]
fn test_stored_payloads_round_trip() {
    let mut svc = AggregationRpc::new();
    let id = svc
        .aggregate_proof(vec![1, 2], vec![3, 4], digest_of_byte(9), vec![5, 6])
        .expect("fresh identifier");
    let (vk_digest, pv) = svc
        .store
        .get_vkey_and_public_values(&id)
        .expect("request is stored");
    assert_eq!(vk_digest, digest_of_byte(9).to_vec());
    assert_eq!(pv, vec![5, 6]);
    let leaf = svc.store.get_leaf(&id).expect("request is stored");
    assert_eq!(leaf, compute_leaf(&digest_of_byte(9), &vec![5, 6]));
}

#[test]
fn test_duplicate_identifier_is_rejected_write() {
    let mut store = ProofRequestStore::new();
    let id = [7u8; 32];
    store
        .create_request(id, vec![1], vec![2], [0u8; 32], vec![3], 100)
        .expect("fresh identifier");
    assert_eq!(
        store.create_request(id, vec![4], vec![5], [1u8; 32], vec![6], 200),
        Err(AggregationError::StorageFailure)
    );
}

#[test]
fn test_clock_step_keeps_fifo_order() {
    let mut store = ProofRequestStore::new();
    store
        .create_request([1u8; 32], vec![], vec![], [0u8; 32], vec![], 100)
        .expect("fresh");
    // the clock stepped backwards: the later row must not jump the queue
    store
        .create_request([2u8; 32], vec![], vec![], [0u8; 32], vec![], 50)
        .expect("fresh");
    let batch = store.get_batch(0, 10);
    assert_eq!(batch.len(), 2);
    assert_eq!(batch[0].proof_id, [1u8; 32]);
    assert_eq!(batch[1].proof_id, [2u8; 32]);
    // the later row's reading is raised to the newest stored timestamp
    assert_eq!(batch[0].created_at, 100);
    assert_eq!(batch[1].created_at, 100);
}

#[test]
fn test_status_codes_round_trip() {
    let all = [
        AggregationStatus::Pending,
        AggregationStatus::Aggregated,
        AggregationStatus::Verified,
    ];
    for (i, s) in all.iter().enumerate() {
        assert_eq!(status_code(*s), i as i32);
        assert_eq!(status_from_code(i as i32), Some(*s));
    }
    assert_eq!(status_from_code(3), None);
    assert_eq!(status_from_code(-1), None);
}
