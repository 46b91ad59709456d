//! The request/response contract exposed to proof producers and the
//! aggregation worker: a thin orchestration layer over the store and the
//! commitment engine.
//!
//! Identifiers are drawn from the process's random source and timestamps
//! from the wall clock; both are treated as outside inputs, and every
//! operation states what holds of its result whatever values they took.

use vstd::prelude::*;

use crate::errors::AggregationError;
use crate::merkle::{
    chunks32, concat_nodes, flatten_nodes, leaf_index, nodes_view, path_from, split_nodes,
    MerkleTree,
};
use crate::request::{req_leaf, ProofRequest, ReqView};
use crate::status::{response_of, AggregationStatus, AggregationStatusResponse};
use crate::store::{
    batch_leaf_seq, dup_ids, find_req, find_tree, ids_of, max_created, process_spec, select_spec,
    some_missing, some_not_pending, status_regress, store_wf, update_status_spec,
    views_of, ProofRequestStore, StoreView,
};

verus! {

/// Relies on rand's thread-local generator (`rand::random`) for fresh
/// 32-byte identifiers. Nothing is assumed of the value drawn; a collision
/// with a stored identifier surfaces as a rejected write.
#[verifier::external_body]
fn random_id() -> (r: [u8; 32]) {
    rand::random::<[u8; 32]>()
}

/// Relies on chrono's `Utc::now` for the submission timestamp, in signed
/// milliseconds since the epoch. Nothing is assumed of the value read; the
/// store keeps FIFO order even across a clock step.
#[verifier::external_body]
fn now_millis() -> (r: i64) {
    chrono::Utc::now().timestamp_millis()
}

/// What a producer gets back when polling for its aggregated proof: the
/// inclusion proof siblings, the batch status, and — once the batch is
/// verified on-chain — the transaction context.
pub struct AggregatedData {
    pub siblings: Vec<[u8; 32]>,
    pub status: AggregationStatusResponse,
    pub tx_hash: Vec<u8>,
    pub chain_id: u64,
    pub contract_address: Vec<u8>,
}

/// The response `get_aggregated_data` owes for each store state and
/// identifier. An unknown identifier earns the `NotFound` sentinel, not an
/// error: premature polling is a normal outcome. A request whose batch or
/// tree is absent is `NotFound` as an error; a stored tree whose bytes no
/// longer split into whole nodes is corruption (`MalformedPayload`); a leaf
/// absent from its own batch's tree is a loud `InvariantViolation`.
pub open spec fn agg_data_spec(
    v: StoreView,
    id: Seq<u8>,
    r: Result<AggregatedData, AggregationError>,
) -> bool {
    let ri = find_req(v.requests, id);
    if ri == -1 {
        match r {
            Ok(d) => {
                &&& d.siblings@.len() == 0
                &&& d.status == AggregationStatusResponse::NotFound
                &&& d.tx_hash@.len() == 0
                &&& d.chain_id == 0
                &&& d.contract_address@.len() == 0
            },
            Err(_) => false,
        }
    } else {
        let req = v.requests[ri];
        match req.batch_id {
            None => r == Err::<AggregatedData, AggregationError>(AggregationError::NotFound),
            Some(b) => {
                let ti = find_tree(v.trees, b);
                if ti == -1 {
                    r == Err::<AggregatedData, AggregationError>(AggregationError::NotFound)
                } else {
                    let tb = v.trees[ti].tree;
                    if tb.len() % 32 != 0 {
                        r == Err::<AggregatedData, AggregationError>(
                            AggregationError::MalformedPayload,
                        )
                    } else {
                        let leaves = chunks32(tb);
                        let li = leaf_index(leaves, req_leaf(req));
                        if li == -1 {
                            r == Err::<AggregatedData, AggregationError>(
                                AggregationError::InvariantViolation,
                            )
                        } else if req.status == AggregationStatus::Verified && !(req.tx_hash
                            is Some && req.chain_id is Some && req.contract_address is Some) {
                            r == Err::<AggregatedData, AggregationError>(AggregationError::NotFound)
                        } else {
                            match r {
                                Ok(d) => {
                                    &&& nodes_view(d.siblings@) == path_from(leaves, li)
                                    &&& d.status == response_of(req.status)
                                    &&& if req.status == AggregationStatus::Verified {
                                        &&& req.tx_hash == Some(d.tx_hash@)
                                        &&& req.chain_id == Some(d.chain_id)
                                        &&& req.contract_address == Some(d.contract_address@)
                                    } else {
                                        &&& d.tx_hash@.len() == 0
                                        &&& d.chain_id == 0
                                        &&& d.contract_address@.len() == 0
                                    }
                                },
                                Err(_) => false,
                            }
                        }
                    }
                }
            },
        }
    }
}

/// The service facade: the RPC surface of the aggregation system, holding
/// the request registry it orchestrates.
pub struct AggregationRpc {
    pub store: ProofRequestStore,
}

impl AggregationRpc {
    /// A service over an empty registry.
    pub fn new() -> (s: Self)
        ensures
            s.store@.requests =~= Seq::<ReqView>::empty(),
            store_wf(s.store@),
    {
        AggregationRpc { store: ProofRequestStore::new() }
    }

    /// Registers a submitted proof under a freshly drawn identifier and
    /// returns it; the request starts `Pending` with no batch. Whatever
    /// identifier the random source produced, it is returned; a collision
    /// with a stored one is a rejected write — which needs a stored row to
    /// collide with, so on an empty registry submission always succeeds.
    pub fn aggregate_proof(
        &mut self,
        proof: Vec<u8>,
        vk: Vec<u8>,
        vkey_digest: [u8; 32],
        public_values: Vec<u8>,
    ) -> (r: Result<[u8; 32], AggregationError>)
        requires
            store_wf(old(self).store@),
        ensures
            store_wf(final(self).store@),
            match r {
                Ok(id) => {
                    &&& find_req(old(self).store@.requests, id@) == -1
                    &&& final(self).store@.requests.len() == old(self).store@.requests.len() + 1
                    &&& final(self).store@.requests.take(old(self).store@.requests.len() as int)
                        == old(self).store@.requests
                    &&& ({
                        let row = final(self).store@.requests.last();
                        &&& row.proof_id == id@
                        &&& row.status == AggregationStatus::Pending
                        &&& row.proof == proof@
                        &&& row.vk == vk@
                        &&& row.vkey_digest == vkey_digest@
                        &&& row.public_values == public_values@
                        &&& row.batch_id is None
                        &&& row.tx_hash is None
                        &&& row.chain_id is None
                        &&& row.contract_address is None
                        &&& row.created_at >= max_created(old(self).store@.requests)
                    })
                    &&& final(self).store@.trees == old(self).store@.trees
                },
                Err(e) => {
                    &&& e == AggregationError::StorageFailure
                    &&& old(self).store@.requests.len() > 0
                    &&& final(self).store@ == old(self).store@
                },
            },
            old(self).store@.requests.len() == 0 ==> r is Ok,
    {
        let proof_id = random_id();
        let created_at = now_millis();
        let ghost rs = self.store@.requests;
        match self.store.create_request(proof_id, proof, vk, vkey_digest, public_values, created_at)
        {
            Ok(()) => {
                proof {
                    assert(self.store@.requests.take(rs.len() as int) =~= rs);
                }
                Ok(proof_id)
            },
            Err(e) => {
                proof {
                    // a collision needs a stored row to collide with
                    if rs.len() == 0 {
                        assert(find_req(rs, proof_id@) == -1);
                    }
                }
                Err(e)
            },
        }
    }

    /// Current status of a request, or the `NotFound` sentinel. A pure read.
    pub fn get_aggregation_status(&self, proof_id: &[u8; 32]) -> (r: AggregationStatusResponse)
        ensures
            r == (if find_req(self.store@.requests, proof_id@) == -1 {
                AggregationStatusResponse::NotFound
            } else {
                response_of(self.store@.requests[find_req(self.store@.requests, proof_id@)].status)
            }),
    {
        self.store.get_proof_status(proof_id)
    }

    /// Draws a fresh batch identifier and returns it with a read-only FIFO
    /// selection of pending requests: up to `batch_size` (32 when absent)
    /// submitted after `created_after` (0 when absent), oldest first.
    /// Nothing transitions; the caller commits the batch separately.
    pub fn get_batch(&self, created_after: Option<i64>, batch_size: Option<u64>) -> (r: (
        [u8; 32],
        Vec<ProofRequest>,
    ))
        requires
            store_wf(self.store@),
        ensures
            views_of(r.1@) == select_spec(
                self.store@.requests,
                match created_after {
                    Some(t) => t as int,
                    None => 0,
                },
                match batch_size {
                    Some(n) => n as int,
                    None => 32,
                },
            ),
    {
        let batch_id = random_id();
        let after = match created_after {
            Some(t) => t,
            None => 0,
        };
        let size = match batch_size {
            Some(n) => n,
            None => 32,
        };
        (batch_id, self.store.get_batch(after, size))
    }

    /// Commits a batch through the store and returns the leaves as one flat
    /// byte string, 32 bytes per request, in request order — the exact
    /// input to tree construction and the exact bytes `write_merkle_tree`
    /// later persists.
    pub fn process_batch(&mut self, proofs: Vec<ProofRequest>, batch_id: [u8; 32]) -> (r: Result<
        Vec<u8>,
        AggregationError,
    >)
        requires
            store_wf(old(self).store@),
        ensures
            store_wf(final(self).store@),
            ({
                let rs = old(self).store@.requests;
                let ids = ids_of(views_of(proofs@));
                match r {
                    Ok(leaves) => {
                        &&& !some_missing(rs, ids)
                        &&& !some_not_pending(rs, ids)
                        &&& !dup_ids(ids)
                        &&& leaves@ == concat_nodes(batch_leaf_seq(rs, ids))
                        &&& leaves@.len() == 32 * proofs@.len()
                        &&& final(self).store@.requests == process_spec(rs, ids, batch_id@)
                        &&& final(self).store@.trees == old(self).store@.trees
                    },
                    Err(e) => {
                        &&& final(self).store@ == old(self).store@
                        &&& if some_missing(rs, ids) {
                            e == AggregationError::NotFound
                        } else {
                            e == AggregationError::InvariantViolation && (some_not_pending(rs, ids)
                                || dup_ids(ids))
                        }
                    },
                }
            }),
    {
        let ghost rs = old(self).store@.requests;
        let ghost ids = ids_of(views_of(proofs@));
        match self.store.process_batch(proofs, batch_id) {
            Ok(leaves) => {
                proof {
                    let bls = batch_leaf_seq(rs, ids);
                    assert(nodes_view(leaves@) == bls);
                    assert forall|k: int| 0 <= k < bls.len() implies #[trigger] bls[k].len()
                        == 32 by {
                        assert(bls[k] == nodes_view(leaves@)[k]);
                        assert(nodes_view(leaves@)[k] == leaves@[k]@);
                    }
                    crate::merkle::lemma_concat_nodes_len(bls);
                }
                Ok(flatten_nodes(&leaves))
            },
            Err(e) => Err(e),
        }
    }

    /// Persists the serialized tree for a batch; acknowledged with `true`.
    pub fn write_merkle_tree(&mut self, tree: Vec<u8>, batch_id: [u8; 32]) -> (r: Result<
        bool,
        AggregationError,
    >)
        requires
            store_wf(old(self).store@),
        ensures
            store_wf(final(self).store@),
            final(self).store@.requests == old(self).store@.requests,
            match r {
                Ok(ok) => {
                    &&& ok == true
                    &&& find_tree(old(self).store@.trees, batch_id@) == -1
                    &&& final(self).store@.trees.len() == old(self).store@.trees.len() + 1
                    &&& final(self).store@.trees.last().batch_id == batch_id@
                    &&& final(self).store@.trees.last().tree == tree@
                    &&& final(self).store@.trees.take(old(self).store@.trees.len() as int)
                        == old(self).store@.trees
                },
                Err(e) => {
                    &&& e == AggregationError::StorageFailure
                    &&& find_tree(old(self).store@.trees, batch_id@) >= 0
                    &&& final(self).store@ == old(self).store@
                },
            },
    {
        let ghost ts = self.store@.trees;
        match self.store.write_merkle_tree(tree, batch_id) {
            Ok(()) => {
                proof {
                    assert(self.store@.trees.take(ts.len() as int) =~= ts);
                }
                Ok(true)
            },
            Err(e) => Err(e),
        }
    }

    /// Bulk status transition for a batch's members; acknowledged with
    /// `true`. A regressive transition is refused unchanged, so the
    /// statuses any client observes are non-decreasing.
    pub fn update_batch_status(&mut self, batch_id: [u8; 32], status: AggregationStatus) -> (r:
        Result<bool, AggregationError>)
        requires
            store_wf(old(self).store@),
        ensures
            store_wf(final(self).store@),
            match r {
                Ok(ok) => {
                    &&& ok == true
                    &&& !status_regress(old(self).store@.requests, batch_id@, status)
                    &&& final(self).store@.requests == update_status_spec(
                        old(self).store@.requests,
                        batch_id@,
                        status,
                    )
                    &&& final(self).store@.trees == old(self).store@.trees
                },
                Err(e) => {
                    &&& e == AggregationError::InvariantViolation
                    &&& status_regress(old(self).store@.requests, batch_id@, status)
                    &&& final(self).store@ == old(self).store@
                },
            },
    {
        match self.store.update_batch_status(batch_id, status) {
            Ok(()) => Ok(true),
            Err(e) => Err(e),
        }
    }

    /// Retrieves the inclusion proof and verified transaction context for a
    /// submitted proof, rebuilding the batch's tree from its stored leaves.
    /// An identifier that was never submitted earns the sentinel response,
    /// not an error.
    pub fn get_aggregated_data(&self, proof_id: &[u8; 32]) -> (r: Result<
        AggregatedData,
        AggregationError,
    >)
        requires
            store_wf(self.store@),
        ensures
            agg_data_spec(self.store@, proof_id@, r),
    {
        let status = self.store.get_proof_status(proof_id);
        if matches!(status, AggregationStatusResponse::NotFound) {
            return Ok(
                AggregatedData {
                    siblings: Vec::new(),
                    status: AggregationStatusResponse::NotFound,
                    tx_hash: Vec::new(),
                    chain_id: 0,
                    contract_address: Vec::new(),
                },
            );
        }
        let ghost ri = find_req(self.store@.requests, proof_id@);
        let ghost req = self.store@.requests[ri];
        let tree_bytes = match self.store.get_merkle_tree(proof_id) {
            Ok(t) => t,
            Err(e) => {
                return Err(AggregationError::NotFound);
            },
        };
        let leaves = match split_nodes(&tree_bytes) {
            Some(l) => l,
            None => {
                return Err(AggregationError::MalformedPayload);
            },
        };
        let leaf = match self.store.get_leaf(proof_id) {
            Ok(l) => l,
            Err(_) => {
                return Err(AggregationError::NotFound);
            },
        };
        let tree = MerkleTree::new(leaves);
        proof {
            assert(nodes_view(tree.leaves@) == chunks32(tree_bytes@));
            assert(leaf@ == req_leaf(req));
        }
        let siblings = match tree.generate_proof(leaf) {
            Some(p) => p,
            None => {
                return Err(AggregationError::InvariantViolation);
            },
        };
        if matches!(status, AggregationStatusResponse::AggregationVerified) {
            proof {
                assert(req.status == AggregationStatus::Verified);
            }
            match self.store.get_tx_context(proof_id) {
                Ok((tx_hash, chain_id, contract_address)) => Ok(
                    AggregatedData { siblings, status, tx_hash, chain_id, contract_address },
                ),
                Err(_) => Err(AggregationError::NotFound),
            }
        } else {
            proof {
                assert(req.status != AggregationStatus::Verified);
            }
            Ok(
                AggregatedData {
                    siblings,
                    status,
                    tx_hash: Vec::new(),
                    chain_id: 0,
                    contract_address: Vec::new(),
                },
            )
        }
    }
}

} // verus!
