//! One submitted proof request and its ghost image.
//!
//! Payloads are opaque byte strings. The two values the commitment logic
//! reads — the verification-key digest and the public values — are stored as
//! plain fields; whatever codec the proof system uses to extract them from
//! its own formats sits outside this crate and hands them in decoded.

use vstd::prelude::*;

use crate::leaf::leaf_bytes;
use crate::status::AggregationStatus;

verus! {

/// Ghost image of one stored proof request.
pub struct ReqView {
    pub proof_id: Seq<u8>,
    pub status: AggregationStatus,
    pub proof: Seq<u8>,
    pub vk: Seq<u8>,
    pub vkey_digest: Seq<u8>,
    pub public_values: Seq<u8>,
    pub created_at: int,
    pub batch_id: Option<Seq<u8>>,
    pub tx_hash: Option<Seq<u8>>,
    pub chain_id: Option<u64>,
    pub contract_address: Option<Seq<u8>>,
}

/// One submitted proof awaiting aggregation.
///
/// `proof_id` is assigned at submission and never changes. `batch_id` is set
/// exactly once, when the request is selected into a batch. The transaction
/// context is set exactly once, when the owning batch is confirmed on-chain.
pub struct ProofRequest {
    pub proof_id: [u8; 32],
    pub status: AggregationStatus,
    pub proof: Vec<u8>,
    pub vk: Vec<u8>,
    pub vkey_digest: [u8; 32],
    pub public_values: Vec<u8>,
    pub created_at: i64,
    pub batch_id: Option<[u8; 32]>,
    pub tx_hash: Option<Vec<u8>>,
    pub chain_id: Option<u64>,
    pub contract_address: Option<Vec<u8>>,
}

impl View for ProofRequest {
    type V = ReqView;

    open spec fn view(&self) -> ReqView {
        ReqView {
            proof_id: self.proof_id@,
            status: self.status,
            proof: self.proof@,
            vk: self.vk@,
            vkey_digest: self.vkey_digest@,
            public_values: self.public_values@,
            created_at: self.created_at as int,
            batch_id: match self.batch_id {
                Some(b) => Some(b@),
                None => None,
            },
            tx_hash: match self.tx_hash {
                Some(t) => Some(t@),
                None => None,
            },
            chain_id: self.chain_id,
            contract_address: match self.contract_address {
                Some(c) => Some(c@),
                None => None,
            },
        }
    }
}

/// The leaf this request contributes to its batch's commitment tree.
pub open spec fn req_leaf(r: ReqView) -> Seq<u8> {
    leaf_bytes(r.vkey_digest, r.public_values)
}

/// Byte-for-byte copy of a byte vector.
pub fn copy_bytes(v: &Vec<u8>) -> (r: Vec<u8>)
    ensures
        r@ == v@,
{
    let mut out: Vec<u8> = Vec::new();
    let mut i: usize = 0;
    while i < v.len()
        invariant
            i <= v@.len(),
            out@ == v@.take(i as int),
        decreases v@.len() - i,
    {
        out.push(v[i]);
        proof {
            assert(out@ =~= v@.take(i as int + 1));
        }
        i += 1;
    }
    proof {
        assert(v@.take(v@.len() as int) =~= v@);
    }
    out
}

/// Copy of an optional byte vector.
fn copy_opt_bytes(v: &Option<Vec<u8>>) -> (r: Option<Vec<u8>>)
    ensures
        match r {
            Some(b) => v is Some && b@ == v->0@,
            None => v is None,
        },
{
    match v {
        Some(b) => Some(copy_bytes(b)),
        None => None,
    }
}

impl Clone for ProofRequest {
    /// A clone denotes the same request: the views coincide.
    fn clone(&self) -> (r: Self)
        ensures
            r@ == self@,
    {
        ProofRequest {
            proof_id: self.proof_id,
            status: self.status,
            proof: copy_bytes(&self.proof),
            vk: copy_bytes(&self.vk),
            vkey_digest: self.vkey_digest,
            public_values: copy_bytes(&self.public_values),
            created_at: self.created_at,
            batch_id: self.batch_id,
            tx_hash: copy_opt_bytes(&self.tx_hash),
            chain_id: self.chain_id,
            contract_address: copy_opt_bytes(&self.contract_address),
        }
    }
}

} // verus!
