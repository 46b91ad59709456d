//! The persisted registry of proof requests and batch trees.
//!
//! A thin record store, not a general database: requests are keyed by
//! `proof_id` and held in submission order, trees are keyed by `batch_id`.
//! The store owns the status state machine: every mutation preserves the
//! data-model invariants (unique identifiers, FIFO timestamps, a batch
//! assigned exactly once, statuses that never regress) and multi-row
//! mutations are atomic — they change every named row or none.

use vstd::prelude::*;

use vstd::pervasive::VecAdditionalExecFns;

use crate::errors::AggregationError;
use crate::hashes::bytes32_eq;
use crate::request::{copy_bytes, req_leaf, ProofRequest, ReqView};
use crate::status::{
    response_of, status_le, status_response, AggregationStatus, AggregationStatusResponse,
};

verus! {

/// Ghost image of one stored batch tree.
pub struct TreeRecView {
    pub batch_id: Seq<u8>,
    pub tree: Seq<u8>,
}

/// The serialized commitment tree of one batch.
pub struct TreeRecord {
    pub batch_id: [u8; 32],
    pub tree: Vec<u8>,
}

impl View for TreeRecord {
    type V = TreeRecView;

    open spec fn view(&self) -> TreeRecView {
        TreeRecView { batch_id: self.batch_id@, tree: self.tree@ }
    }
}

/// Ghost image of the whole store.
pub struct StoreView {
    pub requests: Seq<ReqView>,
    pub trees: Seq<TreeRecView>,
}

/// The request registry and the tree table.
pub struct ProofRequestStore {
    pub requests: Vec<ProofRequest>,
    pub trees: Vec<TreeRecord>,
}

/// The ghost images of a list of requests, in order.
pub open spec fn views_of(s: Seq<ProofRequest>) -> Seq<ReqView> {
    Seq::new(s.len(), |i: int| s[i]@)
}

/// The ghost images of a list of tree records, in order.
pub open spec fn tree_views_of(s: Seq<TreeRecord>) -> Seq<TreeRecView> {
    Seq::new(s.len(), |i: int| s[i]@)
}

impl View for ProofRequestStore {
    type V = StoreView;

    open spec fn view(&self) -> StoreView {
        StoreView { requests: views_of(self.requests@), trees: tree_views_of(self.trees@) }
    }
}

/// Position of the request with the given identifier, or -1 when none has
/// it.
pub open spec fn find_req(rs: Seq<ReqView>, id: Seq<u8>) -> int
    decreases rs.len(),
{
    if rs.len() == 0 {
        -1
    } else if rs[0].proof_id == id {
        0
    } else {
        let r = find_req(rs.drop_first(), id);
        if r == -1 {
            -1
        } else {
            r + 1
        }
    }
}

pub proof fn lemma_find_req_absent(rs: Seq<ReqView>, id: Seq<u8>)
    requires
        forall|j: int| 0 <= j < rs.len() ==> rs[j].proof_id != id,
    ensures
        find_req(rs, id) == -1,
    decreases rs.len(),
{
    if rs.len() > 0 {
        assert(forall|j: int|
            0 <= j < rs.drop_first().len() ==> rs.drop_first()[j] == rs[j + 1]);
        lemma_find_req_absent(rs.drop_first(), id);
    }
}

pub proof fn lemma_find_req_first(rs: Seq<ReqView>, id: Seq<u8>, i: int)
    requires
        0 <= i < rs.len(),
        rs[i].proof_id == id,
        forall|j: int| 0 <= j < i ==> rs[j].proof_id != id,
    ensures
        find_req(rs, id) == i,
    decreases i,
{
    if i > 0 {
        assert(rs.drop_first()[i - 1] == rs[i]);
        assert(forall|j: int| 0 <= j < i - 1 ==> rs.drop_first()[j] == rs[j + 1]);
        lemma_find_req_first(rs.drop_first(), id, i - 1);
    }
}

/// With unique identifiers, every row is found at its own position.
pub proof fn lemma_find_req_self(rs: Seq<ReqView>, i: int)
    requires
        unique_ids(rs),
        0 <= i < rs.len(),
    ensures
        find_req(rs, rs[i].proof_id) == i,
{
    lemma_find_req_first(rs, rs[i].proof_id, i);
}

/// Position of the tree stored for the given batch, or -1 when none is.
pub open spec fn find_tree(ts: Seq<TreeRecView>, b: Seq<u8>) -> int
    decreases ts.len(),
{
    if ts.len() == 0 {
        -1
    } else if ts[0].batch_id == b {
        0
    } else {
        let r = find_tree(ts.drop_first(), b);
        if r == -1 {
            -1
        } else {
            r + 1
        }
    }
}

pub proof fn lemma_find_tree_absent(ts: Seq<TreeRecView>, b: Seq<u8>)
    requires
        forall|j: int| 0 <= j < ts.len() ==> ts[j].batch_id != b,
    ensures
        find_tree(ts, b) == -1,
    decreases ts.len(),
{
    if ts.len() > 0 {
        assert(forall|j: int|
            0 <= j < ts.drop_first().len() ==> ts.drop_first()[j] == ts[j + 1]);
        lemma_find_tree_absent(ts.drop_first(), b);
    }
}

pub proof fn lemma_find_tree_first(ts: Seq<TreeRecView>, b: Seq<u8>, i: int)
    requires
        0 <= i < ts.len(),
        ts[i].batch_id == b,
        forall|j: int| 0 <= j < i ==> ts[j].batch_id != b,
    ensures
        find_tree(ts, b) == i,
    decreases i,
{
    if i > 0 {
        assert(ts.drop_first()[i - 1] == ts[i]);
        assert(forall|j: int| 0 <= j < i - 1 ==> ts.drop_first()[j] == ts[j + 1]);
        lemma_find_tree_first(ts.drop_first(), b, i - 1);
    }
}

/// No two rows share a proof identifier.
pub open spec fn unique_ids(rs: Seq<ReqView>) -> bool {
    forall|i: int, j: int|
        0 <= i < j < rs.len() ==> rs[i].proof_id != rs[j].proof_id
}

/// Rows are held in submission order: timestamps never decrease.
pub open spec fn sorted_by_created(rs: Seq<ReqView>) -> bool {
    forall|i: int, j: int|
        0 <= i <= j < rs.len() ==> rs[i].created_at <= rs[j].created_at
}

/// The newest stored timestamp, or the smallest representable one for an
/// empty registry.
pub open spec fn max_created(rs: Seq<ReqView>) -> int {
    if rs.len() == 0 {
        i64::MIN as int
    } else {
        rs.last().created_at
    }
}

/// The timestamp stored for a newly created row: the given wall-clock
/// reading, monotonized against the newest stored row.
///
/// Two demands of the data model meet here. A row's `created_at` is its
/// submission timestamp and is never mutated afterwards; and batch
/// selection must return pending rows oldest first, ascending by
/// `created_at`, deterministically equal to arrival order. A wall clock
/// that steps backwards between two submissions cannot honour both at
/// once, so this store resolves the conflict once, at the write boundary:
/// a reading older than the newest stored row is raised to that row's
/// timestamp, arrival order remains the selection order, and the stored
/// value never changes again. Whenever the clock is monotone — the normal
/// case — this is exactly the given reading, stored verbatim.
pub open spec fn fifo_created_at(given: int, rs: Seq<ReqView>) -> int {
    if given >= max_created(rs) {
        given
    } else {
        max_created(rs)
    }
}

/// The data-model invariants: identifiers are unique and never reused, rows
/// sit in FIFO order, a row is `Pending` exactly as long as it has no batch,
/// timestamps fit their storage type, and each batch stores at most one
/// tree.
pub open spec fn store_wf(v: StoreView) -> bool {
    &&& unique_ids(v.requests)
    &&& sorted_by_created(v.requests)
    &&& forall|i: int|
        0 <= i < v.requests.len()
            ==> ((#[trigger] v.requests[i].status == AggregationStatus::Pending)
                <==> v.requests[i].batch_id is None)
    &&& forall|i: int|
        0 <= i < v.requests.len()
            ==> i64::MIN <= #[trigger] v.requests[i].created_at <= i64::MAX
    &&& forall|i: int, j: int|
        0 <= i < j < v.trees.len() ==> v.trees[i].batch_id != v.trees[j].batch_id
}

/// The rows a batch selection returns: the pending rows newer than `after`,
/// in store (FIFO) order, up to `limit` of them.
pub open spec fn select_spec(rs: Seq<ReqView>, after: int, limit: int) -> Seq<ReqView>
    decreases rs.len(),
{
    if rs.len() == 0 || limit <= 0 {
        Seq::empty()
    } else if rs[0].status == AggregationStatus::Pending && rs[0].created_at > after {
        seq![rs[0]] + select_spec(rs.drop_first(), after, limit - 1)
    } else {
        select_spec(rs.drop_first(), after, limit)
    }
}

impl ProofRequestStore {
    /// An empty registry.
    pub fn new() -> (s: Self)
        ensures
            s@.requests =~= Seq::<ReqView>::empty(),
            s@.trees =~= Seq::<TreeRecView>::empty(),
            store_wf(s@),
    {
        let s = ProofRequestStore { requests: Vec::new(), trees: Vec::new() };
        proof {
            assert(s@.requests =~= Seq::<ReqView>::empty());
            assert(s@.trees =~= Seq::<TreeRecView>::empty());
        }
        s
    }

    /// Position of the request with this identifier, if any.
    fn find_request_index(&self, proof_id: &[u8; 32]) -> (r: Option<usize>)
        ensures
            match r {
                Some(i) => i < self@.requests.len() && find_req(self@.requests, proof_id@)
                    == i as int,
                None => find_req(self@.requests, proof_id@) == -1,
            },
    {
        let ghost rs = self@.requests;
        let mut i: usize = 0;
        while i < self.requests.len()
            invariant
                rs == self@.requests,
                i <= rs.len(),
                forall|j: int| 0 <= j < i ==> rs[j].proof_id != proof_id@,
            decreases rs.len() - i,
        {
            if bytes32_eq(&self.requests[i].proof_id, proof_id) {
                proof {
                    lemma_find_req_first(rs, proof_id@, i as int);
                }
                return Some(i);
            }
            i += 1;
        }
        proof {
            lemma_find_req_absent(rs, proof_id@);
        }
        None
    }

    /// Position of the tree stored for this batch, if any.
    fn find_tree_index(&self, batch_id: &[u8; 32]) -> (r: Option<usize>)
        ensures
            match r {
                Some(i) => i < self@.trees.len() && find_tree(self@.trees, batch_id@) == i as int,
                None => find_tree(self@.trees, batch_id@) == -1,
            },
    {
        let ghost ts = self@.trees;
        let mut i: usize = 0;
        while i < self.trees.len()
            invariant
                ts == self@.trees,
                i <= ts.len(),
                forall|j: int| 0 <= j < i ==> ts[j].batch_id != batch_id@,
            decreases ts.len() - i,
        {
            if bytes32_eq(&self.trees[i].batch_id, batch_id) {
                proof {
                    lemma_find_tree_first(ts, batch_id@, i as int);
                }
                return Some(i);
            }
            i += 1;
        }
        proof {
            lemma_find_tree_absent(ts, batch_id@);
        }
        None
    }

    /// Registers a fresh submission as `Pending` with no batch. The row's
    /// timestamp is `fifo_created_at(created_at, ...)`: the given submission
    /// time, stored verbatim whenever the clock did not step backwards, and
    /// raised to the newest stored timestamp when it did — see that
    /// function's comment for why the store resolves the clock anomaly this
    /// way. Once stored, the value never changes. A reused identifier is a
    /// rejected write that leaves the store untouched.
    pub fn create_request(
        &mut self,
        proof_id: [u8; 32],
        proof: Vec<u8>,
        vk: Vec<u8>,
        vkey_digest: [u8; 32],
        public_values: Vec<u8>,
        created_at: i64,
    ) -> (r: Result<(), AggregationError>)
        requires
            store_wf(old(self)@),
        ensures
            store_wf(final(self)@),
            match r {
                Ok(()) => {
                    &&& find_req(old(self)@.requests, proof_id@) == -1
                    &&& final(self)@.requests =~= old(self)@.requests.push(
                        ReqView {
                            proof_id: proof_id@,
                            status: AggregationStatus::Pending,
                            proof: proof@,
                            vk: vk@,
                            vkey_digest: vkey_digest@,
                            public_values: public_values@,
                            created_at: fifo_created_at(
                                created_at as int,
                                old(self)@.requests,
                            ),
                            batch_id: None,
                            tx_hash: None,
                            chain_id: None,
                            contract_address: None,
                        },
                    )
                    &&& final(self)@.trees == old(self)@.trees
                },
                Err(e) => {
                    &&& e == AggregationError::StorageFailure
                    &&& find_req(old(self)@.requests, proof_id@) >= 0
                    &&& final(self)@ == old(self)@
                },
            },
    {
        let ghost rs = self@.requests;
        if self.find_request_index(&proof_id).is_some() {
            proof {
                assert(self@ =~~= old(self)@);
            }
            return Err(AggregationError::StorageFailure);
        }
        let effective_at = if self.requests.len() == 0 {
            created_at
        } else {
            let last = self.requests[self.requests.len() - 1].created_at;
            proof {
                assert(rs.last() == rs[rs.len() - 1]);
            }
            if created_at >= last {
                created_at
            } else {
                last
            }
        };
        let row = ProofRequest {
            proof_id,
            status: AggregationStatus::Pending,
            proof,
            vk,
            vkey_digest,
            public_values,
            created_at: effective_at,
            batch_id: None,
            tx_hash: None,
            chain_id: None,
            contract_address: None,
        };
        self.requests.push(row);
        proof {
            let new_rs = self@.requests;
            assert(new_rs =~= rs.push(row@));
            assert forall|j: int| 0 <= j < rs.len() implies rs[j].proof_id != proof_id@ by {
                if rs[j].proof_id == proof_id@ {
                    lemma_find_req_first_exists(rs, proof_id@);
                }
            }
            assert(forall|i: int|
                0 <= i < rs.len() ==> rs[i].created_at <= max_created(rs));
            assert(self@.trees =~= old(self)@.trees);
        }
        Ok(())
    }

    /// Reports the stored status of a request, or the `NotFound` sentinel
    /// for an identifier that was never submitted. A pure read.
    pub fn get_proof_status(&self, proof_id: &[u8; 32]) -> (r: AggregationStatusResponse)
        ensures
            r == (if find_req(self@.requests, proof_id@) == -1 {
                AggregationStatusResponse::NotFound
            } else {
                response_of(self@.requests[find_req(self@.requests, proof_id@)].status)
            }),
    {
        match self.find_request_index(proof_id) {
            Some(i) => status_response(self.requests[i].status),
            None => AggregationStatusResponse::NotFound,
        }
    }

    /// Read-only FIFO selection: up to `batch_size` pending requests newer
    /// than `created_after`, oldest first. Transitions nothing, so a caller
    /// may inspect a candidate batch before committing to it.
    pub fn get_batch(&self, created_after: i64, batch_size: u64) -> (r: Vec<ProofRequest>)
        requires
            store_wf(self@),
        ensures
            views_of(r@) == select_spec(
                self@.requests,
                created_after as int,
                batch_size as int,
            ),
    {
        let ghost rs = self@.requests;
        let ghost target = select_spec(rs, created_after as int, batch_size as int);
        let mut out: Vec<ProofRequest> = Vec::new();
        let mut i: usize = 0;
        proof {
            assert(rs.skip(0) =~= rs);
        }
        while i < self.requests.len() && (out.len() as u64) < batch_size
            invariant
                rs == self@.requests,
                i <= rs.len(),
                out@.len() <= batch_size,
                target =~= views_of(out@) + select_spec(
                    rs.skip(i as int),
                    created_after as int,
                    batch_size as int - out@.len(),
                ),
            decreases rs.len() - i,
        {
            let ghost rest = rs.skip(i as int);
            let ghost remaining = batch_size as int - out@.len();
            proof {
                assert(rest[0] == rs[i as int]);
                assert(rest.drop_first() =~= rs.skip(i as int + 1));
            }
            let row = &self.requests[i];
            if matches!(row.status, AggregationStatus::Pending) && row.created_at > created_after {
                let ghost old_out = out@;
                out.push(row.clone());
                proof {
                    assert(views_of(out@) =~= views_of(old_out).push(rs[i as int]));
                    assert(select_spec(rest, created_after as int, remaining)
                        == seq![rs[i as int]] + select_spec(
                            rest.drop_first(),
                            created_after as int,
                            remaining - 1,
                        ));
                    assert(views_of(old_out) + (seq![rs[i as int]] + select_spec(
                        rs.skip(i as int + 1),
                        created_after as int,
                        remaining - 1,
                    )) =~= views_of(out@) + select_spec(
                        rs.skip(i as int + 1),
                        created_after as int,
                        remaining - 1,
                    ));
                }
            }
            i += 1;
        }
        proof {
            if i as int == rs.len() {
                assert(rs.skip(i as int) =~= Seq::<ReqView>::empty());
            }
            assert(select_spec(
                rs.skip(i as int),
                created_after as int,
                batch_size as int - out@.len(),
            ) =~= Seq::<ReqView>::empty());
            assert(views_of(out@) + Seq::<ReqView>::empty() =~= views_of(out@));
        }
        out
    }

    /// Recomputes the leaf a stored request contributes to its batch's
    /// commitment tree.
    pub fn get_leaf(&self, proof_id: &[u8; 32]) -> (r: Result<[u8; 32], AggregationError>)
        ensures
            match r {
                Ok(l) => {
                    &&& find_req(self@.requests, proof_id@) >= 0
                    &&& l@ == req_leaf(self@.requests[find_req(self@.requests, proof_id@)])
                },
                Err(e) => {
                    &&& e == AggregationError::NotFound
                    &&& find_req(self@.requests, proof_id@) == -1
                },
            },
    {
        match self.find_request_index(proof_id) {
            Some(i) => {
                let row = &self.requests[i];
                Ok(crate::leaf::compute_leaf(&row.vkey_digest, &row.public_values))
            },
            None => Err(AggregationError::NotFound),
        }
    }

    /// Returns the stored verification-key digest and public values of a
    /// request.
    pub fn get_vkey_and_public_values(&self, proof_id: &[u8; 32]) -> (r: Result<
        (Vec<u8>, Vec<u8>),
        AggregationError,
    >)
        ensures
            match r {
                Ok((vk_digest, pv)) => {
                    &&& find_req(self@.requests, proof_id@) >= 0
                    &&& vk_digest@ == self@.requests[find_req(
                        self@.requests,
                        proof_id@,
                    )].vkey_digest
                    &&& pv@ == self@.requests[find_req(self@.requests, proof_id@)].public_values
                },
                Err(e) => {
                    &&& e == AggregationError::NotFound
                    &&& find_req(self@.requests, proof_id@) == -1
                },
            },
    {
        match self.find_request_index(proof_id) {
            Some(i) => {
                let row = &self.requests[i];
                let mut digest: Vec<u8> = Vec::new();
                let mut k: usize = 0;
                while k < 32
                    invariant
                        k <= 32,
                        row.vkey_digest@.len() == 32,
                        digest@ =~= row.vkey_digest@.take(k as int),
                    decreases 32 - k,
                {
                    digest.push(row.vkey_digest[k]);
                    proof {
                        assert(digest@ =~= row.vkey_digest@.take(k as int + 1));
                    }
                    k += 1;
                }
                proof {
                    assert(digest@ =~= row.vkey_digest@);
                }
                Ok((digest, copy_bytes(&row.public_values)))
            },
            None => Err(AggregationError::NotFound),
        }
    }

    /// Returns the transaction context of a verified request; it is absent
    /// until the owning batch's confirmation has been recorded.
    pub fn get_tx_context(&self, proof_id: &[u8; 32]) -> (r: Result<
        (Vec<u8>, u64, Vec<u8>),
        AggregationError,
    >)
        ensures
            ({
                let ri = find_req(self@.requests, proof_id@);
                match r {
                    Ok((tx_hash, chain_id, contract_address)) => {
                        &&& ri >= 0
                        &&& self@.requests[ri].tx_hash == Some(tx_hash@)
                        &&& self@.requests[ri].chain_id == Some(chain_id)
                        &&& self@.requests[ri].contract_address == Some(contract_address@)
                    },
                    Err(e) => {
                        &&& e == AggregationError::NotFound
                        &&& (ri == -1 || self@.requests[ri].tx_hash is None
                            || self@.requests[ri].chain_id is None
                            || self@.requests[ri].contract_address is None)
                    },
                }
            }),
    {
        match self.find_request_index(proof_id) {
            Some(i) => {
                let row = &self.requests[i];
                match (&row.tx_hash, &row.chain_id, &row.contract_address) {
                    (Some(tx), Some(chain), Some(addr)) => Ok(
                        (copy_bytes(tx), *chain, copy_bytes(addr)),
                    ),
                    _ => Err(AggregationError::NotFound),
                }
            },
            None => Err(AggregationError::NotFound),
        }
    }

    /// Persists the serialized commitment tree of a batch. A batch stores
    /// its tree exactly once: a second write for the same batch is a
    /// rejected write.
    pub fn write_merkle_tree(&mut self, merkle_tree: Vec<u8>, batch_id: [u8; 32]) -> (r: Result<
        (),
        AggregationError,
    >)
        requires
            store_wf(old(self)@),
        ensures
            store_wf(final(self)@),
            final(self)@.requests == old(self)@.requests,
            match r {
                Ok(()) => {
                    &&& find_tree(old(self)@.trees, batch_id@) == -1
                    &&& final(self)@.trees =~= old(self)@.trees.push(
                        TreeRecView { batch_id: batch_id@, tree: merkle_tree@ },
                    )
                },
                Err(e) => {
                    &&& e == AggregationError::StorageFailure
                    &&& find_tree(old(self)@.trees, batch_id@) >= 0
                    &&& final(self)@ == old(self)@
                },
            },
    {
        let ghost ts = self@.trees;
        if self.find_tree_index(&batch_id).is_some() {
            proof {
                assert(self@ =~~= old(self)@);
            }
            return Err(AggregationError::StorageFailure);
        }
        let row = TreeRecord { batch_id, tree: merkle_tree };
        self.trees.push(row);
        proof {
            assert(self@.trees =~= ts.push(row@));
            assert(self@.requests =~= old(self)@.requests);
            assert forall|j: int| 0 <= j < ts.len() implies ts[j].batch_id != batch_id@ by {
                if ts[j].batch_id == batch_id@ {
                    lemma_find_tree_first_exists(ts, batch_id@);
                }
            }
        }
        Ok(())
    }

    /// The serialized tree of the batch that owns a request: the request
    /// must exist, carry a batch, and that batch must have stored its tree.
    pub fn get_merkle_tree(&self, proof_id: &[u8; 32]) -> (r: Result<Vec<u8>, AggregationError>)
        ensures
            ({
                let ri = find_req(self@.requests, proof_id@);
                match r {
                    Ok(t) => {
                        &&& ri >= 0
                        &&& self@.requests[ri].batch_id is Some
                        &&& find_tree(self@.trees, self@.requests[ri].batch_id->0) >= 0
                        &&& t@ == self@.trees[find_tree(
                            self@.trees,
                            self@.requests[ri].batch_id->0,
                        )].tree
                    },
                    Err(e) => {
                        &&& e == AggregationError::NotFound
                        &&& (ri == -1 || self@.requests[ri].batch_id is None
                            || find_tree(self@.trees, self@.requests[ri].batch_id->0) == -1)
                    },
                }
            }),
    {
        let i = match self.find_request_index(proof_id) {
            Some(i) => i,
            None => {
                return Err(AggregationError::NotFound);
            },
        };
        let batch_id = match &self.requests[i].batch_id {
            Some(b) => *b,
            None => {
                return Err(AggregationError::NotFound);
            },
        };
        match self.find_tree_index(&batch_id) {
            Some(t) => Ok(copy_bytes(&self.trees[t].tree)),
            None => Err(AggregationError::NotFound),
        }
    }
}

/// The identifiers of a list of requests, in order.
pub open spec fn ids_of(ps: Seq<ReqView>) -> Seq<Seq<u8>> {
    Seq::new(ps.len(), |k: int| ps[k].proof_id)
}

/// A row after selection into a batch: `Aggregated`, carrying the batch
/// identifier; everything else untouched.
pub open spec fn aggregated_row(r: ReqView, b: Seq<u8>) -> ReqView {
    ReqView { status: AggregationStatus::Aggregated, batch_id: Some(b), ..r }
}

/// A row with its status replaced.
pub open spec fn with_status(r: ReqView, st: AggregationStatus) -> ReqView {
    ReqView { status: st, ..r }
}

/// A row with its transaction context recorded.
pub open spec fn with_tx(r: ReqView, tx: Seq<u8>, chain: u64, addr: Seq<u8>) -> ReqView {
    ReqView { tx_hash: Some(tx), chain_id: Some(chain), contract_address: Some(addr), ..r }
}

/// The registry after committing a batch: every row named by `ids` becomes
/// an aggregated member of batch `b`; every other row is untouched.
pub open spec fn process_spec(rs: Seq<ReqView>, ids: Seq<Seq<u8>>, b: Seq<u8>) -> Seq<ReqView> {
    Seq::new(
        rs.len(),
        |i: int|
            if ids.contains(rs[i].proof_id) {
                aggregated_row(rs[i], b)
            } else {
                rs[i]
            },
    )
}

/// The registry after a partial commit of the first `k` named rows.
pub open spec fn process_prefix(
    rs: Seq<ReqView>,
    ids: Seq<Seq<u8>>,
    b: Seq<u8>,
    k: int,
) -> Seq<ReqView> {
    Seq::new(
        rs.len(),
        |i: int|
            if ids.take(k).contains(rs[i].proof_id) {
                aggregated_row(rs[i], b)
            } else {
                rs[i]
            },
    )
}

/// Some named identifier has no row.
pub open spec fn some_missing(rs: Seq<ReqView>, ids: Seq<Seq<u8>>) -> bool {
    exists|k: int| 0 <= k < ids.len() && find_req(rs, ids[k]) == -1
}

/// Some named row is past `Pending` — it already belongs to a batch.
pub open spec fn some_not_pending(rs: Seq<ReqView>, ids: Seq<Seq<u8>>) -> bool {
    exists|k: int|
        0 <= k < ids.len() && find_req(rs, ids[k]) >= 0 && rs[find_req(rs, ids[k])].status
            != AggregationStatus::Pending
}

/// Some identifier is named twice.
pub open spec fn dup_ids(ids: Seq<Seq<u8>>) -> bool {
    exists|k1: int, k2: int| 0 <= k1 < k2 < ids.len() && ids[k1] == ids[k2]
}

/// The leaves a batch commits to, one per named row, in the given order.
pub open spec fn batch_leaf_seq(rs: Seq<ReqView>, ids: Seq<Seq<u8>>) -> Seq<Seq<u8>> {
    Seq::new(ids.len(), |k: int| req_leaf(rs[find_req(rs, ids[k])]))
}

/// The registry after a bulk status update of batch `b`.
pub open spec fn update_status_spec(
    rs: Seq<ReqView>,
    b: Seq<u8>,
    st: AggregationStatus,
) -> Seq<ReqView> {
    Seq::new(
        rs.len(),
        |i: int|
            if rs[i].batch_id == Some(b) {
                with_status(rs[i], st)
            } else {
                rs[i]
            },
    )
}

/// Some member of batch `b` would move backwards under the new status.
pub open spec fn status_regress(rs: Seq<ReqView>, b: Seq<u8>, st: AggregationStatus) -> bool {
    exists|i: int|
        0 <= i < rs.len() && rs[i].batch_id == Some(b) && !status_le(rs[i].status, st)
}

/// The registry after recording the transaction context of batch `b`.
pub open spec fn set_tx_spec(
    rs: Seq<ReqView>,
    b: Seq<u8>,
    tx: Seq<u8>,
    chain: u64,
    addr: Seq<u8>,
) -> Seq<ReqView> {
    Seq::new(
        rs.len(),
        |i: int|
            if rs[i].batch_id == Some(b) {
                with_tx(rs[i], tx, chain, addr)
            } else {
                rs[i]
            },
    )
}

/// Some member of batch `b` already carries a transaction context.
pub open spec fn tx_already_set(rs: Seq<ReqView>, b: Seq<u8>) -> bool {
    exists|i: int|
        0 <= i < rs.len() && rs[i].batch_id == Some(b) && (rs[i].tx_hash is Some
            || rs[i].chain_id is Some || rs[i].contract_address is Some)
}

/// The registry after a partial bulk status update of the first `k` rows.
pub open spec fn update_status_prefix(
    rs: Seq<ReqView>,
    b: Seq<u8>,
    st: AggregationStatus,
    k: int,
) -> Seq<ReqView> {
    Seq::new(
        rs.len(),
        |i: int|
            if i < k && rs[i].batch_id == Some(b) {
                with_status(rs[i], st)
            } else {
                rs[i]
            },
    )
}

/// The registry after a partial transaction-context update of the first `k`
/// rows.
pub open spec fn set_tx_prefix(
    rs: Seq<ReqView>,
    b: Seq<u8>,
    tx: Seq<u8>,
    chain: u64,
    addr: Seq<u8>,
    k: int,
) -> Seq<ReqView> {
    Seq::new(
        rs.len(),
        |i: int|
            if i < k && rs[i].batch_id == Some(b) {
                with_tx(rs[i], tx, chain, addr)
            } else {
                rs[i]
            },
    )
}

impl ProofRequestStore {
    /// Commits a selected batch: in the given order, flips every named row
    /// from `Pending` to `Aggregated` with the given batch identifier and
    /// returns the rows' leaves in exactly that order — the input to tree
    /// construction. All-or-nothing: a missing row (`NotFound`), a row
    /// already past `Pending`, or a repeated identifier
    /// (`InvariantViolation`) leaves the store unchanged, so no partial
    /// batch is ever visible to a concurrent selector.
    pub fn process_batch(&mut self, proofs: Vec<ProofRequest>, batch_id: [u8; 32]) -> (r: Result<
        Vec<[u8; 32]>,
        AggregationError,
    >)
        requires
            store_wf(old(self)@),
        ensures
            store_wf(final(self)@),
            ({
                let rs = old(self)@.requests;
                let ids = ids_of(views_of(proofs@));
                match r {
                    Ok(leaves) => {
                        &&& !some_missing(rs, ids)
                        &&& !some_not_pending(rs, ids)
                        &&& !dup_ids(ids)
                        &&& crate::merkle::nodes_view(leaves@) == batch_leaf_seq(rs, ids)
                        &&& final(self)@.requests == process_spec(rs, ids, batch_id@)
                        &&& final(self)@.trees == old(self)@.trees
                    },
                    Err(e) => {
                        &&& final(self)@ == old(self)@
                        &&& if some_missing(rs, ids) {
                            e == AggregationError::NotFound
                        } else {
                            e == AggregationError::InvariantViolation && (some_not_pending(rs, ids)
                                || dup_ids(ids))
                        }
                    },
                }
            }),
    {
        let ghost rs = old(self)@.requests;
        let ghost ids = ids_of(views_of(proofs@));
        let n = proofs.len();
        let mut idxs: Vec<usize> = Vec::new();
        let mut k: usize = 0;
        while k < n
            invariant
                n == proofs@.len(),
                *self == *old(self),
                store_wf(old(self)@),
                rs == self@.requests,
                ids == ids_of(views_of(proofs@)),
                k <= n,
                idxs@.len() == k,
                forall|j: int|
                    0 <= j < k ==> (#[trigger] idxs@[j]) < rs.len() && find_req(rs, ids[j])
                        == idxs@[j] as int,
            decreases n - k,
        {
            match self.find_request_index(&proofs[k].proof_id) {
                Some(i) => {
                    proof {
                        assert(ids[k as int] == proofs@[k as int]@.proof_id);
                    }
                    idxs.push(i);
                },
                None => {
                    proof {
                        assert(find_req(rs, ids[k as int]) == -1);
                        assert(some_missing(rs, ids));
                    }
                    return Err(AggregationError::NotFound);
                },
            }
            k += 1;
        }
        proof {
            assert(!some_missing(rs, ids)) by {
                if some_missing(rs, ids) {
                    let kk = choose|kk: int|
                        0 <= kk < ids.len() && #[trigger] find_req(rs, ids[kk]) == -1;
                    assert(find_req(rs, ids[kk]) == idxs@[kk] as int);
                }
            }
        }
        let mut k2: usize = 0;
        while k2 < n
            invariant
                n == proofs@.len(),
                *self == *old(self),
                store_wf(old(self)@),
                rs == self@.requests,
                ids == ids_of(views_of(proofs@)),
                idxs@.len() == n,
                forall|j: int|
                    0 <= j < n ==> (#[trigger] idxs@[j]) < rs.len() && find_req(rs, ids[j])
                        == idxs@[j] as int,
                !some_missing(rs, ids),
                k2 <= n,
                forall|j: int|
                    0 <= j < k2 ==> #[trigger] rs[idxs@[j] as int].status
                        == AggregationStatus::Pending,
            decreases n - k2,
        {
            let i = idxs[k2];
            if !matches!(self.requests[i].status, AggregationStatus::Pending) {
                proof {
                    assert(rs[idxs@[k2 as int] as int].status != AggregationStatus::Pending);
                    assert(find_req(rs, ids[k2 as int]) >= 0 && rs[find_req(
                        rs,
                        ids[k2 as int],
                    )].status != AggregationStatus::Pending);
                    assert(some_not_pending(rs, ids));
                }
                return Err(AggregationError::InvariantViolation);
            }
            k2 += 1;
        }
        let mut a: usize = 0;
        while a < n
            invariant
                n == proofs@.len(),
                *self == *old(self),
                store_wf(old(self)@),
                rs == self@.requests,
                ids == ids_of(views_of(proofs@)),
                !some_missing(rs, ids),
                a <= n,
                forall|j1: int, j2: int| 0 <= j1 < a && j1 < j2 < n ==> ids[j1] != ids[j2],
            decreases n - a,
        {
            let mut b2: usize = a + 1;
            while b2 < n
                invariant
                    n == proofs@.len(),
                    *self == *old(self),
                    store_wf(old(self)@),
                    rs == old(self)@.requests,
                    ids == ids_of(views_of(proofs@)),
                    !some_missing(rs, ids),
                    a < n,
                    a < b2,
                    b2 <= n,
                    forall|j2: int| a < j2 < b2 ==> ids[a as int] != ids[j2],
                decreases n - b2,
            {
                if bytes32_eq(&proofs[a].proof_id, &proofs[b2].proof_id) {
                    proof {
                        assert(ids[a as int] == ids[b2 as int]);
                        assert(dup_ids(ids));
                    }
                    return Err(AggregationError::InvariantViolation);
                }
                b2 += 1;
            }
            a += 1;
        }
        proof {
            assert(!dup_ids(ids)) by {
                if dup_ids(ids) {
                    let (k1, kx) = choose|k1: int, kx: int|
                        0 <= k1 < kx < ids.len() && #[trigger] ids[k1] == #[trigger] ids[kx];
                    assert(false);
                }
            }
            assert(!some_not_pending(rs, ids)) by {
                if some_not_pending(rs, ids) {
                    let kk = choose|kk: int|
                        0 <= kk < ids.len() && #[trigger] find_req(rs, ids[kk]) >= 0 && rs[find_req(
                            rs,
                            ids[kk],
                        )].status != AggregationStatus::Pending;
                    assert(rs[idxs@[kk] as int].status == AggregationStatus::Pending);
                }
            }
        }
        let ghost bseq = batch_id@;
        let mut leaves: Vec<[u8; 32]> = Vec::new();
        let mut k3: usize = 0;
        proof {
            assert(self@.requests =~= process_prefix(rs, ids, bseq, 0));
        }
        while k3 < n
            invariant
                n == proofs@.len(),
                rs == old(self)@.requests,
                ids == ids_of(views_of(proofs@)),
                unique_ids(rs),
                idxs@.len() == n,
                forall|j: int|
                    0 <= j < n ==> (#[trigger] idxs@[j]) < rs.len() && find_req(rs, ids[j])
                        == idxs@[j] as int,
                forall|j: int|
                    0 <= j < n ==> #[trigger] rs[idxs@[j] as int].status
                        == AggregationStatus::Pending,
                forall|j1: int, j2: int| 0 <= j1 < j2 < n ==> ids[j1] != ids[j2],
                bseq == batch_id@,
                k3 <= n,
                leaves@.len() == k3,
                forall|j: int|
                    0 <= j < k3 ==> #[trigger] leaves@[j]@ == req_leaf(rs[idxs@[j] as int]),
                self@.requests =~= process_prefix(rs, ids, bseq, k3 as int),
                self.requests@.len() == rs.len(),
                self@.trees == old(self)@.trees,
            decreases n - k3,
        {
            let i = idxs[k3];
            proof {
                lemma_find_req_found(rs, ids[k3 as int]);
                assert(rs[i as int].proof_id == ids[k3 as int]);
                if ids.take(k3 as int).contains(rs[i as int].proof_id) {
                    let j = choose|j: int|
                        0 <= j < ids.take(k3 as int).len() && #[trigger] ids.take(
                            k3 as int,
                        )[j] == rs[i as int].proof_id;
                    assert(ids[j] == ids[k3 as int]);
                }
                assert(self@.requests[i as int] == rs[i as int]);
            }
            let row = &self.requests[i];
            let leaf = crate::leaf::compute_leaf(&row.vkey_digest, &row.public_values);
            proof {
                assert(row@ == rs[i as int]);
                assert(leaf@ == req_leaf(rs[i as int]));
            }
            leaves.push(leaf);
            let mut updated = self.requests[i].clone();
            updated.status = AggregationStatus::Aggregated;
            updated.batch_id = Some(batch_id);
            proof {
                assert(updated@ == aggregated_row(rs[i as int], bseq));
            }
            self.requests.set(i, updated);
            proof {
                assert(self.requests@[i as int]@ == aggregated_row(rs[i as int], bseq));
                assert forall|ii: int| 0 <= ii < rs.len() implies views_of(self.requests@)[ii]
                    == process_prefix(rs, ids, bseq, k3 as int + 1)[ii] by {
                    lemma_take_push_contains(ids, k3 as int, rs[ii].proof_id);
                    if ii != i as int {
                        assert(views_of(self.requests@)[ii] == process_prefix(
                            rs,
                            ids,
                            bseq,
                            k3 as int,
                        )[ii]);
                        if ids[k3 as int] == rs[ii].proof_id {
                            lemma_find_req_self(rs, ii);
                        }
                    }
                }
                assert(self@.requests =~= process_prefix(rs, ids, bseq, k3 as int + 1));
            }
            k3 += 1;
        }
        proof {
            assert(ids.take(n as int) =~= ids);
            assert(self@.requests =~= process_spec(rs, ids, bseq));
            let post = process_spec(rs, ids, bseq);
            assert forall|i: int| 0 <= i < post.len() implies #[trigger] post[i].proof_id
                == rs[i].proof_id && post[i].created_at == rs[i].created_at by {}
            assert forall|i: int| 0 <= i < post.len() implies ((#[trigger] post[i].status
                == AggregationStatus::Pending) <==> post[i].batch_id is None) by {
                if ids.contains(rs[i].proof_id) {
                }
            }
            assert(store_wf(self@));
            assert(crate::merkle::nodes_view(leaves@) =~= batch_leaf_seq(rs, ids));
        }
        Ok(leaves)
    }

    /// Bulk status transition for every member of a batch, atomic as a
    /// unit. A transition that would move any member backwards in the
    /// lifecycle order is refused and changes nothing, so observed statuses
    /// are non-decreasing.
    pub fn update_batch_status(&mut self, batch_id: [u8; 32], status: AggregationStatus) -> (r:
        Result<(), AggregationError>)
        requires
            store_wf(old(self)@),
        ensures
            store_wf(final(self)@),
            ({
                let rs = old(self)@.requests;
                match r {
                    Ok(()) => {
                        &&& !status_regress(rs, batch_id@, status)
                        &&& final(self)@.requests == update_status_spec(rs, batch_id@, status)
                        &&& final(self)@.trees == old(self)@.trees
                    },
                    Err(e) => {
                        &&& e == AggregationError::InvariantViolation
                        &&& status_regress(rs, batch_id@, status)
                        &&& final(self)@ == old(self)@
                    },
                }
            }),
    {
        let ghost rs = old(self)@.requests;
        let ghost bseq = batch_id@;
        let n = self.requests.len();
        let mut i: usize = 0;
        while i < n
            invariant
                n == rs.len(),
                *self == *old(self),
                store_wf(old(self)@),
                rs == self@.requests,
                bseq == batch_id@,
                i <= n,
                forall|j: int|
                    0 <= j < i && (#[trigger] rs[j].batch_id) == Some(bseq) ==> status_le(
                        rs[j].status,
                        status,
                    ),
            decreases n - i,
        {
            let row = &self.requests[i];
            let in_batch = match &row.batch_id {
                Some(b) => bytes32_eq(b, &batch_id),
                None => false,
            };
            proof {
                crate::status::lemma_status_code_order(row.status, status);
            }
            if in_batch {
                if crate::status::status_code(row.status) > crate::status::status_code(status) {
                    proof {
                        assert(!status_le(rs[i as int].status, status));
                        assert(status_regress(rs, bseq, status));
                    }
                    return Err(AggregationError::InvariantViolation);
                }
            }
            proof {
                assert(rs[i as int].batch_id == Some(bseq) ==> status_le(
                    rs[i as int].status,
                    status,
                ));
            }
            i += 1;
        }
        proof {
            assert(!status_regress(rs, bseq, status)) by {
                if status_regress(rs, bseq, status) {
                    let jj = choose|jj: int|
                        0 <= jj < rs.len() && (#[trigger] rs[jj].batch_id) == Some(bseq)
                            && !status_le(rs[jj].status, status);
                }
            }
            assert(self@.requests =~= update_status_prefix(rs, bseq, status, 0));
        }
        let mut k: usize = 0;
        while k < n
            invariant
                n == rs.len(),
                rs == old(self)@.requests,
                store_wf(old(self)@),
                bseq == batch_id@,
                !status_regress(rs, bseq, status),
                k <= n,
                self@.requests =~= update_status_prefix(rs, bseq, status, k as int),
                self.requests@.len() == rs.len(),
                self@.trees == old(self)@.trees,
            decreases n - k,
        {
            proof {
                assert(self@.requests[k as int] == rs[k as int]);
            }
            let in_batch = match &self.requests[k].batch_id {
                Some(b) => bytes32_eq(b, &batch_id),
                None => false,
            };
            if in_batch {
                let mut updated = self.requests[k].clone();
                updated.status = status;
                proof {
                    assert(updated@ == with_status(rs[k as int], status));
                }
                self.requests.set(k, updated);
            }
            proof {
                let cur = self@.requests;
                let nxt = update_status_prefix(rs, bseq, status, k as int + 1);
                assert forall|ii: int| 0 <= ii < rs.len() implies cur[ii] == nxt[ii] by {
                    if ii == k as int {
                        if in_batch {
                            assert(rs[ii].batch_id == Some(bseq));
                            assert(cur[ii] == with_status(rs[ii], status));
                        } else {
                            assert(rs[ii].batch_id != Some(bseq));
                            assert(cur[ii] == rs[ii]);
                        }
                    } else {
                        assert(cur[ii] == update_status_prefix(rs, bseq, status, k as int)[ii]);
                    }
                }
                assert(cur =~= nxt);
            }
            k += 1;
        }
        proof {
            assert(self@.requests =~= update_status_spec(rs, bseq, status));
            let post = update_status_spec(rs, bseq, status);
            assert forall|i2: int| 0 <= i2 < post.len() implies ((#[trigger] post[i2].status
                == AggregationStatus::Pending) <==> post[i2].batch_id is None) by {
                if rs[i2].batch_id == Some(bseq) {
                    assert(rs[i2].status != AggregationStatus::Pending);
                    assert(status_le(rs[i2].status, status));
                    assert(status != AggregationStatus::Pending);
                }
            }
            assert(store_wf(self@));
        }
        Ok(())
    }

    /// Records the transaction context for every member of a batch, atomic
    /// as a unit: either all members show the same values or none do. The
    /// context is set exactly once; a batch that already carries one is
    /// refused unchanged.
    pub fn update_proof_tx_hash(
        &mut self,
        batch_id: [u8; 32],
        tx_hash: Vec<u8>,
        chain_id: u64,
        contract_address: Vec<u8>,
    ) -> (r: Result<(), AggregationError>)
        requires
            store_wf(old(self)@),
        ensures
            store_wf(final(self)@),
            ({
                let rs = old(self)@.requests;
                match r {
                    Ok(()) => {
                        &&& !tx_already_set(rs, batch_id@)
                        &&& final(self)@.requests == set_tx_spec(
                            rs,
                            batch_id@,
                            tx_hash@,
                            chain_id,
                            contract_address@,
                        )
                        &&& final(self)@.trees == old(self)@.trees
                    },
                    Err(e) => {
                        &&& e == AggregationError::InvariantViolation
                        &&& tx_already_set(rs, batch_id@)
                        &&& final(self)@ == old(self)@
                    },
                }
            }),
    {
        let ghost rs = old(self)@.requests;
        let ghost bseq = batch_id@;
        let n = self.requests.len();
        let mut i: usize = 0;
        while i < n
            invariant
                n == rs.len(),
                *self == *old(self),
                store_wf(old(self)@),
                rs == self@.requests,
                bseq == batch_id@,
                i <= n,
                forall|j: int|
                    0 <= j < i && (#[trigger] rs[j].batch_id) == Some(bseq)
                        ==> rs[j].tx_hash is None && rs[j].chain_id is None
                            && rs[j].contract_address is None,
            decreases n - i,
        {
            let row = &self.requests[i];
            let in_batch = match &row.batch_id {
                Some(b) => bytes32_eq(b, &batch_id),
                None => false,
            };
            if in_batch && (row.tx_hash.is_some() || row.chain_id.is_some()
                || row.contract_address.is_some()) {
                proof {
                    assert(row@ == rs[i as int]);
                    assert(rs[i as int].batch_id == Some(bseq));
                    assert(rs[i as int].tx_hash is Some || rs[i as int].chain_id is Some
                        || rs[i as int].contract_address is Some);
                    assert(tx_already_set(rs, bseq));
                }
                return Err(AggregationError::InvariantViolation);
            }
            proof {
                assert(rs[i as int].batch_id == Some(bseq) ==> rs[i as int].tx_hash is None
                    && rs[i as int].chain_id is None && rs[i as int].contract_address is None);
            }
            i += 1;
        }
        proof {
            assert(!tx_already_set(rs, bseq)) by {
                if tx_already_set(rs, bseq) {
                    let jj = choose|jj: int|
                        0 <= jj < rs.len() && (#[trigger] rs[jj].batch_id) == Some(bseq) && (
                        rs[jj].tx_hash is Some || rs[jj].chain_id is Some
                            || rs[jj].contract_address is Some);
                }
            }
            assert(self@.requests =~= set_tx_prefix(
                rs,
                bseq,
                tx_hash@,
                chain_id,
                contract_address@,
                0,
            ));
        }
        let mut k: usize = 0;
        while k < n
            invariant
                n == rs.len(),
                rs == old(self)@.requests,
                store_wf(old(self)@),
                bseq == batch_id@,
                !tx_already_set(rs, bseq),
                k <= n,
                self@.requests =~= set_tx_prefix(
                    rs,
                    bseq,
                    tx_hash@,
                    chain_id,
                    contract_address@,
                    k as int,
                ),
                self.requests@.len() == rs.len(),
                self@.trees == old(self)@.trees,
            decreases n - k,
        {
            proof {
                assert(self@.requests[k as int] == rs[k as int]);
            }
            let in_batch = match &self.requests[k].batch_id {
                Some(b) => bytes32_eq(b, &batch_id),
                None => false,
            };
            if in_batch {
                let tx_copy = copy_bytes(&tx_hash);
                let addr_copy = copy_bytes(&contract_address);
                let mut updated = self.requests[k].clone();
                updated.tx_hash = Some(tx_copy);
                updated.chain_id = Some(chain_id);
                updated.contract_address = Some(addr_copy);
                proof {
                    assert(updated@ == with_tx(
                        rs[k as int],
                        tx_hash@,
                        chain_id,
                        contract_address@,
                    ));
                }
                self.requests.set(k, updated);
            }
            proof {
                let cur = self@.requests;
                let nxt = set_tx_prefix(rs, bseq, tx_hash@, chain_id, contract_address@,
                    k as int + 1);
                assert forall|ii: int| 0 <= ii < rs.len() implies cur[ii] == nxt[ii] by {
                    if ii == k as int {
                        if in_batch {
                            assert(rs[ii].batch_id == Some(bseq));
                            assert(cur[ii] == with_tx(rs[ii], tx_hash@, chain_id,
                                contract_address@));
                        } else {
                            assert(rs[ii].batch_id != Some(bseq));
                            assert(cur[ii] == rs[ii]);
                        }
                    } else {
                        assert(cur[ii] == set_tx_prefix(rs, bseq, tx_hash@, chain_id,
                            contract_address@, k as int)[ii]);
                    }
                }
                assert(cur =~= nxt);
            }
            k += 1;
        }
        proof {
            assert(self@.requests =~= set_tx_spec(rs, bseq, tx_hash@, chain_id, contract_address@));
            assert(store_wf(self@));
        }
        Ok(())
    }
}

/// A found identifier names the row at its position.
pub proof fn lemma_find_req_found(rs: Seq<ReqView>, id: Seq<u8>)
    requires
        find_req(rs, id) >= 0,
    ensures
        find_req(rs, id) < rs.len(),
        rs[find_req(rs, id)].proof_id == id,
    decreases rs.len(),
{
    if rs.len() > 0 && rs[0].proof_id != id {
        lemma_find_req_found(rs.drop_first(), id);
        assert(rs.drop_first()[find_req(rs.drop_first(), id)]
            == rs[find_req(rs.drop_first(), id) + 1]);
    }
}

proof fn lemma_take_push_contains(ids: Seq<Seq<u8>>, k: int, p: Seq<u8>)
    requires
        0 <= k < ids.len(),
    ensures
        ids.take(k + 1).contains(p) <==> (ids.take(k).contains(p) || ids[k] == p),
{
    assert(ids.take(k + 1) =~= ids.take(k).push(ids[k]));
    if ids.take(k + 1).contains(p) {
        let j = choose|j: int| 0 <= j < ids.take(k + 1).len() && #[trigger] ids.take(k + 1)[j] == p;
        if j < k {
            assert(ids.take(k)[j] == p);
        }
    }
    if ids.take(k).contains(p) {
        let j = choose|j: int| 0 <= j < ids.take(k).len() && #[trigger] ids.take(k)[j] == p;
        assert(ids.take(k + 1)[j] == p);
    }
    if ids[k] == p {
        assert(ids.take(k + 1)[k] == p);
    }
}

/// If some batch has a stored tree, the search does not return -1.
pub proof fn lemma_find_tree_first_exists(ts: Seq<TreeRecView>, b: Seq<u8>)
    requires
        exists|j: int| 0 <= j < ts.len() && ts[j].batch_id == b,
    ensures
        find_tree(ts, b) >= 0,
    decreases ts.len(),
{
    if ts.len() > 0 && ts[0].batch_id != b {
        let j = choose|j: int| 0 <= j < ts.len() && ts[j].batch_id == b;
        assert(ts.drop_first()[j - 1] == ts[j]);
        lemma_find_tree_first_exists(ts.drop_first(), b);
    }
}

/// If some row carries the identifier, the search does not return -1.
pub proof fn lemma_find_req_first_exists(rs: Seq<ReqView>, id: Seq<u8>)
    requires
        exists|j: int| 0 <= j < rs.len() && rs[j].proof_id == id,
    ensures
        find_req(rs, id) >= 0,
    decreases rs.len(),
{
    if rs.len() > 0 && rs[0].proof_id != id {
        let j = choose|j: int| 0 <= j < rs.len() && rs[j].proof_id == id;
        assert(rs.drop_first()[j - 1] == rs[j]);
        lemma_find_req_first_exists(rs.drop_first(), id);
    }
}


/// Every row a selection returns is a stored row that was `Pending` and
/// newer than the cutoff.
pub proof fn lemma_select_spec_elements(rs: Seq<ReqView>, after: int, limit: int)
    ensures
        forall|k: int|
            0 <= k < select_spec(rs, after, limit).len() ==> exists|i: int|
                0 <= i < rs.len() && #[trigger] select_spec(rs, after, limit)[k] == rs[i]
                    && rs[i].status == AggregationStatus::Pending && rs[i].created_at > after,
    decreases rs.len(),
{
    let sel = select_spec(rs, after, limit);
    if rs.len() == 0 || limit <= 0 {
    } else if rs[0].status == AggregationStatus::Pending && rs[0].created_at > after {
        lemma_select_spec_elements(rs.drop_first(), after, limit - 1);
        let rest = select_spec(rs.drop_first(), after, limit - 1);
        assert forall|k: int| 0 <= k < sel.len() implies exists|i: int|
            0 <= i < rs.len() && #[trigger] sel[k] == rs[i] && rs[i].status
                == AggregationStatus::Pending && rs[i].created_at > after by {
            if k == 0 {
                assert(sel[0] == rs[0]);
            } else {
                assert(sel[k] == rest[k - 1]);
                let i = choose|i: int|
                    0 <= i < rs.drop_first().len() && #[trigger] rest[k - 1]
                        == rs.drop_first()[i] && rs.drop_first()[i].status
                        == AggregationStatus::Pending && rs.drop_first()[i].created_at > after;
                assert(rs.drop_first()[i] == rs[i + 1]);
                assert(sel[k] == rs[i + 1]);
            }
        }
    } else {
        lemma_select_spec_elements(rs.drop_first(), after, limit);
        let rest = select_spec(rs.drop_first(), after, limit);
        assert forall|k: int| 0 <= k < sel.len() implies exists|i: int|
            0 <= i < rs.len() && #[trigger] sel[k] == rs[i] && rs[i].status
                == AggregationStatus::Pending && rs[i].created_at > after by {
            assert(sel[k] == rest[k]);
            let i = choose|i: int|
                0 <= i < rs.drop_first().len() && #[trigger] rest[k] == rs.drop_first()[i]
                    && rs.drop_first()[i].status == AggregationStatus::Pending
                    && rs.drop_first()[i].created_at > after;
            assert(rs.drop_first()[i] == rs[i + 1]);
            assert(sel[k] == rs[i + 1]);
        }
    }
}

/// Status monotonicity under batch commit: when every named row exists and
/// is still `Pending`, committing the batch only moves statuses forward in
/// the order `Pending < Aggregated < Verified`.
pub proof fn lemma_process_batch_monotonic(rs: Seq<ReqView>, ids: Seq<Seq<u8>>, b: Seq<u8>)
    requires
        unique_ids(rs),
        !some_missing(rs, ids),
        !some_not_pending(rs, ids),
    ensures
        forall|i: int|
            0 <= i < rs.len() ==> status_le(
                rs[i].status,
                #[trigger] process_spec(rs, ids, b)[i].status,
            ),
{
    assert forall|i: int| 0 <= i < rs.len() implies status_le(
        rs[i].status,
        #[trigger] process_spec(rs, ids, b)[i].status,
    ) by {
        if ids.contains(rs[i].proof_id) {
            let k = choose|k: int| 0 <= k < ids.len() && #[trigger] ids[k] == rs[i].proof_id;
            lemma_find_req_self(rs, i);
            assert(find_req(rs, ids[k]) == i);
            assert(rs[i].status == AggregationStatus::Pending);
        }
    }
}

/// Status monotonicity under a bulk update: an update that passes the
/// regression check only moves statuses forward.
pub proof fn lemma_update_status_monotonic(rs: Seq<ReqView>, b: Seq<u8>, st: AggregationStatus)
    requires
        !status_regress(rs, b, st),
    ensures
        forall|i: int|
            0 <= i < rs.len() ==> status_le(
                rs[i].status,
                #[trigger] update_status_spec(rs, b, st)[i].status,
            ),
{
}

/// Batch exclusivity: across two selection/commit cycles run to completion,
/// no proof identifier is a member of both batches. The first commit flips
/// its members to `Aggregated`, and a selection only ever returns `Pending`
/// rows, so the second cycle cannot select them again.
pub proof fn lemma_batch_exclusive(
    rs0: Seq<ReqView>,
    after1: int,
    limit1: int,
    b1: Seq<u8>,
    after2: int,
    limit2: int,
)
    ensures
        ({
            let ids1 = ids_of(select_spec(rs0, after1, limit1));
            let rs1 = process_spec(rs0, ids1, b1);
            let ids2 = ids_of(select_spec(rs1, after2, limit2));
            forall|k1: int, k2: int|
                0 <= k1 < ids1.len() && 0 <= k2 < ids2.len() ==> #[trigger] ids1[k1]
                    != #[trigger] ids2[k2]
        }),
{
    let sel1 = select_spec(rs0, after1, limit1);
    let ids1 = ids_of(sel1);
    let rs1 = process_spec(rs0, ids1, b1);
    let sel2 = select_spec(rs1, after2, limit2);
    let ids2 = ids_of(sel2);
    lemma_select_spec_elements(rs1, after2, limit2);
    assert forall|k1: int, k2: int|
        0 <= k1 < ids1.len() && 0 <= k2 < ids2.len() implies #[trigger] ids1[k1]
        != #[trigger] ids2[k2] by {
        if ids1[k1] == ids2[k2] {
            let i2 = choose|i2: int|
                0 <= i2 < rs1.len() && #[trigger] sel2[k2] == rs1[i2] && rs1[i2].status
                    == AggregationStatus::Pending && rs1[i2].created_at > after2;
            assert(ids2[k2] == sel2[k2].proof_id);
            assert(rs1[i2].proof_id == rs0[i2].proof_id);
            assert(ids1.contains(rs0[i2].proof_id));
            assert(rs1[i2].status == AggregationStatus::Aggregated);
        }
    }
}


/// FIFO: over a registry in submission order, a selection is itself ordered
/// oldest first.
pub proof fn lemma_select_spec_sorted(rs: Seq<ReqView>, after: int, limit: int)
    requires
        sorted_by_created(rs),
    ensures
        sorted_by_created(select_spec(rs, after, limit)),
    decreases rs.len(),
{
    let sel = select_spec(rs, after, limit);
    if rs.len() == 0 || limit <= 0 {
    } else {
        let rest_rs = rs.drop_first();
        assert(forall|i: int, j: int|
            0 <= i <= j < rest_rs.len() ==> rest_rs[i].created_at <= rest_rs[j].created_at);
        if rs[0].status == AggregationStatus::Pending && rs[0].created_at > after {
            lemma_select_spec_sorted(rest_rs, after, limit - 1);
            let rest = select_spec(rest_rs, after, limit - 1);
            lemma_select_spec_elements(rest_rs, after, limit - 1);
            assert forall|i: int, j: int| 0 <= i <= j < sel.len() implies sel[i].created_at
                <= sel[j].created_at by {
                if i == 0 && j > 0 {
                    assert(sel[j] == rest[j - 1]);
                    let w = choose|w: int|
                        0 <= w < rest_rs.len() && #[trigger] rest[j - 1] == rest_rs[w]
                            && rest_rs[w].status == AggregationStatus::Pending
                            && rest_rs[w].created_at > after;
                    assert(rest_rs[w] == rs[w + 1]);
                    assert(rs[0].created_at <= rs[w + 1].created_at);
                } else if i > 0 {
                    assert(sel[i] == rest[i - 1]);
                    assert(sel[j] == rest[j - 1]);
                }
            }
        } else {
            lemma_select_spec_sorted(rest_rs, after, limit);
        }
    }
}

/// Append-only batch membership: committing a batch never reassigns a row
/// that already belongs to one — its identifier cannot be among the named
/// rows, which were all still `Pending`.
pub proof fn lemma_batch_assignment_stable(rs: Seq<ReqView>, ids: Seq<Seq<u8>>, b: Seq<u8>)
    requires
        unique_ids(rs),
        !some_not_pending(rs, ids),
        forall|i: int|
            0 <= i < rs.len()
                ==> ((#[trigger] rs[i].status == AggregationStatus::Pending)
                    <==> rs[i].batch_id is None),
    ensures
        forall|i: int|
            0 <= i < rs.len() && rs[i].batch_id is Some
                ==> #[trigger] process_spec(rs, ids, b)[i].batch_id == rs[i].batch_id,
{
    assert forall|i: int| 0 <= i < rs.len() && rs[i].batch_id is Some implies #[trigger]
        process_spec(rs, ids, b)[i].batch_id == rs[i].batch_id by {
        if ids.contains(rs[i].proof_id) {
            let k = choose|k: int| 0 <= k < ids.len() && #[trigger] ids[k] == rs[i].proof_id;
            lemma_find_req_self(rs, i);
            assert(rs[i].status == AggregationStatus::Pending);
        }
    }
}

} // verus!
