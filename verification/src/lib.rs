//! Proof aggregation core: a deterministic Merkle commitment engine, a
//! persisted registry of proof submissions with a monotonic status state
//! machine, and the batch coordination layer that ties the two together.

pub mod errors;
pub mod hashes;
pub mod leaf;
pub mod merkle;
pub mod request;
pub mod service;
pub mod status;
pub mod store;

pub use errors::AggregationError;
pub use merkle::{MerkleProof, MerkleTree};
pub use request::ProofRequest;
pub use service::AggregationRpc;
pub use status::AggregationStatus;
pub use store::ProofRequestStore;
