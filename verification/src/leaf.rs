//! Leaf derivation: the digest committed into the tree for one proof
//! request.
//!
//! A leaf is `SHA-256(verification-key digest || public values)` — the key
//! digest first, then the public values; the field order is
//! compatibility-critical and fixed here. The leaf hash function (SHA-256)
//! differs from the internal node hash (Keccak-256) on purpose; the two are
//! not interchangeable.

use vstd::prelude::*;

use crate::hashes::{sha256_of, sha256_prefixed};
use crate::merkle::{root_from, MerkleTree};

verus! {

/// The leaf committed for a request with the given verification-key digest
/// and public values.
pub open spec fn leaf_bytes(vkey_digest: Seq<u8>, public_values: Seq<u8>) -> Seq<u8> {
    sha256_of(vkey_digest + public_values)
}

/// Computes the leaf digest for one request.
pub fn compute_leaf(vkey_digest: &[u8; 32], public_values: &Vec<u8>) -> (r: [u8; 32])
    ensures
        r@ == leaf_bytes(vkey_digest@, public_values@),
{
    sha256_prefixed(vkey_digest, public_values.as_slice())
}

/// Byte `k` (0-based, least significant first) of a word's little-endian
/// encoding.
pub open spec fn le_byte(w: u32, k: int) -> u8 {
    if k == 0 {
        (w & 0xff) as u8
    } else if k == 1 {
        ((w >> 8) & 0xff) as u8
    } else if k == 2 {
        ((w >> 16) & 0xff) as u8
    } else {
        ((w >> 24) & 0xff) as u8
    }
}

/// The little-endian byte string of a sequence of 32-bit words.
pub open spec fn words_le_bytes(ws: Seq<u32>) -> Seq<u8> {
    Seq::new((4 * ws.len()) as nat, |i: int| le_byte(ws[i / 4], i % 4))
}

/// Serializes a verification-key hash of eight 32-bit words into its 32-byte
/// little-endian form.
pub fn words_to_bytes_le(words: &[u32; 8]) -> (r: [u8; 32])
    ensures
        r@ == words_le_bytes(words@),
{
    let mut bytes = [0u8; 32];
    let mut i: usize = 0;
    while i < 8
        invariant
            i <= 8,
            bytes@.len() == 32,
            forall|j: int| 0 <= j < 4 * i ==> bytes@[j] == le_byte(words@[j / 4], j % 4),
        decreases 8 - i,
    {
        let w = words[i];
        proof {
            assert((w & 0xff) < 256 && ((w >> 8) & 0xff) < 256 && ((w >> 16) & 0xff) < 256 && ((w
                >> 24) & 0xff) < 256) by (bit_vector);
        }
        bytes[4 * i] = (w & 0xff) as u8;
        bytes[4 * i + 1] = ((w >> 8) & 0xff) as u8;
        bytes[4 * i + 2] = ((w >> 16) & 0xff) as u8;
        bytes[4 * i + 3] = ((w >> 24) & 0xff) as u8;
        proof {
            let ii = i as int;
            assert forall|j: int| 0 <= j < 4 * (ii + 1) implies bytes@[j] == le_byte(
                words@[j / 4],
                j % 4,
            ) by {
                if j >= 4 * ii {
                    assert(j == 4 * ii + (j - 4 * ii));
                    assert(j / 4 == ii && j % 4 == j - 4 * ii);
                }
            }
        }
        i += 1;
    }
    proof {
        assert(bytes@ =~= words_le_bytes(words@));
    }
    bytes
}

/// The ordered leaves derived for a batch of verification keys and public
/// values.
pub open spec fn batch_leaves(vkeys: Seq<[u32; 8]>, pvs: Seq<Vec<u8>>) -> Seq<Seq<u8>> {
    Seq::new(vkeys.len(), |i: int| leaf_bytes(words_le_bytes(vkeys[i]@), pvs[i]@))
}

/// Derives the leaves for a batch of verified proofs and commits to them in
/// a Merkle tree, returning the 32-byte root — the public commitment an
/// aggregate proof carries for the batch.
pub fn create_merkle_tree(vkeys: &[[u32; 8]], public_values: &[Vec<u8>]) -> (r: Vec<u8>)
    requires
        vkeys@.len() == public_values@.len(),
    ensures
        r@ == root_from(batch_leaves(vkeys@, public_values@)),
        r@.len() == 32,
{
    let ghost target = batch_leaves(vkeys@, public_values@);
    let n = vkeys.len();
    let mut leaves: Vec<[u8; 32]> = Vec::new();
    let mut i: usize = 0;
    while i < n
        invariant
            n == vkeys@.len(),
            vkeys@.len() == public_values@.len(),
            target == batch_leaves(vkeys@, public_values@),
            i <= n,
            leaves@.len() == i,
            forall|j: int| 0 <= j < i ==> #[trigger] leaves@[j]@ == target[j],
        decreases n - i,
    {
        let vkey_bytes = words_to_bytes_le(vstd::slice::slice_index_get(vkeys, i));
        let leaf = compute_leaf(&vkey_bytes, vstd::slice::slice_index_get(public_values, i));
        leaves.push(leaf);
        i += 1;
    }
    let tree = MerkleTree::new(leaves);
    proof {
        assert(crate::merkle::nodes_view(tree.leaves@) =~= target);
    }
    let mut out: Vec<u8> = Vec::new();
    let mut k: usize = 0;
    while k < 32
        invariant
            k <= 32,
            tree.root@.len() == 32,
            out@ =~= tree.root@.take(k as int),
        decreases 32 - k,
    {
        out.push(tree.root[k]);
        proof {
            assert(out@ =~= tree.root@.take(k as int + 1));
        }
        k += 1;
    }
    proof {
        assert(out@ =~= tree.root@);
    }
    out
}

} // verus!
