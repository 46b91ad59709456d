//! Hashing primitives of the commitment engine.
//!
//! Internal tree nodes are combined with Keccak-256 after sorting the pair of
//! nodes by raw byte value (lexicographic ascending), so that an inclusion
//! proof needs no left/right direction bits. Leaves are derived with SHA-256
//! (see `leaf`); the two hash functions are fixed and are not interchangeable.

use vstd::prelude::*;

verus! {

/// The Keccak-256 digest of a byte sequence, as tiny-keccak computes it.
pub uninterp spec fn keccak_of(data: Seq<u8>) -> Seq<u8>;

/// The SHA-256 digest of a byte sequence, as sha2 computes it.
pub uninterp spec fn sha256_of(data: Seq<u8>) -> Seq<u8>;

/// Relies on tiny-keccak's `Keccak::v256`: the Keccak-256 digest is 32 bytes
/// and a pure function of the absorbed input, here the concatenation of the
/// two nodes.
#[verifier::external_body]
fn keccak256_two(a: &[u8; 32], b: &[u8; 32]) -> (r: [u8; 32])
    ensures
        r@ == keccak_of(a@ + b@),
{
    let mut hasher = tiny_keccak::Keccak::v256();
    let mut output = [0u8; 32];
    tiny_keccak::Hasher::update(&mut hasher, a);
    tiny_keccak::Hasher::update(&mut hasher, b);
    tiny_keccak::Hasher::finalize(hasher, &mut output);
    output
}

/// Relies on sha2's `Sha256`: the SHA-256 digest is 32 bytes and a pure
/// function of the hashed input, here the concatenation of a fixed-size
/// prefix and an arbitrary-length tail.
#[verifier::external_body]
pub(crate) fn sha256_prefixed(prefix: &[u8; 32], data: &[u8]) -> (r: [u8; 32])
    ensures
        r@ == sha256_of(prefix@ + data@),
{
    let mut hasher = <sha2::Sha256 as sha2::Digest>::new();
    sha2::Digest::update(&mut hasher, prefix);
    sha2::Digest::update(&mut hasher, data);
    let out = sha2::Digest::finalize(hasher);
    out.into()
}

/// Lexicographic (byte-wise ascending) order on byte sequences: the sort rule
/// applied to a node pair before hashing.
pub open spec fn lex_le(a: Seq<u8>, b: Seq<u8>) -> bool
    decreases a.len(),
{
    if a.len() == 0 {
        true
    } else if b.len() == 0 {
        false
    } else if a[0] < b[0] {
        true
    } else if a[0] > b[0] {
        false
    } else {
        lex_le(a.drop_first(), b.drop_first())
    }
}

pub proof fn lemma_lex_le_refl(a: Seq<u8>)
    ensures
        lex_le(a, a),
    decreases a.len(),
{
    if a.len() > 0 {
        lemma_lex_le_refl(a.drop_first());
    }
}

pub proof fn lemma_lex_le_total(a: Seq<u8>, b: Seq<u8>)
    ensures
        lex_le(a, b) || lex_le(b, a),
    decreases a.len(),
{
    if a.len() > 0 && b.len() > 0 && a[0] == b[0] {
        lemma_lex_le_total(a.drop_first(), b.drop_first());
    }
}

pub proof fn lemma_lex_le_antisymm(a: Seq<u8>, b: Seq<u8>)
    requires
        lex_le(a, b),
        lex_le(b, a),
    ensures
        a == b,
    decreases a.len(),
{
    if a.len() == 0 {
        assert(b.len() == 0);
        assert(a =~= b);
    } else {
        assert(b.len() > 0);
        assert(a[0] == b[0]);
        lemma_lex_le_antisymm(a.drop_first(), b.drop_first());
        assert forall|j: int| 0 <= j < a.len() implies a[j] == b[j] by {
            if j > 0 {
                assert(a[j] == a.drop_first()[j - 1]);
                assert(b[j] == b.drop_first()[j - 1]);
            }
        }
        assert(a =~= b);
    }
}

/// Where the first difference between two sequences decides their order.
pub proof fn lemma_lex_le_decided_at(a: Seq<u8>, b: Seq<u8>, i: int)
    requires
        0 <= i < a.len(),
        i < b.len(),
        forall|j: int| 0 <= j < i ==> a[j] == b[j],
        a[i] != b[i],
    ensures
        lex_le(a, b) == (a[i] < b[i]),
    decreases i,
{
    if i == 0 {
    } else {
        assert(a.drop_first()[i - 1] == a[i]);
        assert(b.drop_first()[i - 1] == b[i]);
        assert(forall|j: int| 0 <= j < i - 1 ==> a.drop_first()[j] == b.drop_first()[j]);
        lemma_lex_le_decided_at(a.drop_first(), b.drop_first(), i - 1);
    }
}

/// Combines two nodes into their parent: the pair is sorted by raw byte
/// value, then hashed with Keccak-256. Sorting makes the operation
/// commutative, so a verifier never needs to know which side a node fell on.
pub open spec fn hash_pair(a: Seq<u8>, b: Seq<u8>) -> Seq<u8> {
    if lex_le(a, b) {
        keccak_of(a + b)
    } else {
        keccak_of(b + a)
    }
}

/// The sort-before-hash rule makes the parent of a pair independent of the
/// order in which the two nodes are presented.
pub proof fn lemma_hash_pair_comm(a: Seq<u8>, b: Seq<u8>)
    ensures
        hash_pair(a, b) == hash_pair(b, a),
{
    lemma_lex_le_total(a, b);
    if lex_le(a, b) && lex_le(b, a) {
        lemma_lex_le_antisymm(a, b);
    }
}

/// Compares two 32-byte values in the lexicographic order used for node
/// sorting.
pub fn lex_le_bytes32(a: &[u8; 32], b: &[u8; 32]) -> (r: bool)
    ensures
        r == lex_le(a@, b@),
{
    let mut i: usize = 0;
    while i < 32
        invariant
            0 <= i <= 32,
            forall|j: int| 0 <= j < i ==> a@[j] == b@[j],
        decreases 32 - i,
    {
        if a[i] < b[i] {
            proof {
                lemma_lex_le_decided_at(a@, b@, i as int);
            }
            return true;
        }
        if a[i] > b[i] {
            proof {
                lemma_lex_le_decided_at(a@, b@, i as int);
            }
            return false;
        }
        i += 1;
    }
    proof {
        assert(a@ =~= b@);
        lemma_lex_le_refl(a@);
    }
    true
}

/// Byte equality of two 32-byte values.
pub fn bytes32_eq(a: &[u8; 32], b: &[u8; 32]) -> (r: bool)
    ensures
        r == (a@ == b@),
{
    let mut i: usize = 0;
    while i < 32
        invariant
            0 <= i <= 32,
            forall|j: int| 0 <= j < i ==> a@[j] == b@[j],
        decreases 32 - i,
    {
        if a[i] != b[i] {
            proof {
                assert(a@ != b@) by {
                    if a@ == b@ {
                        assert(a@[i as int] == b@[i as int]);
                    }
                }
            }
            return false;
        }
        i += 1;
    }
    proof {
        assert(a@ =~= b@);
    }
    true
}

/// Computes the parent of two nodes with the sort-before-hash rule.
pub fn hash_node_pair(a: &[u8; 32], b: &[u8; 32]) -> (r: [u8; 32])
    ensures
        r@ == hash_pair(a@, b@),
{
    if lex_le_bytes32(a, b) {
        keccak256_two(a, b)
    } else {
        keccak256_two(b, a)
    }
}

} // verus!
