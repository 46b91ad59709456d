//! The Merkle commitment engine: a pure, deterministic binary hash tree over
//! an ordered sequence of 32-byte leaves.
//!
//! Construction pairs adjacent nodes left to right. A level with an odd
//! count carries its last node forward unchanged into the next level — it is
//! never re-hashed against itself. Each pair is sorted by raw byte value
//! before hashing (see `hashes`), so an inclusion proof is just the ordered
//! sequence of sibling digests, with no direction bits.

use vstd::prelude::*;

use crate::hashes::{
    bytes32_eq, hash_node_pair, hash_pair, lemma_hash_pair_comm,
};

verus! {

/// The all-zero 32-byte value: the root of the degenerate empty tree.
pub open spec fn zero32() -> Seq<u8> {
    Seq::new(32, |i: int| 0u8)
}

/// The byte sequences held by a list of 32-byte nodes.
pub open spec fn nodes_view(s: Seq<[u8; 32]>) -> Seq<Seq<u8>> {
    Seq::new(s.len(), |i: int| s[i]@)
}

/// One construction step: adjacent nodes are paired left to right and
/// hashed; the last node of an odd level is carried forward unchanged.
pub open spec fn next_layer(layer: Seq<Seq<u8>>) -> Seq<Seq<u8>> {
    Seq::new(
        ((layer.len() + 1) / 2) as nat,
        |i: int|
            if 2 * i + 1 < layer.len() {
                hash_pair(layer[2 * i], layer[2 * i + 1])
            } else {
                layer[2 * i]
            },
    )
}

/// The root obtained by repeating `next_layer` until one node is left; the
/// empty sequence yields the all-zero root.
pub open spec fn root_from(layer: Seq<Seq<u8>>) -> Seq<u8>
    decreases layer.len(),
{
    if layer.len() == 0 {
        zero32()
    } else if layer.len() == 1 {
        layer[0]
    } else {
        root_from(next_layer(layer))
    }
}

/// Every node of the tree in level order: the given level first, then the
/// levels above it, ending with the root.
pub open spec fn levels_from(layer: Seq<Seq<u8>>) -> Seq<Seq<u8>>
    decreases layer.len(),
{
    if layer.len() <= 1 {
        layer
    } else {
        layer + levels_from(next_layer(layer))
    }
}

/// The position paired with position `i` within its level.
pub open spec fn sibling_index(i: int) -> int {
    if i % 2 == 0 {
        i + 1
    } else {
        i - 1
    }
}

/// The inclusion path for position `i`: at each level the sibling node, if
/// one exists at that position — a carried-forward node has no sibling and
/// contributes nothing.
pub open spec fn path_from(layer: Seq<Seq<u8>>, i: int) -> Seq<Seq<u8>>
    decreases layer.len(),
{
    if layer.len() <= 1 {
        Seq::empty()
    } else {
        let rest = path_from(next_layer(layer), i / 2);
        if sibling_index(i) < layer.len() {
            seq![layer[sibling_index(i)]] + rest
        } else {
            rest
        }
    }
}

/// Folds a node through an inclusion path with the same sort-before-hash
/// rule as construction.
pub open spec fn fold_path(node: Seq<u8>, path: Seq<Seq<u8>>) -> Seq<u8>
    decreases path.len(),
{
    if path.len() == 0 {
        node
    } else {
        fold_path(hash_pair(node, path[0]), path.drop_first())
    }
}

/// Round-trip: folding any node of a level through the path generated for
/// its position yields that level's root.
pub proof fn lemma_fold_path_root(layer: Seq<Seq<u8>>, i: int)
    requires
        0 <= i < layer.len(),
    ensures
        fold_path(layer[i], path_from(layer, i)) == root_from(layer),
    decreases layer.len(),
{
    if layer.len() == 1 {
        assert(path_from(layer, i) =~= Seq::<Seq<u8>>::empty());
    } else {
        let next = next_layer(layer);
        let s = sibling_index(i);
        let rest = path_from(next, i / 2);
        assert(i == 2 * (i / 2) + i % 2);
        assert(0 <= i / 2 < next.len());
        if s < layer.len() {
            let first = seq![layer[s]] + rest;
            assert(first[0] == layer[s]);
            assert(first.drop_first() =~= rest);
            if i % 2 == 0 {
                assert(s == i + 1);
                assert(next[i / 2] == hash_pair(layer[i], layer[i + 1]));
            } else {
                assert(s == i - 1);
                assert(next[i / 2] == hash_pair(layer[i - 1], layer[i]));
                lemma_hash_pair_comm(layer[i], layer[i - 1]);
            }
            assert(hash_pair(layer[i], layer[s]) == next[i / 2]);
            lemma_fold_path_root(next, i / 2);
            assert(fold_path(layer[i], path_from(layer, i))
                == fold_path(next[i / 2], rest));
        } else {
            assert(i % 2 == 0);
            assert(2 * (i / 2) + 1 >= layer.len());
            assert(next[i / 2] == layer[i]);
            lemma_fold_path_root(next, i / 2);
        }
    }
}

/// Position of the first occurrence of `leaf` in `leaves`, or -1 when it
/// does not occur.
pub open spec fn leaf_index(leaves: Seq<Seq<u8>>, leaf: Seq<u8>) -> int
    decreases leaves.len(),
{
    if leaves.len() == 0 {
        -1
    } else if leaves[0] == leaf {
        0
    } else {
        let r = leaf_index(leaves.drop_first(), leaf);
        if r == -1 {
            -1
        } else {
            r + 1
        }
    }
}

pub proof fn lemma_leaf_index_absent(leaves: Seq<Seq<u8>>, leaf: Seq<u8>)
    requires
        forall|j: int| 0 <= j < leaves.len() ==> leaves[j] != leaf,
    ensures
        leaf_index(leaves, leaf) == -1,
    decreases leaves.len(),
{
    if leaves.len() > 0 {
        assert(forall|j: int|
            0 <= j < leaves.drop_first().len() ==> leaves.drop_first()[j] == leaves[j + 1]);
        lemma_leaf_index_absent(leaves.drop_first(), leaf);
    }
}

pub proof fn lemma_leaf_index_found(leaves: Seq<Seq<u8>>, leaf: Seq<u8>)
    requires
        leaf_index(leaves, leaf) >= 0,
    ensures
        leaf_index(leaves, leaf) < leaves.len(),
        leaves[leaf_index(leaves, leaf)] == leaf,
    decreases leaves.len(),
{
    if leaves.len() > 0 && leaves[0] != leaf {
        lemma_leaf_index_found(leaves.drop_first(), leaf);
        assert(leaves.drop_first()[leaf_index(leaves.drop_first(), leaf)]
            == leaves[leaf_index(leaves.drop_first(), leaf) + 1]);
    }
}

pub proof fn lemma_leaf_index_first(leaves: Seq<Seq<u8>>, leaf: Seq<u8>, i: int)
    requires
        0 <= i < leaves.len(),
        leaves[i] == leaf,
        forall|j: int| 0 <= j < i ==> leaves[j] != leaf,
    ensures
        leaf_index(leaves, leaf) == i,
    decreases i,
{
    if i > 0 {
        assert(leaves.drop_first()[i - 1] == leaves[i]);
        assert(forall|j: int|
            0 <= j < i - 1 ==> leaves.drop_first()[j] == leaves[j + 1]);
        lemma_leaf_index_first(leaves.drop_first(), leaf, i - 1);
    }
}

/// An inclusion proof: the ordered sibling digests for one leaf.
pub struct MerkleProof {
    pub siblings: Vec<[u8; 32]>,
}

/// A commitment tree over an ordered list of 32-byte leaves. `tree` holds
/// every node in level order (leaves first, root last); `root` is the single
/// node of the topmost level, or all zeroes for the empty tree.
pub struct MerkleTree {
    pub leaves: Vec<[u8; 32]>,
    pub tree: Vec<[u8; 32]>,
    pub root: [u8; 32],
}

impl MerkleTree {
    /// The node list and root are exactly what construction over `leaves`
    /// yields.
    pub open spec fn wf(self) -> bool {
        &&& nodes_view(self.tree@) == levels_from(nodes_view(self.leaves@))
        &&& self.root@ == root_from(nodes_view(self.leaves@))
    }

    /// Builds the commitment tree over the given ordered leaves. A pure
    /// function of the leaf sequence: same leaves, same tree.
    pub fn new(leaves: Vec<[u8; 32]>) -> (r: MerkleTree)
        ensures
            r.wf(),
            r.leaves@ == leaves@,
    {
        let ghost leaves_v = nodes_view(leaves@);
        if leaves.len() == 0 {
            let root = [0u8; 32];
            let tree: Vec<[u8; 32]> = Vec::new();
            proof {
                assert(root@ =~= zero32());
                assert(nodes_view(leaves@) =~= Seq::<Seq<u8>>::empty());
                assert(nodes_view(tree@) =~= Seq::<Seq<u8>>::empty());
                assert(levels_from(nodes_view(leaves@)) == nodes_view(leaves@));
            }
            return MerkleTree { leaves, tree, root };
        }
        let mut tree: Vec<[u8; 32]> = Vec::new();
        let mut current: Vec<[u8; 32]> = Vec::new();
        let mut k: usize = 0;
        while k < leaves.len()
            invariant
                k <= leaves.len(),
                current@.len() == k,
                forall|j: int| 0 <= j < k ==> current@[j] == leaves@[j],
            decreases leaves.len() - k,
        {
            current.push(leaves[k]);
            k += 1;
        }
        assert(current@ =~= leaves@);
        while current.len() > 1
            invariant
                current@.len() >= 1,
                levels_from(leaves_v) =~= nodes_view(tree@) + levels_from(nodes_view(current@)),
                root_from(leaves_v) == root_from(nodes_view(current@)),
            decreases current@.len(),
        {
            let ghost cur_v = nodes_view(current@);
            let mut next: Vec<[u8; 32]> = Vec::new();
            let mut i: usize = 0;
            while i < current.len()
                invariant
                    current@.len() >= 2,
                    cur_v == nodes_view(current@),
                    i <= current@.len(),
                    i % 2 == 0 || i == current@.len(),
                    next@.len() == (i + 1) / 2,
                    forall|j: int| 0 <= j < next@.len() ==> next@[j]@ == next_layer(cur_v)[j],
                decreases current@.len() - i,
            {
                if i + 1 < current.len() {
                    let h = hash_node_pair(&current[i], &current[i + 1]);
                    proof {
                        assert(next@.len() == i as int / 2);
                        assert(2 * (i as int / 2) == i as int);
                        assert(next_layer(cur_v)[i as int / 2] == hash_pair(cur_v[i as int], cur_v[i + 1]));
                    }
                    next.push(h);
                    i += 2;
                } else {
                    let h = current[i];
                    proof {
                        assert(i % 2 == 0);
                        assert(next@.len() == i as int / 2);
                        assert(2 * (i as int / 2) == i as int);
                        assert(2 * (i as int / 2) + 1 >= cur_v.len());
                        assert(next_layer(cur_v)[i as int / 2] == cur_v[i as int]);
                    }
                    next.push(h);
                    i = current.len();
                    proof {
                        assert(next@.len() == (i + 1) / 2);
                    }
                }
            }
            assert(nodes_view(next@) =~= next_layer(cur_v));
            proof {
                assert(levels_from(cur_v) == cur_v + levels_from(next_layer(cur_v)));
            }
            let ghost old_tree = tree@;
            tree.append(&mut current);
            proof {
                assert(nodes_view(tree@) =~= nodes_view(old_tree) + cur_v);
                assert(nodes_view(tree@) + levels_from(nodes_view(next@))
                    =~= nodes_view(old_tree) + levels_from(cur_v));
            }
            current = next;
        }
        let ghost cur_v = nodes_view(current@);
        let root = current[0];
        proof {
            assert(root_from(cur_v) == cur_v[0]);
            assert(levels_from(cur_v) == cur_v);
        }
        let ghost old_tree = tree@;
        tree.append(&mut current);
        proof {
            assert(nodes_view(tree@) =~= nodes_view(old_tree) + cur_v);
            assert(nodes_view(tree@) =~= levels_from(leaves_v));
        }
        MerkleTree { leaves, tree, root }
    }

    /// Walks from a leaf position up to the root, collecting the sibling at
    /// each level where one exists.
    fn build_path(&self, index: usize) -> (p: Vec<[u8; 32]>)
        requires
            self.wf(),
            index < self.leaves@.len(),
        ensures
            nodes_view(p@) == path_from(nodes_view(self.leaves@), index as int),
    {
        let ghost leaves_v = nodes_view(self.leaves@);
        let ghost nodes = nodes_view(self.tree@);
        let mut siblings: Vec<[u8; 32]> = Vec::new();
        let mut current_index: usize = index;
        let mut level_start: usize = 0;
        let mut level_size: usize = self.leaves.len();
        let ghost mut layer = leaves_v;
        proof {
            assert(nodes.skip(0) =~= nodes);
            assert(self.tree@.len() == self.tree.len());
        }
        while level_size > 1
            invariant
                self.tree@.len() <= usize::MAX,
                self.wf(),
                nodes == nodes_view(self.tree@),
                leaves_v == nodes_view(self.leaves@),
                layer.len() == level_size,
                current_index < level_size,
                level_start + level_size <= self.tree@.len(),
                levels_from(layer) == nodes.skip(level_start as int),
                path_from(leaves_v, index as int) =~= nodes_view(siblings@)
                    + path_from(layer, current_index as int),
            decreases level_size,
        {
            let ghost old_sibs = nodes_view(siblings@);
            let pair_index = if current_index % 2 == 0 {
                current_index + 1
            } else {
                current_index - 1
            };
            proof {
                assert(pair_index == sibling_index(current_index as int));
                assert(levels_from(layer) == layer + levels_from(next_layer(layer)));
            }
            if pair_index < level_size {
                proof {
                    assert(nodes[level_start + pair_index]
                        == nodes.skip(level_start as int)[pair_index as int]);
                    assert(nodes.skip(level_start as int)[pair_index as int]
                        == layer[pair_index as int]);
                }
                siblings.push(self.tree[level_start + pair_index]);
                proof {
                    assert(nodes_view(siblings@) =~= old_sibs + seq![layer[pair_index as int]]);
                }
            }
            proof {
                lemma_levels_len(next_layer(layer));
                assert(nodes.skip(level_start as int).skip(layer.len() as int)
                    =~= nodes.skip(level_start + layer.len()));
                assert(levels_from(next_layer(layer))
                    == nodes.skip(level_start + level_size));
                assert(path_from(layer, current_index as int)
                    == if sibling_index(current_index as int) < layer.len() {
                        seq![layer[sibling_index(current_index as int)]]
                            + path_from(next_layer(layer), current_index as int / 2)
                    } else {
                        path_from(next_layer(layer), current_index as int / 2)
                    });
                if pair_index < level_size {
                    assert((old_sibs + seq![layer[pair_index as int]])
                        + path_from(next_layer(layer), current_index as int / 2)
                        =~= old_sibs + (seq![layer[pair_index as int]]
                            + path_from(next_layer(layer), current_index as int / 2)));
                }
                assert(2 * (current_index as int / 2) + current_index as int % 2
                    == current_index as int);
            }
            current_index = current_index / 2;
            level_start = level_start + level_size;
            level_size = level_size - level_size / 2;
            proof {
                layer = next_layer(layer);
                assert(level_size == layer.len());
                assert(current_index < level_size);
                lemma_levels_len(layer);
                assert(level_start + level_size <= self.tree@.len());
            }
        }
        proof {
            assert(path_from(layer, current_index as int) =~= Seq::<Seq<u8>>::empty());
            assert(nodes_view(siblings@)
                =~= path_from(leaves_v, index as int));
        }
        siblings
    }

    /// Generates the inclusion proof for `leaf`: the ordered sibling digests
    /// for its first occurrence in the leaf sequence, or `None` when the
    /// leaf is not part of the tree.
    pub fn generate_proof(&self, leaf: [u8; 32]) -> (r: Option<Vec<[u8; 32]>>)
        requires
            self.wf(),
        ensures
            match r {
                Some(p) => {
                    &&& 0 <= leaf_index(nodes_view(self.leaves@), leaf@)
                        < self.leaves@.len()
                    &&& nodes_view(p@) == path_from(
                        nodes_view(self.leaves@),
                        leaf_index(nodes_view(self.leaves@), leaf@),
                    )
                },
                None => leaf_index(nodes_view(self.leaves@), leaf@) == -1,
            },
    {
        let ghost leaves_v = nodes_view(self.leaves@);
        let n = self.leaves.len();
        let mut i: usize = 0;
        while i < n
            invariant
                self.wf(),
                n == self.leaves@.len(),
                leaves_v == nodes_view(self.leaves@),
                i <= n,
                forall|j: int| 0 <= j < i ==> leaves_v[j] != leaf@,
            decreases n - i,
        {
            if bytes32_eq(&self.leaves[i], &leaf) {
                proof {
                    lemma_leaf_index_first(leaves_v, leaf@, i as int);
                }
                return Some(self.build_path(i));
            }
            i += 1;
        }
        proof {
            lemma_leaf_index_absent(leaves_v, leaf@);
        }
        None
    }

    /// Folds `leaf` through the given sibling sequence with the same
    /// sort-before-hash rule as construction and compares the result with
    /// this tree's root. Self-contained: only the root is consulted, so a
    /// proof is portable to any verifier that knows the root.
    pub fn verify_proof(&self, siblings: Vec<[u8; 32]>, leaf: [u8; 32]) -> (r: bool)
        ensures
            r == (fold_path(leaf@, nodes_view(siblings@)) == self.root@),
    {
        let ghost sibs_v = nodes_view(siblings@);
        let mut current: [u8; 32] = leaf;
        let mut i: usize = 0;
        proof {
            assert(sibs_v.skip(0) =~= sibs_v);
        }
        while i < siblings.len()
            invariant
                sibs_v == nodes_view(siblings@),
                i <= siblings@.len(),
                fold_path(leaf@, sibs_v) == fold_path(current@, sibs_v.skip(i as int)),
            decreases siblings@.len() - i,
        {
            let ghost rest = sibs_v.skip(i as int);
            proof {
                assert(rest[0] == sibs_v[i as int]);
                assert(rest.drop_first() =~= sibs_v.skip(i as int + 1));
            }
            current = hash_node_pair(&current, &siblings[i]);
            i += 1;
        }
        proof {
            assert(sibs_v.skip(i as int) =~= Seq::<Seq<u8>>::empty());
        }
        bytes32_eq(&current, &self.root)
    }
}

/// Every level list contains at least the level it starts from.
pub proof fn lemma_levels_len(layer: Seq<Seq<u8>>)
    ensures
        levels_from(layer).len() >= layer.len(),
    decreases layer.len(),
{
    if layer.len() > 1 {
        lemma_levels_len(next_layer(layer));
    }
}

/// Round-trip: for every leaf of a well-formed tree, the path generated at
/// its position folds back to the tree's root.
pub proof fn lemma_round_trip(t: MerkleTree, i: int)
    requires
        t.wf(),
        0 <= i < t.leaves@.len(),
    ensures
        fold_path(
            nodes_view(t.leaves@)[i],
            path_from(nodes_view(t.leaves@), i),
        ) == t.root@,
{
    lemma_fold_path_root(nodes_view(t.leaves@), i);
}

/// Round-trip through the tree API: the sibling sequence `generate_proof`
/// returns for a stored leaf folds back to the tree's root, which is
/// exactly the test `verify_proof` applies — so a generated proof always
/// verifies against its own tree.
pub proof fn lemma_generate_then_verify(t: MerkleTree, leaf: Seq<u8>, siblings: Seq<Seq<u8>>)
    requires
        t.wf(),
        leaf_index(nodes_view(t.leaves@), leaf) >= 0,
        siblings == path_from(nodes_view(t.leaves@), leaf_index(nodes_view(t.leaves@), leaf)),
    ensures
        fold_path(leaf, siblings) == t.root@,
{
    lemma_leaf_index_found(nodes_view(t.leaves@), leaf);
    lemma_fold_path_root(nodes_view(t.leaves@), leaf_index(nodes_view(t.leaves@), leaf));
}

/// Determinism: two well-formed trees over the same ordered leaf bytes have
/// the same root, the same node list, and generate the same path for every
/// position.
pub proof fn lemma_build_deterministic(t1: MerkleTree, t2: MerkleTree)
    requires
        t1.wf(),
        t2.wf(),
        nodes_view(t1.leaves@) == nodes_view(t2.leaves@),
    ensures
        t1.root@ == t2.root@,
        nodes_view(t1.tree@) == nodes_view(t2.tree@),
        forall|i: int|
            path_from(nodes_view(t1.leaves@), i) == path_from(nodes_view(t2.leaves@), i),
{
}

/// Degenerate cases: the empty leaf sequence yields the all-zero root, and a
/// single leaf is its own root with an empty inclusion path.
pub proof fn lemma_degenerate_roots(l: Seq<u8>)
    ensures
        root_from(Seq::<Seq<u8>>::empty()) == zero32(),
        root_from(seq![l]) == l,
        path_from(seq![l], 0) == Seq::<Seq<u8>>::empty(),
{
}

/// Order independence within a pair: because siblings are sorted by byte
/// value before hashing, the two orderings of a two-leaf tree commit to the
/// same root, and a proof folds identically whichever side its leaf fell on.
pub proof fn lemma_pair_order_independent(a: Seq<u8>, b: Seq<u8>)
    ensures
        root_from(seq![a, b]) == root_from(seq![b, a]),
        fold_path(a, seq![b]) == fold_path(b, seq![a]),
{
    lemma_hash_pair_comm(a, b);
    assert(next_layer(seq![a, b]) =~= seq![hash_pair(a, b)]);
    assert(next_layer(seq![b, a]) =~= seq![hash_pair(b, a)]);
    assert(seq![b].drop_first() =~= Seq::<Seq<u8>>::empty());
    assert(seq![a].drop_first() =~= Seq::<Seq<u8>>::empty());
}

/// The flat serialization of a node list: the concatenation of its 32-byte
/// nodes in order.
pub open spec fn concat_nodes(s: Seq<Seq<u8>>) -> Seq<u8>
    decreases s.len(),
{
    if s.len() == 0 {
        Seq::empty()
    } else {
        s[0] + concat_nodes(s.drop_first())
    }
}

pub proof fn lemma_concat_nodes_len(s: Seq<Seq<u8>>)
    requires
        forall|i: int| 0 <= i < s.len() ==> #[trigger] s[i].len() == 32,
    ensures
        concat_nodes(s).len() == 32 * s.len(),
    decreases s.len(),
{
    if s.len() > 0 {
        assert(forall|i: int|
            0 <= i < s.drop_first().len() ==> #[trigger] s.drop_first()[i].len() == 32);
        lemma_concat_nodes_len(s.drop_first());
    }
}

pub proof fn lemma_concat_nodes_push(s: Seq<Seq<u8>>, x: Seq<u8>)
    ensures
        concat_nodes(s.push(x)) == concat_nodes(s) + x,
    decreases s.len(),
{
    if s.len() == 0 {
        assert(s.push(x)[0] == x);
        assert(s.push(x).drop_first() =~= Seq::<Seq<u8>>::empty());
        assert(concat_nodes(Seq::<Seq<u8>>::empty()) == Seq::<u8>::empty());
        assert(concat_nodes(s) == Seq::<u8>::empty());
        assert(x + Seq::<u8>::empty() =~= Seq::<u8>::empty() + x);
    } else {
        assert(s.push(x)[0] == s[0]);
        assert(s.push(x).drop_first() =~= s.drop_first().push(x));
        lemma_concat_nodes_push(s.drop_first(), x);
        assert(s[0] + (concat_nodes(s.drop_first()) + x)
            =~= (s[0] + concat_nodes(s.drop_first())) + x);
    }
}

/// Splitting a byte sequence into consecutive 32-byte nodes; bytes short of
/// a full node are not represented, so this is meaningful only for lengths
/// that are a multiple of 32.
pub open spec fn chunks32(b: Seq<u8>) -> Seq<Seq<u8>>
    decreases b.len(),
{
    if b.len() < 32 {
        Seq::empty()
    } else {
        seq![b.subrange(0, 32)] + chunks32(b.skip(32))
    }
}

/// Storage round-trip: re-splitting the flat serialization of 32-byte nodes
/// reproduces the node list exactly, so a stored tree rebuilds to an
/// identical root.
pub proof fn lemma_chunks_of_concat(s: Seq<Seq<u8>>)
    requires
        forall|i: int| 0 <= i < s.len() ==> #[trigger] s[i].len() == 32,
    ensures
        chunks32(concat_nodes(s)) == s,
    decreases s.len(),
{
    if s.len() == 0 {
        assert(chunks32(concat_nodes(s)) =~= s);
    } else {
        let c = concat_nodes(s);
        assert(forall|i: int|
            0 <= i < s.drop_first().len() ==> #[trigger] s.drop_first()[i].len() == 32);
        lemma_concat_nodes_len(s.drop_first());
        assert(c.len() == 32 + concat_nodes(s.drop_first()).len());
        assert(c.subrange(0, 32) =~= s[0]);
        assert(c.skip(32) =~= concat_nodes(s.drop_first()));
        lemma_chunks_of_concat(s.drop_first());
        assert(chunks32(c) =~= s);
    }
}

pub proof fn lemma_chunks32_props(b: Seq<u8>)
    requires
        b.len() % 32 == 0,
    ensures
        chunks32(b).len() == b.len() / 32,
        forall|j: int|
            0 <= j < chunks32(b).len()
                ==> #[trigger] chunks32(b)[j] == b.subrange(32 * j, 32 * j + 32),
    decreases b.len(),
{
    if b.len() >= 32 {
        let rest = b.skip(32);
        assert(rest.len() % 32 == 0);
        lemma_chunks32_props(rest);
        assert forall|j: int| 0 <= j < chunks32(b).len() implies #[trigger] chunks32(b)[j]
            == b.subrange(32 * j, 32 * j + 32) by {
            if j > 0 {
                assert(chunks32(b)[j] == chunks32(rest)[j - 1]);
                assert(chunks32(rest)[j - 1] == rest.subrange(32 * (j - 1), 32 * (j - 1) + 32));
                assert(rest.subrange(32 * (j - 1), 32 * (j - 1) + 32)
                    =~= b.subrange(32 * j, 32 * j + 32));
            }
        }
    }
}

/// Serializes a node list as the flat concatenation of its 32-byte nodes.
pub fn flatten_nodes(nodes: &Vec<[u8; 32]>) -> (r: Vec<u8>)
    ensures
        r@ == concat_nodes(nodes_view(nodes@)),
{
    let ghost nv = nodes_view(nodes@);
    let mut out: Vec<u8> = Vec::new();
    let mut i: usize = 0;
    proof {
        assert(nv.take(0) =~= Seq::<Seq<u8>>::empty());
        assert(out@ =~= concat_nodes(nv.take(0)));
    }
    while i < nodes.len()
        invariant
            nv == nodes_view(nodes@),
            i <= nodes@.len(),
            out@ == concat_nodes(nv.take(i as int)),
        decreases nodes@.len() - i,
    {
        let ghost before = out@;
        let mut j: usize = 0;
        while j < 32
            invariant
                j <= 32,
                0 <= i < nodes@.len(),
                nv == nodes_view(nodes@),
                out@ == before + nodes@[i as int]@.take(j as int),
            decreases 32 - j,
        {
            out.push(nodes[i][j]);
            proof {
                assert(out@ =~= before + nodes@[i as int]@.take(j as int + 1));
            }
            j += 1;
        }
        proof {
            assert(nodes@[i as int]@.take(32) =~= nodes@[i as int]@);
            lemma_concat_nodes_push(nv.take(i as int), nv[i as int]);
            assert(nv.take(i as int).push(nv[i as int]) =~= nv.take(i as int + 1));
        }
        i += 1;
    }
    proof {
        assert(nv.take(nodes@.len() as int) =~= nv);
    }
    out
}

/// Splits a flat serialization back into 32-byte nodes; a byte string whose
/// length is not a multiple of 32 cannot hold whole nodes and is rejected.
pub fn split_nodes(bytes: &Vec<u8>) -> (r: Option<Vec<[u8; 32]>>)
    ensures
        match r {
            Some(v) => {
                &&& bytes@.len() % 32 == 0
                &&& nodes_view(v@) == chunks32(bytes@)
            },
            None => bytes@.len() % 32 != 0,
        },
{
    if bytes.len() % 32 != 0 {
        return None;
    }
    proof {
        lemma_chunks32_props(bytes@);
    }
    let count = bytes.len() / 32;
    let mut out: Vec<[u8; 32]> = Vec::new();
    let mut i: usize = 0;
    proof {
        assert(bytes@.len() == bytes.len());
    }
    while i < count
        invariant
            bytes@.len() <= usize::MAX,
            bytes@.len() % 32 == 0,
            count == bytes@.len() / 32,
            count * 32 == bytes@.len(),
            i <= count,
            out@.len() == i,
            forall|j: int|
                0 <= j < i ==> #[trigger] out@[j]@ == bytes@.subrange(32 * j, 32 * j + 32),
        decreases count - i,
    {
        let mut node = [0u8; 32];
        let mut j: usize = 0;
        proof {
            assert(32 * (i as int) + 32 <= 32 * (count as int)) by (nonlinear_arith)
                requires i < count;
        }
        while j < 32
            invariant
                i < count,
                bytes@.len() <= usize::MAX,
                count * 32 == bytes@.len(),
                32 * (i as int) + 32 <= bytes@.len(),
                j <= 32,
                node@.len() == 32,
                forall|k: int| 0 <= k < j ==> #[trigger] node@[k] == bytes@[32 * (i as int) + k],
            decreases 32 - j,
        {
            proof {
                assert(32 * (i as int) + (j as int) < bytes@.len());
            }
            node[j] = bytes[32 * i + j];
            j += 1;
        }
        proof {
            assert(node@ =~= bytes@.subrange(32 * (i as int), 32 * (i as int) + 32));
        }
        out.push(node);
        i += 1;
    }
    proof {
        assert(nodes_view(out@) =~= chunks32(bytes@));
    }
    Some(out)
}

} // verus!
