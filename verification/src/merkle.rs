//! A binary Merkle tree over digests, and inclusion proofs that carry the root they
//! claim.

use crate::field::is_power_of_two;
use crate::hash::byte_strings;
use crate::hash::copy_bytes;
use crate::hash::hash_nodes;
use crate::hash::node_digest;
use crate::hash::same_bytes;
use vstd::prelude::*;

verus! {

/// The digest at position `i` of the tree over `leaves`. The root is at 1, the
/// children of `i` are at `2i` and `2i + 1`, and leaf `j` is at `leaves.len() + j`.
pub open spec fn merkle_node(leaves: Seq<Seq<u8>>, i: nat) -> Seq<u8>
    decreases 2 * leaves.len() - i,
{
    if 0 < i < leaves.len() {
        node_digest(merkle_node(leaves, 2 * i), merkle_node(leaves, 2 * i + 1))
    } else if leaves.len() <= i < 2 * leaves.len() {
        leaves[i - leaves.len()]
    } else {
        Seq::empty()
    }
}

/// The root of the tree over `leaves`.
pub open spec fn merkle_root(leaves: Seq<Seq<u8>>) -> Seq<u8> {
    merkle_node(leaves, 1)
}

/// The position beside `i` under the same parent.
pub open spec fn sibling(i: nat) -> nat {
    if i % 2 == 0 {
        i + 1
    } else {
        (i - 1) as nat
    }
}

/// The digests beside the way from position `i` up to the root, lowest first.
pub open spec fn merkle_path(leaves: Seq<Seq<u8>>, i: nat) -> Seq<Seq<u8>>
    decreases i,
{
    if i <= 1 {
        Seq::empty()
    } else {
        seq![merkle_node(leaves, sibling(i))] + merkle_path(leaves, i / 2)
    }
}

/// Whether the siblings lead from the digest `current` at `index`, in a level of
/// `width` positions, to `root`.
pub open spec fn authenticates(
    root: Seq<u8>,
    current: Seq<u8>,
    index: nat,
    width: nat,
    siblings: Seq<Seq<u8>>,
) -> bool
    decreases siblings.len(),
{
    if siblings.len() == 0 {
        width == 1 && index == 0 && current == root
    } else {
        let parent = if index % 2 == 0 {
            node_digest(current, siblings[0])
        } else {
            node_digest(siblings[0], current)
        };
        width % 2 == 0 && authenticates(root, parent, index / 2, width / 2, siblings.drop_first())
    }
}

/// What an inclusion proof holds.
pub struct MerkleProofModel {
    pub root: Seq<u8>,
    pub leaf: Seq<u8>,
    pub siblings: Seq<Seq<u8>>,
}

/// The inclusion proof for leaf `index` of the tree over `leaves`.
pub open spec fn merkle_proof(leaves: Seq<Seq<u8>>, index: nat) -> MerkleProofModel {
    MerkleProofModel {
        root: merkle_root(leaves),
        leaf: leaves[index as int],
        siblings: merkle_path(leaves, leaves.len() + index),
    }
}

/// The path of a position authenticates the digest at that position: from
/// position `width + index` of a tree, the siblings lead to the root.
pub proof fn lemma_path_authenticates(leaves: Seq<Seq<u8>>, width: nat, index: nat)
    requires
        is_power_of_two(width),
        width <= leaves.len(),
        index < width,
    ensures
        authenticates(
            merkle_root(leaves),
            merkle_node(leaves, width + index),
            index,
            width,
            merkle_path(leaves, width + index),
        ),
    decreases width,
{
    let at = width + index;
    if width == 1 {
        assert(merkle_path(leaves, at).len() == 0);
    } else {
        let path = merkle_path(leaves, at);
        let up = at / 2;
        assert(path.drop_first() =~= merkle_path(leaves, up));
        assert(path[0] == merkle_node(leaves, sibling(at)));
        assert(up == width / 2 + index / 2);
        assert(0 < up < leaves.len());
        assert(merkle_node(leaves, up) == node_digest(
            merkle_node(leaves, 2 * up),
            merkle_node(leaves, 2 * up + 1),
        ));
        lemma_path_authenticates(leaves, width / 2, index / 2);
    }
}

/// The inclusion proof of a leaf of a tree authenticates that leaf under the
/// tree's root.
pub proof fn lemma_proof_authenticates(leaves: Seq<Seq<u8>>, index: nat)
    requires
        is_power_of_two(leaves.len()),
        index < leaves.len(),
    ensures
        ({
            let p = merkle_proof(leaves, index);
            authenticates(p.root, p.leaf, index, leaves.len(), p.siblings)
        }),
{
    lemma_path_authenticates(leaves, leaves.len(), index);
}

/// An inclusion proof: the root it claims, the leaf, and the siblings on the way up.
#[derive(Clone, Debug)]
pub struct MerkleProof {
    root: Vec<u8>,
    leaf: Vec<u8>,
    siblings: Vec<Vec<u8>>,
}

impl View for MerkleProof {
    type V = MerkleProofModel;

    closed spec fn view(&self) -> MerkleProofModel {
        MerkleProofModel {
            root: self.root@,
            leaf: self.leaf@,
            siblings: byte_strings(self.siblings@),
        }
    }
}

impl MerkleProof {
    pub fn new(root: Vec<u8>, leaf: Vec<u8>, siblings: Vec<Vec<u8>>) -> (proof: MerkleProof)
        ensures
            proof@.root == root@,
            proof@.leaf == leaf@,
            proof@.siblings == byte_strings(siblings@),
    {
        MerkleProof { root, leaf, siblings }
    }

    /// The root that the proof claims.
    pub fn root(&self) -> (root: &Vec<u8>)
        ensures
            root@ == self@.root,
    {
        &self.root
    }

    /// The leaf that the proof is for.
    pub fn leaf(&self) -> (leaf: &Vec<u8>)
        ensures
            leaf@ == self@.leaf,
    {
        &self.leaf
    }

    /// The siblings on the way from the leaf to the root, lowest first.
    pub fn siblings(&self) -> (siblings: &Vec<Vec<u8>>)
        ensures
            byte_strings(siblings@) == self@.siblings,
    {
        &self.siblings
    }

    /// Whether the proof leads from its leaf, as leaf `index` of a tree of
    /// `leaf_count` leaves, to the root it claims.
    pub fn verify(&self, index: usize, leaf_count: usize) -> (ok: bool)
        ensures
            ok == authenticates(
                self@.root,
                self@.leaf,
                index as nat,
                leaf_count as nat,
                self@.siblings,
            ),
    {
        let mut current = copy_bytes(&self.leaf);
        let mut at: usize = index;
        let mut width: usize = leaf_count;
        let mut level: usize = 0;
        let ghost all = byte_strings(self.siblings@);
        proof {
            assert(all.skip(0) =~= all);
        }
        while level < self.siblings.len()
            invariant
                level <= self.siblings.len(),
                all == byte_strings(self.siblings@),
                authenticates(self.root@, self.leaf@, index as nat, leaf_count as nat, all)
                    == authenticates(
                    self.root@,
                    current@,
                    at as nat,
                    width as nat,
                    all.skip(level as int),
                ),
            decreases self.siblings.len() - level,
        {
            let ghost rest = all.skip(level as int);
            proof {
                assert(rest[0] == self.siblings@[level as int]@);
                assert(rest.drop_first() =~= all.skip(level + 1));
            }
            if width % 2 != 0 {
                return false;
            }
            current =
            if at % 2 == 0 {
                hash_nodes(&current, &self.siblings[level])
            } else {
                hash_nodes(&self.siblings[level], &current)
            };
            at = at / 2;
            width = width / 2;
            level = level + 1;
        }
        proof {
            assert(all.skip(level as int).len() == 0);
        }
        width == 1 && at == 0 && same_bytes(&current, &self.root)
    }
}

/// Whether `n` is a power of two.
pub fn power_of_two(n: usize) -> (r: bool)
    ensures
        r == is_power_of_two(n as nat),
{
    if n == 0 {
        return false;
    }
    let mut m: usize = n;
    while m % 2 == 0
        invariant
            m >= 1,
            is_power_of_two(m as nat) == is_power_of_two(n as nat),
        decreases m,
    {
        m = m / 2;
    }
    m == 1
}

/// A Merkle tree over a power-of-two number of leaf digests.
#[derive(Debug)]
pub struct MerkleTree {
    nodes: Vec<Vec<u8>>,
    leaf_count: usize,
}

impl View for MerkleTree {
    type V = Seq<Seq<u8>>;

    /// The leaf digests.
    closed spec fn view(&self) -> Seq<Seq<u8>> {
        leaves_of(self.nodes@, self.leaf_count as nat)
    }
}

/// The last `n` of the digests.
spec fn leaves_of(nodes: Seq<Vec<u8>>, n: nat) -> Seq<Seq<u8>> {
    Seq::new(n, |j: int| nodes[n + j]@)
}

impl MerkleTree {
    /// What holds of every tree: the leaves are a power of two in number, and every
    /// position holds the digest that the leaves give it.
    #[verifier::type_invariant]
    pub closed spec fn well_formed(self) -> bool {
        &&& is_power_of_two(self.leaf_count as nat)
        &&& self.nodes.len() == 2 * self.leaf_count
        &&& forall|i: int|
            1 <= i < self.nodes.len() ==> (#[trigger] self.nodes@[i])@ == merkle_node(self@, i as nat)
    }

    /// The tree over the given leaf digests, if they are a power of two in number
    /// (one leaf is a tree), and twice that number is a `usize`.
    pub fn new(leaves: Vec<Vec<u8>>) -> (tree: Option<MerkleTree>)
        ensures
            tree.is_some() <==> is_power_of_two(leaves.len() as nat) && 2 * leaves.len()
                <= usize::MAX,
            tree.is_some() ==> tree.unwrap()@ == byte_strings(leaves@),
    {
        let n = leaves.len();
        if !power_of_two(n) || n > usize::MAX / 2 {
            return None;
        }
        let ghost model = byte_strings(leaves@);
        let mut nodes: Vec<Vec<u8>> = Vec::new();
        let mut i: usize = 0;
        while i < n
            invariant
                i <= n,
                nodes.len() == i,
            decreases n - i,
        {
            nodes.push(Vec::new());
            i = i + 1;
        }
        let mut j: usize = 0;
        while j < n
            invariant
                j <= n,
                n == leaves.len(),
                nodes.len() == n + j,
                forall|t: int| 0 <= t < j ==> (#[trigger] nodes@[n + t])@ == leaves@[t]@,
            decreases n - j,
        {
            nodes.push(copy_bytes(&leaves[j]));
            j = j + 1;
        }
        let mut at: usize = n;
        proof {
            assert forall|t: int| n <= t < 2 * n implies (#[trigger] nodes@[t])@ == merkle_node(
                model,
                t as nat,
            ) by {
                assert(nodes@[n + (t - n)]@ == leaves@[t - n]@);
            }
        }
        while at > 1
            invariant
                1 <= at <= n,
                n == leaves.len(),
                2 * n <= usize::MAX,
                nodes.len() == 2 * n,
                model == byte_strings(leaves@),
                forall|t: int| 0 <= t < n ==> (#[trigger] nodes@[n + t])@ == leaves@[t]@,
                forall|t: int|
                    at <= t < 2 * n ==> (#[trigger] nodes@[t])@ == merkle_node(model, t as nat),
            decreases at,
        {
            at = at - 1;
            let digest = hash_nodes(&nodes[2 * at], &nodes[2 * at + 1]);
            nodes.set(at, digest);
        }
        proof {
            assert(leaves_of(nodes@, n as nat) =~= model);
        }
        Some(MerkleTree { nodes, leaf_count: n })
    }

    /// The number of leaves.
    pub fn leaf_count(&self) -> (n: usize)
        ensures
            n == self@.len(),
            is_power_of_two(n as nat),
    {
        proof {
            use_type_invariant(self);
        }
        self.leaf_count
    }

    /// The digest at the root.
    pub fn root(&self) -> (root: &Vec<u8>)
        ensures
            root@ == merkle_root(self@),
    {
        proof {
            use_type_invariant(self);
        }
        &self.nodes[1]
    }

    /// The inclusion proof for leaf `index`, if there is such a leaf.
    pub fn prove(&self, index: usize) -> (proof: Option<MerkleProof>)
        ensures
            proof.is_some() <==> index < self@.len(),
            proof.is_some() ==> proof.unwrap()@ == merkle_proof(self@, index as nat),
    {
        proof {
            use_type_invariant(self);
        }
        if index >= self.leaf_count {
            return None;
        }
        let mut siblings: Vec<Vec<u8>> = Vec::new();
        let start: usize = self.leaf_count + index;
        let mut at: usize = start;
        while at > 1
            invariant
                self.well_formed(),
                1 <= at < self.nodes.len(),
                merkle_path(self@, start as nat) == byte_strings(siblings@) + merkle_path(
                    self@,
                    at as nat,
                ),
            decreases at,
        {
            let beside: usize = if at % 2 == 0 {
                at + 1
            } else {
                at - 1
            };
            let ghost before = byte_strings(siblings@);
            siblings.push(copy_bytes(&self.nodes[beside]));
            proof {
                assert(byte_strings(siblings@) =~= before.push(merkle_node(self@, beside as nat)));
                assert(before + merkle_path(self@, at as nat) =~= byte_strings(siblings@)
                    + merkle_path(self@, (at / 2) as nat));
            }
            at = at / 2;
        }
        proof {
            assert(byte_strings(siblings@) + merkle_path(self@, at as nat) =~= byte_strings(
                siblings@,
            ));
        }
        let root = copy_bytes(&self.nodes[1]);
        let leaf = copy_bytes(&self.nodes[start]);
        Some(MerkleProof { root, leaf, siblings })
    }
}

} // verus!
