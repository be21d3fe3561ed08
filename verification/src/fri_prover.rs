//! The prover: it commits to a codeword and its foldings layer by layer, and opens
//! the layers at the query positions.

use crate::channel::ProverChannel;
use crate::drp::apply_drp;
use crate::drp::drp;
use crate::field::field_generator;
use crate::field::is_power_of_two;
use crate::field::values;
use crate::field::Felt;
use crate::field::MAX_DOMAIN_SIZE;
use crate::fri_proof::FriProof;
use crate::fri_proof::FriProofLayer;
use crate::fri_proof::ProofLayerModel;
use crate::fri_proof::ProofModel;
use crate::hash::byte_strings;
use crate::hash::hash_tuple;
use crate::hash::tuple_digest;
use crate::interleave::deinterleave;
use crate::interleave::deinterleaved;
use crate::interleave::interleave;
use crate::interleave::interleaved;
use crate::merkle::merkle_proof;
use crate::merkle::merkle_root;
use crate::merkle::MerkleProof;
use crate::merkle::MerkleProofModel;
use crate::merkle::MerkleTree;
use crate::field::lemma_values_subrange;
use crate::options::folded_len;
use crate::options::lemma_fold_shrinks;
use crate::options::lemma_num_layers_bound;
use crate::options::lemma_remainder_size_bound;
use crate::options::lemma_supported_power_of_two;
use crate::options::num_layers;
use crate::options::remainder_size;
use crate::options::supported_folding_factor;
use crate::options::FriOptions;
use crate::options::OptionsModel;
use crate::positions::fold_positions;
use crate::positions::folded_positions;
use vstd::prelude::*;

verus! {

/// The digests of the tuples of an interleaved codeword: leaf `i` commits to the
/// entries `i*k .. i*k + k`.
pub open spec fn leaf_digests(evals: Seq<nat>, k: nat) -> Seq<Seq<u8>> {
    Seq::new(
        if k == 0 {
            0
        } else {
            evals.len() / k
        },
        |i: int| tuple_digest(evals.subrange(i * k, i * k + k)),
    )
}

/// The commit phase before layer `i`: the codeword that layer `i` commits to, in
/// natural order, and the state of the channel. Each layer's root is absorbed, the
/// challenge is drawn, and the codeword is folded with it.
pub open spec fn commit_state<C: ProverChannel>(
    evals: Seq<nat>,
    channel: C::V,
    k: nat,
    i: nat,
) -> (Seq<nat>, C::V)
    decreases i,
{
    if i == 0 {
        (evals, channel)
    } else {
        let before = commit_state::<C>(evals, channel, k, (i - 1) as nat);
        let root = merkle_root(leaf_digests(interleaved(before.0, k), k));
        let absorbed = C::committed(before.1, root);
        (drp(before.0, field_generator(), C::challenge(absorbed), k), C::advanced(absorbed))
    }
}

/// The interleaved codewords of the first `count` layers.
pub open spec fn committed_layers<C: ProverChannel>(
    evals: Seq<nat>,
    channel: C::V,
    k: nat,
    count: nat,
) -> Seq<Seq<nat>> {
    Seq::new(count, |i: int| interleaved(commit_state::<C>(evals, channel, k, i as nat).0, k))
}

/// The positions at which layer `layer` is opened: the query positions folded into
/// the leaf space of each layer up to this one in turn. The first layer commits to
/// `first_len` values.
pub open spec fn layer_positions(positions: Seq<usize>, first_len: nat, k: nat, layer: nat) -> Seq<
    usize,
>
    decreases layer,
{
    let leaves = folded_len(first_len, k, layer + 1) as usize;
    if layer == 0 {
        folded_positions(positions, leaves)
    } else {
        folded_positions(layer_positions(positions, first_len, k, (layer - 1) as nat), leaves)
    }
}

/// The tuples of an interleaved codeword at the given leaves, one after the other.
pub open spec fn opened_values(evals: Seq<nat>, positions: Seq<usize>, k: nat) -> Seq<nat> {
    Seq::new(
        positions.len() * k,
        |t: int| evals[positions[t / (k as int)] * k + t % (k as int)],
    )
}

/// The inclusion proofs of the given leaves.
pub open spec fn opened_paths(leaves: Seq<Seq<u8>>, positions: Seq<usize>) -> Seq<
    MerkleProofModel,
> {
    Seq::new(positions.len(), |j: int| merkle_proof(leaves, positions[j] as nat))
}

/// The opening of a layer with the interleaved codeword `evals` at the given leaves.
pub open spec fn opened_layer(evals: Seq<nat>, positions: Seq<usize>, k: nat) -> ProofLayerModel {
    ProofLayerModel {
        values: opened_values(evals, positions, k),
        paths: opened_paths(leaf_digests(evals, k), positions),
    }
}

/// The proof that a prover with the given layers gives for the query positions: every
/// layer but the last is opened at the folded positions, and the last layer is sent
/// whole, in natural order.
pub open spec fn proof_of(layers: Seq<Seq<nat>>, positions: Seq<usize>, k: nat) -> ProofModel {
    ProofModel {
        layers: Seq::new(
            (layers.len() - 1) as nat,
            |l: int|
                opened_layer(layers[l], layer_positions(positions, layers[0].len(), k, l as nat), k),
        ),
        remainder: deinterleaved(layers.last(), k),
    }
}

/// Whether the layers are those of a prover who folds by `k`: each holds a power of
/// two of values, a tuple at least, and a `k`-th of the values of the layer before.
pub open spec fn folding_layers(layers: Seq<Seq<nat>>, k: nat) -> bool {
    &&& layers.len() >= 1
    &&& layers[0].len() <= usize::MAX
    &&& forall|l: int|
        0 <= l < layers.len() ==> {
            &&& is_power_of_two((#[trigger] layers[l]).len())
            &&& layers[l].len() >= k
            &&& layers[l].len() == folded_len(layers[0].len(), k, l as nat)
        }
}

/// One committed layer: the tree over the tuples, and the codeword, interleaved.
struct FriLayer {
    tree: MerkleTree,
    evaluations: Vec<Felt>,
}

/// What a prover holds: its options, and the interleaved codeword of each layer.
pub struct ProverModel {
    pub options: OptionsModel,
    pub layers: Seq<Seq<nat>>,
}

/// The prover.
pub struct FriProver {
    options: FriOptions,
    layers: Vec<FriLayer>,
}

impl View for FriProver {
    type V = ProverModel;

    closed spec fn view(&self) -> ProverModel {
        ProverModel {
            options: self.options@,
            layers: Seq::new(self.layers.len() as nat, |i: int| values(self.layers[i].evaluations@)),
        }
    }
}

/// The hashes of the tuples of an interleaved codeword.
fn hash_tuples(interleaved_evals: &Vec<Felt>, k: usize) -> (digests: Vec<Vec<u8>>)
    requires
        k > 0,
        interleaved_evals.len() % k == 0,
    ensures
        byte_strings(digests@) == leaf_digests(values(interleaved_evals@), k as nat),
        digests.len() == interleaved_evals.len() / k,
{
    let count: usize = interleaved_evals.len() / k;
    let mut digests: Vec<Vec<u8>> = Vec::new();
    let mut i: usize = 0;
    proof {
        vstd::arithmetic::div_mod::lemma_fundamental_div_mod(
            interleaved_evals.len() as int,
            k as int,
        );
    }
    while i < count
        invariant
            k > 0,
            count == interleaved_evals.len() / k,
            interleaved_evals.len() == k * count,
            i <= count,
            digests.len() == i,
            forall|t: int|
                0 <= t < i ==> (#[trigger] digests@[t])@ == tuple_digest(
                    values(interleaved_evals@).subrange(t * k, t * k + k),
                ),
        decreases count - i,
    {
        proof {
            assert(i * k + k <= interleaved_evals.len()) by (nonlinear_arith)
                requires
                    i < count,
                    interleaved_evals.len() == k * count,
            ;
            lemma_values_subrange(interleaved_evals@, i * k, i * k + k);
        }
        let tuple = vstd::slice::slice_subrange(interleaved_evals.as_slice(), i * k, i * k + k);
        digests.push(hash_tuple(tuple));
        i = i + 1;
    }
    proof {
        assert(byte_strings(digests@) =~= leaf_digests(values(interleaved_evals@), k as nat));
    }
    digests
}

/// Opens a layer at the given leaves: for each, the tuple and its path.
fn query_layer(layer: &FriLayer, positions: &Vec<usize>, k: usize) -> (opened: FriProofLayer)
    requires
        k > 0,
        layer.tree@ == leaf_digests(values(layer.evaluations@), k as nat),
        layer.evaluations.len() == k * layer.tree@.len(),
        forall|j: int| 0 <= j < positions.len() ==> positions[j] < layer.tree@.len(),
    ensures
        opened@ == opened_layer(values(layer.evaluations@), positions@, k as nat),
{
    let ghost evals = values(layer.evaluations@);
    let mut proofs: Vec<MerkleProof> = Vec::new();
    let mut tuples: Vec<Felt> = Vec::new();
    let mut j: usize = 0;
    while j < positions.len()
        invariant
            k > 0,
            evals == values(layer.evaluations@),
            layer.evaluations.len() == k * layer.tree@.len(),
            forall|t: int| 0 <= t < positions.len() ==> positions[t] < layer.tree@.len(),
            j <= positions.len(),
            proofs.len() == j,
            tuples.len() == j * k,
            forall|t: int|
                0 <= t < j ==> (#[trigger] proofs@[t])@ == merkle_proof(
                    layer.tree@,
                    positions@[t] as nat,
                ),
            forall|t: int|
                0 <= t < j * k ==> (#[trigger] tuples@[t])@ == evals[positions@[t / (k as int)]
                    * k + t % (k as int)],
        decreases positions.len() - j,
    {
        let position = positions[j];
        let path = layer.tree.prove(position);
        proofs.push(path.unwrap());
        proof {
            assert(position * k + k <= layer.evaluations.len()) by (nonlinear_arith)
                requires
                    position < layer.tree@.len(),
                    layer.evaluations.len() == k * layer.tree@.len(),
            ;
        }
        let mut i: usize = 0;
        while i < k
            invariant
                k > 0,
                evals == values(layer.evaluations@),
                j < positions.len(),
                position == positions@[j as int],
                position * k + k <= layer.evaluations.len(),
                i <= k,
                tuples.len() == j * k + i,
                forall|t: int|
                    0 <= t < j * k + i ==> (#[trigger] tuples@[t])@ == evals[positions@[t / (
                    k as int)] * k + t % (k as int)],
            decreases k - i,
        {
            proof {
                crate::interleave::lemma_split_index(i as int, j as int, k as int);
            }
            tuples.push(layer.evaluations[position * k + i]);
            i = i + 1;
        }
        proof {
            assert(j * k + k == (j + 1) * k) by (nonlinear_arith);
        }
        j = j + 1;
    }
    let opened = FriProofLayer::from_values(tuples, proofs);
    proof {
        let expected = opened_layer(evals, positions@, k as nat);
        assert(opened@.values =~= expected.values);
        assert(opened@.paths =~= expected.paths);
    }
    opened
}

impl FriProver {
    /// What holds of every prover: each layer's tree is the tree over the tuples of
    /// its codeword, and each layer holds a `k`-th of the values of the layer before.
    #[verifier::type_invariant]
    pub closed spec fn well_formed(self) -> bool {
        let k = self.options@.folding_factor;
        &&& forall|i: int|
            0 <= i < self.layers.len() ==> {
                &&& (#[trigger] self.layers[i]).tree@ == leaf_digests(
                    values(self.layers[i].evaluations@),
                    k,
                )
                &&& self.layers[i].evaluations.len() == k * self.layers[i].tree@.len()
                &&& self.layers[i].tree@.len() >= 1
            }
        &&& forall|i: int, j: int|
            0 <= i && j == i + 1 && j < self.layers.len() ==> (#[trigger] self.layers[j]).evaluations.len()
                == ((#[trigger] self.layers[i]).evaluations.len() as nat) / k
    }

    /// A prover that has committed to nothing yet.
    pub fn new(options: FriOptions) -> (prover: FriProver)
        ensures
            prover@.options == options@,
            prover@.layers.len() == 0,
    {
        FriProver { options, layers: Vec::new() }
    }

    /// The options that the prover was made with.
    pub fn options(&self) -> (options: FriOptions)
        ensures
            options@ == self@.options,
    {
        self.options
    }

    /// The number of layers committed so far.
    pub fn num_layers(&self) -> (count: usize)
        ensures
            count == self@.layers.len(),
    {
        self.layers.len()
    }

    /// Commits to one layer: the codeword is interleaved, its tuples are hashed into
    /// a tree whose root the channel absorbs, and the codeword is folded with the
    /// challenge that the channel gives. Returns the folded codeword.
    fn build_layer<C: ProverChannel>(&mut self, channel: &mut C, evaluations: Vec<Felt>) -> (next:
        Vec<Felt>)
        requires
            is_power_of_two(evaluations.len() as nat),
            old(self)@.options.folding_factor <= evaluations.len() <= MAX_DOMAIN_SIZE,
            old(self)@.layers.len() > 0 ==> old(self)@.layers.last().len()
                / old(self)@.options.folding_factor == evaluations.len(),
        ensures
            final(self)@.options == old(self)@.options,
            final(self)@.layers == old(self)@.layers.push(
                interleaved(values(evaluations@), old(self)@.options.folding_factor),
            ),
            ({
                let k = old(self)@.options.folding_factor;
                let root = merkle_root(leaf_digests(interleaved(values(evaluations@), k), k));
                let absorbed = C::committed(old(channel)@, root);
                &&& final(channel)@ == C::advanced(absorbed)
                &&& values(next@) == drp(
                    values(evaluations@),
                    field_generator(),
                    C::challenge(absorbed),
                    k,
                )
                &&& next.len() == (evaluations.len() as nat) / k
                &&& is_power_of_two(next.len() as nat)
            }),
    {
        proof {
            use_type_invariant(&*self);
        }
        let k = self.options.folding_factor();
        proof {
            lemma_supported_power_of_two(k as nat);
            crate::domain::lemma_power_of_two_quotient(evaluations.len() as nat, k as nat);
        }
        let interleaved_evals = interleave(&evaluations, k);
        let hashed_evals = hash_tuples(&interleaved_evals, k);
        let evals_merkle_tree = MerkleTree::new(hashed_evals).unwrap();
        channel.commit_fri_layer(evals_merkle_tree.root());
        let alpha = channel.draw_fri_alpha();
        let offset = self.options.domain_offset();
        let next = apply_drp(evaluations, offset, alpha, k);
        let ghost before = self.layers@;
        let layer = FriLayer { tree: evals_merkle_tree, evaluations: interleaved_evals };
        let mut holder = FriProver { options: self.options, layers: Vec::new() };
        std::mem::swap(self, &mut holder);
        let FriProver { options, layers } = holder;
        let mut layers = layers;
        layers.push(layer);
        proof {
            assert(layers@ == before.push(layer));
            assert forall|i: int| 0 <= i < before.len() implies layers@[i] == before[i] by {}
            let kk = k as nat;
            let n = evaluations.len() as nat;
            assert(layer.evaluations.len() == n);
            assert(layer.tree@.len() == n / kk);
            assert(n == kk * (n / kk)) by (nonlinear_arith)
                requires
                    (n / kk) * kk == n,
            ;
            assert(n / kk >= 1) by (nonlinear_arith)
                requires
                    (n / kk) * kk == n,
                    n >= kk,
                    kk >= 1,
            ;
            if before.len() > 0 {
                assert(old(self)@.layers.last() == values(before.last().evaluations@));
            }
            assert forall|i: int, j: int|
                0 <= i && j == i + 1 && j < layers@.len() implies (#[trigger] layers@[j]).evaluations.len()
                == ((#[trigger] layers@[i]).evaluations.len() as nat) / kk by {
                if j < before.len() {
                    assert(layers@[j] == before[j]);
                    assert(layers@[i] == before[i]);
                } else {
                    assert(layers@[i] == before.last());
                }
            }
        }
        *self = FriProver { options, layers };
        proof {
            assert(self@.layers =~= old(self)@.layers.push(
                interleaved(values(evaluations@), k as nat),
            ));
        }
        next
    }

    /// Commits to the codeword and to each of its foldings, the remainder included:
    /// one layer more than there are foldings.
    pub fn build_layers<C: ProverChannel>(&mut self, channel: &mut C, evaluations: Vec<Felt>)
        requires
            old(self)@.layers.len() == 0,
            is_power_of_two(evaluations.len() as nat),
            evaluations.len() <= MAX_DOMAIN_SIZE,
            remainder_size(
                evaluations.len() as nat,
                old(self)@.options.folding_factor,
                old(self)@.options.max_remainder_size,
            ) >= old(self)@.options.folding_factor,
        ensures
            final(self)@.options == old(self)@.options,
            ({
                let k = old(self)@.options.folding_factor;
                let count = num_layers(
                    evaluations.len() as nat,
                    k,
                    old(self)@.options.max_remainder_size,
                ) + 1;
                &&& final(self)@.layers == committed_layers::<C>(
                    values(evaluations@),
                    old(channel)@,
                    k,
                    count,
                )
                &&& final(channel)@ == commit_state::<C>(
                    values(evaluations@),
                    old(channel)@,
                    k,
                    count,
                ).1
                &&& folding_layers(final(self)@.layers, k)
                &&& final(self)@.layers.last().len() == remainder_size(
                    evaluations.len() as nat,
                    k,
                    old(self)@.options.max_remainder_size,
                )
            }),
    {
        proof {
            use_type_invariant(&*self);
        }
        let k = self.options.folding_factor();
        let max_remainder = self.options.max_remainder_size();
        let foldings = self.options.num_layers(evaluations.len());
        proof {
            lemma_num_layers_bound(evaluations.len() as nat, k as nat, max_remainder as nat);
            crate::options::lemma_remainder_is_last_fold(
                evaluations.len() as nat,
                k as nat,
                max_remainder as nat,
            );
        }
        let ghost first = values(evaluations@);
        let ghost start = channel@;
        let ghost n0 = evaluations.len() as nat;
        let mut evaluations = evaluations;
        let mut i: usize = 0;
        while i <= foldings
            invariant
                self@.options == old(self)@.options,
                k == self@.options.folding_factor,
                max_remainder == self@.options.max_remainder_size,
                supported_folding_factor(k as nat),
                foldings == num_layers(n0, k as nat, max_remainder as nat),
                i <= foldings + 1,
                foldings < n0,
                n0 <= MAX_DOMAIN_SIZE,
                i + num_layers(evaluations.len() as nat, k as nat, max_remainder as nat)
                    == foldings || i == foldings + 1,
                i <= foldings ==> remainder_size(
                    evaluations.len() as nat,
                    k as nat,
                    max_remainder as nat,
                ) >= k,
                i <= foldings ==> is_power_of_two(evaluations.len() as nat),
                i <= foldings ==> evaluations.len() == folded_len(n0, k as nat, i as nat),
                evaluations.len() <= n0,
                forall|l: int|
                    0 <= l < i ==> {
                        &&& is_power_of_two((#[trigger] self@.layers[l]).len())
                        &&& self@.layers[l].len() >= k
                        &&& self@.layers[l].len() == folded_len(n0, k as nat, l as nat)
                    },
                self@.layers.len() == i,
                i > 0 && i <= foldings ==> self@.layers.last().len() / (k as nat)
                    == evaluations.len(),
                values(evaluations@) == commit_state::<C>(first, start, k as nat, i as nat).0,
                channel@ == commit_state::<C>(first, start, k as nat, i as nat).1,
                self@.layers =~= committed_layers::<C>(first, start, k as nat, i as nat),
            decreases foldings + 1 - i,
        {
            let ghost current = evaluations@;
            let ghost size = evaluations.len() as nat;
            proof {
                lemma_remainder_size_bound(size, k as nat, max_remainder as nat);
                if size > max_remainder {
                    lemma_fold_shrinks(size, k as nat);
                }
            }
            let ghost layers_before = self@.layers;
            evaluations = self.build_layer(channel, evaluations);
            proof {
                let folded = interleaved(values(current), k as nat);
                assert(folded.len() == size) by {
                    lemma_supported_power_of_two(k as nat);
                    crate::domain::lemma_power_of_two_quotient(size, k as nat);
                }
                assert(self@.layers == layers_before.push(folded));
                assert forall|l: int| 0 <= l < i + 1 implies {
                    &&& is_power_of_two((#[trigger] self@.layers[l]).len())
                    &&& self@.layers[l].len() >= k
                    &&& self@.layers[l].len() == folded_len(n0, k as nat, l as nat)
                } by {
                    if l < i {
                        assert(self@.layers[l] == layers_before[l]);
                    }
                }
                assert(self@.layers =~= committed_layers::<C>(
                    first,
                    start,
                    k as nat,
                    (i + 1) as nat,
                ));
            }
            i = i + 1;
        }
    }

    /// The proof for the given query positions, which are leaves of the first layer:
    /// each layer but the last is opened at the positions folded into its leaf space,
    /// and the last layer is sent whole, in natural order.
    pub fn into_proof(self, positions: &[usize]) -> (proof: FriProof)
        requires
            self@.layers.len() >= 1,
        ensures
            proof@ == proof_of(self@.layers, positions@, self@.options.folding_factor),
    {
        proof {
            use_type_invariant(&self);
        }
        let folding_factor = self.options.folding_factor();
        let count = self.layers.len();
        let mut domain_size: usize = self.layers[0].evaluations.len();
        let ghost first_len = domain_size as nat;
        let ghost k = folding_factor as nat;
        let ghost asked = positions@;
        let mut proof_layers: Vec<FriProofLayer> = Vec::new();
        let mut positions: Vec<usize> = vstd::slice::slice_to_vec(positions);
        let mut i: usize = 0;
        while i < count - 1
            invariant
                self.well_formed(),
                count == self.layers.len(),
                count >= 1,
                folding_factor == self.options@.folding_factor,
                k == folding_factor,
                folding_factor >= 2,
                first_len == self.layers[0].evaluations.len(),
                i <= count - 1,
                domain_size == self.layers[i as int].evaluations.len(),
                domain_size == folded_len(first_len, k, i as nat),
                i == 0 ==> positions@ == asked,
                i > 0 ==> positions@ == layer_positions(asked, first_len, k, (i - 1) as nat),
                proof_layers.len() == i,
                forall|l: int|
                    0 <= l < i ==> (#[trigger] proof_layers@[l])@ == opened_layer(
                        values(self.layers[l].evaluations@),
                        layer_positions(asked, first_len, k, l as nat),
                        k,
                    ),
            decreases count - 1 - i,
        {
            let layer = &self.layers[i];
            let num_eval_chunks: usize = domain_size / folding_factor;
            proof {
                let leaves = layer.tree@.len() as int;
                assert(domain_size == folding_factor * leaves);
                vstd::arithmetic::div_mod::lemma_fundamental_div_mod_converse(
                    domain_size as int,
                    folding_factor as int,
                    leaves,
                    0,
                );
                assert(num_eval_chunks == leaves);
                assert(self.layers[i + 1].evaluations.len() == (
                self.layers[i as int].evaluations.len() as nat) / k);
                assert(folded_len(first_len, k, (i + 1) as nat) == num_eval_chunks);
            }
            positions = fold_positions(positions.as_slice(), num_eval_chunks);
            domain_size = num_eval_chunks;
            proof_layers.push(query_layer(layer, &positions, folding_factor));
            i = i + 1;
        }
        let last_layer = &self.layers[count - 1];
        let remainder = deinterleave(&last_layer.evaluations, folding_factor);
        let proof = FriProof::new(proof_layers, remainder);
        proof {
            let expected = proof_of(self@.layers, asked, k);
            assert(self@.layers.last() == values(last_layer.evaluations@));
            assert(proof@.layers =~= expected.layers);
        }
        proof
    }
}

} // verus!
