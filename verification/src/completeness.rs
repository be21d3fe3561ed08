//! What holds of the proofs of an honest prover.

use crate::channel::ProverChannel;
use crate::domain::lemma_power_of_two_quotient;
use crate::fri_proof::ProofModel;
use crate::fri_prover::committed_layers;
use crate::fri_prover::folding_layers;
use crate::fri_prover::layer_positions;
use crate::fri_prover::leaf_digests;
use crate::fri_prover::proof_of;
use crate::verdict::authentic;
use crate::verdict::layer_len;
use crate::verdict::layer_shaped;
use crate::verdict::opened_tuple;
use crate::verdict::path_valid;
use crate::verdict::query_positions;
use crate::verdict::well_shaped;
use crate::verdict::VerifierModel;
use crate::interleave::lemma_split_index;
use crate::merkle::lemma_proof_authenticates;
use crate::merkle::merkle_root;
use crate::options::folded_len;
use crate::options::lemma_folded_len_bound;
use crate::options::lemma_supported_power_of_two;
use crate::options::num_layers;
use crate::options::supported_folding_factor;
use crate::options::OptionsModel;
use crate::positions::lemma_folded_positions;
use vstd::prelude::*;

verus! {

/// The proof that a prover gives who commits to the codeword `evals` on a channel
/// in the given state and opens the layers at the given positions.
pub open spec fn honest_proof<C: ProverChannel>(
    options: OptionsModel,
    evals: Seq<nat>,
    channel: C::V,
    positions: Seq<usize>,
) -> ProofModel {
    let k = options.folding_factor;
    let count = num_layers(evals.len(), k, options.max_remainder_size) + 1;
    proof_of(committed_layers::<C>(evals, channel, k, count), positions, k)
}

/// Whether the verifier holds, for each layer but the last, the root of the tree over
/// the layer's tuples, and expects a codeword as long as the first layer's, folded as
/// often as there are layers but the last.
pub open spec fn commitments_match(v: VerifierModel, layers: Seq<Seq<nat>>) -> bool {
    let k = v.options.folding_factor;
    &&& v.codeword_len == layers[0].len()
    &&& layers.len() - 1 == num_layers(layers[0].len(), k, v.options.max_remainder_size)
    &&& v.roots.len() == layers.len() - 1
    &&& v.alphas.len() == layers.len() - 1
    &&& forall|l: int|
        0 <= l < layers.len() - 1 ==> #[trigger] v.roots[l] == merkle_root(
            leaf_digests(layers[l], k),
        )
}

/// Determinism: the proof depends on nothing but the options, the codeword, the
/// state of the channel and the positions. Two provers for whom these are the same
/// hold the same layers and give the same proof.
pub proof fn lemma_proof_determined<C: ProverChannel>(
    options: OptionsModel,
    evals: Seq<nat>,
    channel: C::V,
    positions: Seq<usize>,
    first: Seq<Seq<nat>>,
    second: Seq<Seq<nat>>,
)
    requires
        ({
            let k = options.folding_factor;
            let count = num_layers(evals.len(), k, options.max_remainder_size) + 1;
            &&& first == committed_layers::<C>(evals, channel, k, count)
            &&& second == committed_layers::<C>(evals, channel, k, count)
        }),
    ensures
        first == second,
        proof_of(first, positions, options.folding_factor) == proof_of(
            second,
            positions,
            options.folding_factor,
        ),
        proof_of(first, positions, options.folding_factor) == honest_proof::<C>(
            options,
            evals,
            channel,
            positions,
        ),
{
}

/// The positions at which a layer is opened are leaves of the layer.
pub proof fn lemma_positions_are_leaves(
    layers: Seq<Seq<nat>>,
    positions: Seq<usize>,
    k: nat,
    l: nat,
)
    requires
        supported_folding_factor(k),
        folding_layers(layers, k),
        l < layers.len(),
    ensures
        forall|j: int|
            0 <= j < layer_positions(positions, layers[0].len(), k, l).len() ==> (
            #[trigger] layer_positions(positions, layers[0].len(), k, l)[j]) * k + k
                <= layers[l as int].len(),
{
    let n0 = layers[0].len();
    let n = layers[l as int].len();
    let leaves = folded_len(n0, k, l + 1);
    lemma_supported_power_of_two(k);
    lemma_power_of_two_quotient(n, k);
    lemma_folded_len_bound(n0, k, l + 1);
    assert(leaves == n / k);
    assert(leaves >= 1) by (nonlinear_arith)
        requires
            leaves * k == n,
            n >= k,
            k >= 2,
    ;
    let before = if l == 0 {
        positions
    } else {
        layer_positions(positions, n0, k, (l - 1) as nat)
    };
    lemma_folded_positions(before, leaves as usize);
    let here = layer_positions(positions, n0, k, l);
    assert forall|j: int| 0 <= j < here.len() implies (#[trigger] here[j]) * k + k <= n by {
        let p = here[j];
        assert(p < leaves);
        assert(p * k + k <= n) by (nonlinear_arith)
            requires
                p < leaves,
                leaves * k == n,
        ;
    }
}

/// The proof of an honest prover has the shape that the verifier asks for, and
/// every path in it is valid: it claims the layer's commitment, is for the digest of
/// its tuple, and leads from there to the commitment.
pub proof fn lemma_honest_proof_authentic(
    v: VerifierModel,
    layers: Seq<Seq<nat>>,
    positions: Seq<usize>,
)
    requires
        supported_folding_factor(v.options.folding_factor),
        folding_layers(layers, v.options.folding_factor),
        commitments_match(v, layers),
    ensures
        well_shaped(v, proof_of(layers, positions, v.options.folding_factor), positions),
        authentic(v, proof_of(layers, positions, v.options.folding_factor), positions),
{
    let k = v.options.folding_factor;
    let n0 = layers[0].len();
    let sent = proof_of(layers, positions, k);
    let count = (layers.len() - 1) as nat;
    lemma_supported_power_of_two(k);
    assert(sent.layers.len() == count);
    assert forall|l: nat| l < count implies #[trigger] layer_shaped(v, sent, positions, l) by {
        let here = query_positions(v, positions, l);
        assert(sent.layers[l as int].paths.len() == here.len());
        assert(sent.layers[l as int].values.len() == k * here.len()) by (nonlinear_arith)
            requires
                sent.layers[l as int].values.len() == here.len() * k,
        ;
        assert(layers[l as int].len() == layer_len(v, l));
    }
    let last = layers.last();
    lemma_power_of_two_quotient(last.len(), k);
    assert(sent.remainder.len() == last.len());
    assert(last == layers[count as int]);
    assert(well_shaped(v, sent, positions));
    assert forall|l: nat, j: nat|
        l < sent.layers.len() && j < sent.layers[l as int].paths.len() implies #[trigger] path_valid(
        v,
        sent,
        positions,
        l,
        j,
    ) by {
        let evals = layers[l as int];
        let n = evals.len();
        let here = query_positions(v, positions, l);
        let p = here[j as int] as nat;
        let leaves = leaf_digests(evals, k);
        let layer = sent.layers[l as int];
        let path = layer.paths[j as int];
        lemma_positions_are_leaves(layers, positions, k, l);
        lemma_power_of_two_quotient(n, k);
        assert(here[j as int] * k + k <= n);
        assert(p < leaves.len()) by (nonlinear_arith)
            requires
                p * k + k <= n,
                leaves.len() * k == n,
                k >= 2,
        ;
        lemma_proof_authenticates(leaves, p);
        assert(layer_len(v, l) / k == leaves.len());
        assert(opened_tuple(layer, k, j) =~= evals.subrange((p * k) as int, (p * k + k) as int)) by {
            assert(j * k + k <= layer.values.len()) by (nonlinear_arith)
                requires
                    j < here.len(),
                    layer.values.len() == here.len() * k,
            ;
            assert forall|i: int| 0 <= i < k implies #[trigger] opened_tuple(layer, k, j)[i]
                == evals.subrange((p * k) as int, (p * k + k) as int)[i] by {
                lemma_split_index(i, j as int, k as int);
            }
        }
    }
}

} // verus!
