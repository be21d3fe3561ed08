//! What the verifier says of a proof: the checks, and the order in which they
//! decide.

use crate::domain::coset_fft;
use crate::domain::coset_ifft;
use crate::domain::coset_point;
use crate::domain::DomainModel;
use crate::drp::chunk_combination;
use crate::field::field_generator;
use crate::field::is_power_of_two;
use crate::fri_proof::ProofLayerModel;
use crate::fri_proof::ProofModel;
use crate::fri_prover::layer_positions;
use crate::fri_verifier::RejectionReason;
use crate::fri_verifier::VerificationError;
use crate::hash::tuple_digest;
use crate::merkle::authenticates;
use crate::options::folded_len;
use crate::options::num_layers;
use crate::options::OptionsModel;
use vstd::prelude::*;

verus! {

/// What a verifier holds.
pub struct VerifierModel {
    pub options: OptionsModel,
    /// The commitment to each layer.
    pub roots: Seq<Seq<u8>>,
    /// The challenge of each layer.
    pub alphas: Seq<nat>,
    /// The evaluation domain of the first layer.
    pub domain: DomainModel,
    /// The length of the first layer's codeword.
    pub codeword_len: nat,
}

/// The length of the codeword of layer `l`.
pub open spec fn layer_len(v: VerifierModel, l: nat) -> nat {
    folded_len(v.codeword_len, v.options.folding_factor, l)
}

/// The positions at which layer `l` is opened.
pub open spec fn query_positions(v: VerifierModel, positions: Seq<usize>, l: nat) -> Seq<usize> {
    layer_positions(positions, v.codeword_len, v.options.folding_factor, l)
}

/// Whether layer `l` of the proof has the shape that the positions ask for: its
/// codeword's length is a power of two that holds a tuple at least, and it has one
/// tuple and one path for each position.
pub open spec fn layer_shaped(
    v: VerifierModel,
    proof: ProofModel,
    positions: Seq<usize>,
    l: nat,
) -> bool {
    let k = v.options.folding_factor;
    let layer = proof.layers[l as int];
    &&& is_power_of_two(layer_len(v, l))
    &&& k <= layer_len(v, l)
    &&& layer.paths.len() == query_positions(v, positions, l).len()
    &&& layer.values.len() == k * layer.paths.len()
}

/// Whether the proof has the shape that the verifier and the positions ask for: a
/// layer for each folding of the codeword, each of them shaped, and a remainder as
/// long as the foldings leave it.
pub open spec fn well_shaped(v: VerifierModel, proof: ProofModel, positions: Seq<usize>) -> bool {
    &&& proof.layers.len() == v.alphas.len()
    &&& proof.layers.len() == num_layers(
        v.codeword_len,
        v.options.folding_factor,
        v.options.max_remainder_size,
    )
    &&& forall|l: nat| l < proof.layers.len() ==> #[trigger] layer_shaped(v, proof, positions, l)
    &&& proof.remainder.len() == layer_len(v, proof.layers.len())
    &&& is_power_of_two(proof.remainder.len())
}

/// Tuple `j` of a layer.
pub open spec fn opened_tuple(layer: ProofLayerModel, k: nat, j: nat) -> Seq<nat> {
    layer.values.subrange((j * k) as int, (j * k + k) as int)
}

/// Whether path `j` of layer `l` claims the layer's commitment, is for the digest of
/// tuple `j`, and leads from there to the commitment.
pub open spec fn path_valid(
    v: VerifierModel,
    proof: ProofModel,
    positions: Seq<usize>,
    l: nat,
    j: nat,
) -> bool {
    let k = v.options.folding_factor;
    let layer = proof.layers[l as int];
    let path = layer.paths[j as int];
    &&& path.root == v.roots[l as int]
    &&& path.leaf == tuple_digest(opened_tuple(layer, k, j))
    &&& authenticates(
        path.root,
        path.leaf,
        query_positions(v, positions, l)[j as int] as nat,
        layer_len(v, l) / k,
        path.siblings,
    )
}

/// Whether every path of every layer is valid.
pub open spec fn authentic(v: VerifierModel, proof: ProofModel, positions: Seq<usize>) -> bool {
    forall|l: nat, j: nat|
        l < proof.layers.len() && j < proof.layers[l as int].paths.len() ==> #[trigger] path_valid(
            v,
            proof,
            positions,
            l,
            j,
        )
}

/// The value to which a tuple folds: the tuple is interpolated on the coset of its
/// size with offset `point`, and the coefficients are combined with the powers of
/// `alpha`.
pub open spec fn folded_tuple(tuple: Seq<nat>, point: nat, alpha: nat) -> nat {
    chunk_combination(coset_ifft(tuple, point), alpha, tuple.len(), 0, tuple.len())
}

/// The value that the proof holds for entry `p` of the codeword after layer `l`: it
/// stands in the next layer's tuple for `p` folded into that layer's leaf space, or,
/// after the last layer, in the remainder.
pub open spec fn next_value(
    v: VerifierModel,
    proof: ProofModel,
    positions: Seq<usize>,
    l: nat,
    p: nat,
) -> nat {
    let k = v.options.folding_factor;
    if l + 1 < proof.layers.len() {
        let leaves = layer_len(v, l + 2);
        let at = query_positions(v, positions, l + 1).index_of((p % leaves) as usize);
        proof.layers[(l + 1) as int].values[at * k + p / leaves]
    } else {
        proof.remainder[p as int]
    }
}

/// Whether tuple `j` of layer `l` folds to the value that the proof holds for it.
/// The tuple holds the values of the layer's codeword on the coset of `k` points
/// that starts at the point of the tuple's leaf.
pub open spec fn tuple_colinear(
    v: VerifierModel,
    proof: ProofModel,
    positions: Seq<usize>,
    l: nat,
    j: nat,
) -> bool {
    let k = v.options.folding_factor;
    let p = query_positions(v, positions, l)[j as int] as nat;
    folded_tuple(
        opened_tuple(proof.layers[l as int], k, j),
        coset_point(layer_len(v, l), field_generator(), p),
        v.alphas[l as int],
    ) == next_value(v, proof, positions, l, p)
}

/// Whether every tuple of every layer folds to the value that the proof holds for
/// it.
pub open spec fn colinear(v: VerifierModel, proof: ProofModel, positions: Seq<usize>) -> bool {
    forall|l: nat, j: nat|
        l < proof.layers.len() && j < proof.layers[l as int].paths.len()
            ==> #[trigger] tuple_colinear(v, proof, positions, l, j)
}

/// Whether the remainder's polynomial has a degree below the remainder's length
/// divided by the blowup factor. The polynomial without coefficients other than
/// zero has degree 0.
pub open spec fn remainder_low_degree(v: VerifierModel, proof: ProofModel) -> bool {
    let coeffs = coset_ifft(proof.remainder, field_generator());
    let bound = proof.remainder.len() / v.options.blowup_factor;
    bound > 0 && forall|i: int| bound <= i < coeffs.len() ==> coeffs[i] == 0
}

/// Whether the remainder's polynomial takes the remainder's values.
pub open spec fn remainder_consistent(proof: ProofModel) -> bool {
    coset_fft(coset_ifft(proof.remainder, field_generator()), field_generator())
        == proof.remainder
}

/// What the verifier says of a proof: the first check that fails decides.
pub open spec fn verdict(v: VerifierModel, proof: ProofModel, positions: Seq<usize>) -> Result<
    (),
    VerificationError,
> {
    if !well_shaped(v, proof, positions) || !authentic(v, proof, positions) {
        Err(VerificationError::VerificationRejection(RejectionReason::InvalidPath))
    } else if !colinear(v, proof, positions) {
        Err(VerificationError::VerificationRejection(RejectionReason::Colinearity))
    } else if !remainder_low_degree(v, proof) {
        Err(VerificationError::VerificationRejection(RejectionReason::RemainderDegree))
    } else if !remainder_consistent(proof) {
        Err(VerificationError::VerificationRejection(RejectionReason::RemainderInterpolation))
    } else {
        Ok(())
    }
}

} // verus!
