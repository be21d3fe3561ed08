//! What the prover sends: the opened tuples of each layer with their paths, and the
//! remainder.

use crate::field::values;
use crate::field::Felt;
use crate::merkle::MerkleProof;
use crate::merkle::MerkleProofModel;
use vstd::prelude::*;

verus! {

/// What one layer of a proof holds: the opened tuples one after the other, and one
/// path for each tuple.
pub struct ProofLayerModel {
    pub values: Seq<nat>,
    pub paths: Seq<MerkleProofModel>,
}

/// What a proof holds: its layers, and the remainder in natural order.
pub struct ProofModel {
    pub layers: Seq<ProofLayerModel>,
    pub remainder: Seq<nat>,
}

/// What a sequence of inclusion proofs holds.
pub open spec fn path_models(s: Seq<MerkleProof>) -> Seq<MerkleProofModel> {
    Seq::new(s.len(), |i: int| s[i]@)
}

/// What a sequence of proof layers holds.
pub open spec fn layer_models(s: Seq<FriProofLayer>) -> Seq<ProofLayerModel> {
    Seq::new(s.len(), |i: int| s[i]@)
}

/// One layer of a proof.
#[derive(Clone, Debug)]
pub struct FriProofLayer {
    values: Vec<Felt>,
    proofs: Vec<MerkleProof>,
}

impl View for FriProofLayer {
    type V = ProofLayerModel;

    closed spec fn view(&self) -> ProofLayerModel {
        ProofLayerModel { values: values(self.values@), paths: path_models(self.proofs@) }
    }
}

/// The values of the tuples, one tuple after the other.
pub open spec fn flattened<const N: usize>(tuples: Seq<[Felt; N]>) -> Seq<nat> {
    Seq::new(tuples.len() * (N as nat), |t: int| tuples[t / (N as int)]@[t % (N as int)]@)
}

impl FriProofLayer {
    /// A layer with the given tuples and their paths.
    pub fn new<const N: usize>(values: Vec<[Felt; N]>, proofs: Vec<MerkleProof>) -> (layer:
        FriProofLayer)
        ensures
            layer@.values == flattened(values@),
            layer@.paths == path_models(proofs@),
    {
        let mut flat: Vec<Felt> = Vec::new();
        let mut i: usize = 0;
        while i < values.len()
            invariant
                i <= values.len(),
                flat.len() == i * N,
                forall|t: int|
                    0 <= t < i * N ==> (#[trigger] flat@[t])@ == values@[t / (N as int)]@[t % (
                    N as int)]@,
            decreases values.len() - i,
        {
            let mut j: usize = 0;
            while j < N
                invariant
                    i < values.len(),
                    j <= N,
                    flat.len() == i * N + j,
                    forall|t: int|
                        0 <= t < i * N + j ==> (#[trigger] flat@[t])@ == values@[t / (
                        N as int)]@[t % (N as int)]@,
                decreases N - j,
            {
                proof {
                    crate::interleave::lemma_split_index(j as int, i as int, N as int);
                }
                flat.push(values[i][j]);
                j = j + 1;
            }
            proof {
                assert(i * N + N == (i + 1) * N) by (nonlinear_arith);
            }
            i = i + 1;
        }
        let layer = FriProofLayer { values: flat, proofs };
        proof {
            assert(layer@.values =~= flattened(values@));
        }
        layer
    }

    /// A layer with the given values, those of the tuples one after the other, and
    /// the tuples' paths.
    pub fn from_values(values: Vec<Felt>, proofs: Vec<MerkleProof>) -> (layer: FriProofLayer)
        ensures
            layer@.values == crate::field::values(values@),
            layer@.paths == path_models(proofs@),
    {
        FriProofLayer { values, proofs }
    }

    /// The opened tuples, one after the other.
    pub fn values(&self) -> (res: &Vec<Felt>)
        ensures
            values(res@) == self@.values,
    {
        &self.values
    }

    /// The paths, one for each tuple.
    pub fn proofs(&self) -> (res: &Vec<MerkleProof>)
        ensures
            path_models(res@) == self@.paths,
    {
        &self.proofs
    }
}

/// A proof that a committed codeword is close to a polynomial of low degree.
#[derive(Clone, Debug)]
pub struct FriProof {
    layers: Vec<FriProofLayer>,
    remainder: Vec<Felt>,
}

impl View for FriProof {
    type V = ProofModel;

    closed spec fn view(&self) -> ProofModel {
        ProofModel { layers: layer_models(self.layers@), remainder: values(self.remainder@) }
    }
}

impl FriProof {
    /// A proof with the given layers and remainder.
    pub fn new(layers: Vec<FriProofLayer>, remainder: Vec<Felt>) -> (proof: FriProof)
        ensures
            proof@.layers == layer_models(layers@),
            proof@.remainder == values(remainder@),
    {
        FriProof { layers, remainder }
    }

    /// The layers, first layer first.
    pub fn layers(&self) -> (res: &Vec<FriProofLayer>)
        ensures
            layer_models(res@) == self@.layers,
    {
        &self.layers
    }

    /// The remainder, in natural order.
    pub fn remainder(&self) -> (res: &Vec<Felt>)
        ensures
            values(res@) == self@.remainder,
    {
        &self.remainder
    }
}

} // verus!
