//! What holds of proofs that were changed after they were accepted.

use crate::fri_proof::ProofModel;
use crate::verdict::authentic;
use crate::verdict::colinear;
use crate::verdict::layer_len;
use crate::verdict::layer_shaped;
use crate::verdict::path_valid;
use crate::verdict::query_positions;
use crate::verdict::tuple_colinear;
use crate::verdict::verdict;
use crate::verdict::well_shaped;
use crate::fri_verifier::RejectionReason;
use crate::fri_verifier::VerificationError;
use crate::verdict::VerifierModel;
use vstd::prelude::*;

verus! {

/// A changed remainder is rejected: if a proof with a layer at least is accepted,
/// the same proof with another value in the remainder, at an entry that one of the
/// last layer's tuples folds to, fails the colinearity check.
pub proof fn lemma_changed_remainder_rejected(
    v: VerifierModel,
    accepted: ProofModel,
    changed: ProofModel,
    positions: Seq<usize>,
    j: nat,
)
    requires
        verdict(v, accepted, positions).is_ok(),
        accepted.layers.len() >= 1,
        changed.layers == accepted.layers,
        changed.remainder.len() == accepted.remainder.len(),
        j < query_positions(v, positions, (accepted.layers.len() - 1) as nat).len(),
        ({
            let p = query_positions(v, positions, (accepted.layers.len() - 1) as nat)[j as int];
            changed.remainder[p as int] != accepted.remainder[p as int]
        }),
    ensures
        verdict(v, changed, positions) == Err::<(), VerificationError>(
            VerificationError::VerificationRejection(RejectionReason::Colinearity),
        ),
{
    let last = (accepted.layers.len() - 1) as nat;
    assert(well_shaped(v, accepted, positions));
    assert forall|l: nat| l < changed.layers.len() implies #[trigger] layer_shaped(
        v,
        changed,
        positions,
        l,
    ) by {
        assert(layer_shaped(v, accepted, positions, l));
    }
    assert(well_shaped(v, changed, positions));
    assert forall|l: nat, t: nat|
        l < changed.layers.len() && t < changed.layers[l as int].paths.len() implies #[trigger] path_valid(
        v,
        changed,
        positions,
        l,
        t,
    ) by {
        assert(path_valid(v, accepted, positions, l, t));
    }
    assert(authentic(v, changed, positions));
    assert(layer_shaped(v, accepted, positions, last));
    assert(tuple_colinear(v, accepted, positions, last, j));
    assert(!tuple_colinear(v, changed, positions, last, j));
    assert(!colinear(v, changed, positions));
}

/// A changed value in a layer after the first is rejected: if a proof is accepted,
/// the same proof with another value in layer `l + 1`, at the entry that tuple `j` of
/// layer `l` folds to, fails the check of the paths or the colinearity check.
pub proof fn lemma_changed_value_rejected(
    v: VerifierModel,
    accepted: ProofModel,
    changed: ProofModel,
    positions: Seq<usize>,
    l: nat,
    j: nat,
)
    requires
        verdict(v, accepted, positions).is_ok(),
        l + 1 < accepted.layers.len(),
        j < query_positions(v, positions, l).len(),
        changed.layers.len() == accepted.layers.len(),
        changed.remainder == accepted.remainder,
        forall|m: int|
            0 <= m < accepted.layers.len() && m != l + 1 ==> changed.layers[m]
                == accepted.layers[m],
        ({
            let next = (l + 1) as int;
            &&& changed.layers[next].paths == accepted.layers[next].paths
            &&& changed.layers[next].values.len() == accepted.layers[next].values.len()
        }),
        ({
            let next = (l + 1) as int;
            let k = v.options.folding_factor;
            let p = query_positions(v, positions, l)[j as int] as nat;
            let leaves = layer_len(v, l + 2);
            let at = query_positions(v, positions, l + 1).index_of((p % leaves) as usize);
            changed.layers[next].values[at * k + p / leaves]
                != accepted.layers[next].values[at * k + p / leaves]
        }),
    ensures
        verdict(v, changed, positions) == Err::<(), VerificationError>(
            VerificationError::VerificationRejection(RejectionReason::InvalidPath),
        ) || verdict(v, changed, positions) == Err::<(), VerificationError>(
            VerificationError::VerificationRejection(RejectionReason::Colinearity),
        ),
{
    assert(well_shaped(v, accepted, positions));
    assert(layer_shaped(v, accepted, positions, l));
    assert(tuple_colinear(v, accepted, positions, l, j));
    assert(changed.layers[l as int] == accepted.layers[l as int]);
    assert(!tuple_colinear(v, changed, positions, l, j));
    assert(j < changed.layers[l as int].paths.len());
    assert(!colinear(v, changed, positions));
}

/// A changed path is rejected: if a proof is accepted, a proof with the same tuples
/// in a layer and another root or another leaf in one of the layer's paths fails the
/// check of the paths.
pub proof fn lemma_changed_path_rejected(
    v: VerifierModel,
    accepted: ProofModel,
    changed: ProofModel,
    positions: Seq<usize>,
    l: nat,
    j: nat,
)
    requires
        verdict(v, accepted, positions).is_ok(),
        l < accepted.layers.len(),
        j < accepted.layers[l as int].paths.len(),
        changed.layers.len() == accepted.layers.len(),
        changed.layers[l as int].values == accepted.layers[l as int].values,
        changed.layers[l as int].paths.len() == accepted.layers[l as int].paths.len(),
        changed.layers[l as int].paths[j as int].root != accepted.layers[l as int].paths[j as int].root
            || changed.layers[l as int].paths[j as int].leaf
            != accepted.layers[l as int].paths[j as int].leaf,
    ensures
        verdict(v, changed, positions) == Err::<(), VerificationError>(
            VerificationError::VerificationRejection(RejectionReason::InvalidPath),
        ),
{
    assert(path_valid(v, accepted, positions, l, j));
    assert(!path_valid(v, changed, positions, l, j));
    assert(!authentic(v, changed, positions));
}

} // verus!
