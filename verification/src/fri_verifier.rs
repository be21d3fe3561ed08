//! The verifier: it derives each layer's challenge from the proof's commitments, and
//! checks the opened tuples against the commitments, against the next layer, and
//! the remainder against its degree bound.

use crate::channel::after_draw;
use crate::channel::drawn_value;
use crate::channel::reseeded;
use crate::channel::CoinState;
use crate::channel::PublicCoin;
use crate::domain::coset_ifft;
use crate::domain::coset_point;
use crate::domain::fft_on_coset;
use crate::domain::ifft_on_coset;
use crate::domain::next_power_of_two;
use crate::domain::smallest_power_of_two;
use crate::domain::CosetDomain;
use crate::domain::DomainModel;
use crate::drp::fold_coeffs;
use crate::field::field_generator;
use crate::field::is_power_of_two;
use crate::field::root_of_unity;
use crate::field::values;
use crate::field::Felt;
use crate::field::MAX_DOMAIN_SIZE;
use crate::fri_proof::FriProof;
use crate::fri_proof::ProofLayerModel;
use crate::hash::byte_strings;
use crate::hash::copy_bytes;
use crate::hash::hash_tuple;
use crate::hash::same_bytes;
use crate::merkle::power_of_two;
use crate::field::lemma_values_subrange;
use crate::options::folded_len;
use crate::options::lemma_folded_len_bound;
use crate::options::lemma_supported_power_of_two;
use crate::options::FriOptions;
use crate::positions::fold_positions;
use crate::positions::residues;
use crate::positions::strictly_ascending;
use crate::verdict::authentic;
use crate::verdict::colinear;
use crate::verdict::folded_tuple;
use crate::verdict::layer_len;
use crate::verdict::layer_shaped;
use crate::verdict::next_value;
use crate::verdict::opened_tuple;
use crate::verdict::path_valid;
use crate::verdict::query_positions;
use crate::verdict::remainder_consistent;
use crate::verdict::remainder_low_degree;
use crate::verdict::tuple_colinear;
use crate::verdict::verdict;
use crate::verdict::well_shaped;
use crate::verdict::VerifierModel;
use vstd::prelude::*;

verus! {

/// Which check a proof failed.
#[derive(Clone, Copy, Debug, PartialEq, Eq, Structural)]
pub enum RejectionReason {
    /// The proof has not the layers, tuples and paths that the positions ask for, or a
    /// path does not lead from its tuple to the layer's commitment.
    InvalidPath,
    /// A tuple does not fold to the value that the next layer holds.
    Colinearity,
    /// The remainder's degree is not below its bound.
    RemainderDegree,
    /// The remainder's polynomial does not take the remainder's values.
    RemainderInterpolation,
}

/// Why a proof was not accepted.
#[derive(Clone, Copy, Debug, PartialEq, Eq, Structural)]
pub enum VerificationError {
    /// A codeword of the first size could not be divided evenly by the folding
    /// factor (second) at the layer (third).
    CodewordTruncation(usize, usize, usize),
    /// The proof failed a check.
    VerificationRejection(RejectionReason),
}

/// The root that a layer of a proof claims: that of its first path.
pub open spec fn claimed_root(layer: ProofLayerModel) -> Seq<u8> {
    layer.paths[0].root
}

/// The state of the coin before layer `i` is absorbed: for each layer before it, the
/// claimed root was absorbed and a challenge was drawn.
pub open spec fn coin_before_layer(coin: CoinState, layers: Seq<ProofLayerModel>, i: nat) -> CoinState
    decreases i,
{
    if i == 0 {
        coin
    } else {
        after_draw(
            reseeded(coin_before_layer(coin, layers, (i - 1) as nat), claimed_root(layers[i - 1])),
        )
    }
}

/// The challenge of layer `i`: it is drawn after the layer's claimed root was
/// absorbed.
pub open spec fn layer_challenge(coin: CoinState, layers: Seq<ProofLayerModel>, i: nat) -> nat {
    drawn_value(reseeded(coin_before_layer(coin, layers, i), claimed_root(layers[i as int])))
}

/// Whether layer `i` of `count`, not the last, holds a codeword that the folding
/// factor does not divide evenly. The first layer holds `n` values.
pub open spec fn truncated_at(n: nat, k: nat, count: nat, i: nat) -> bool {
    i + 1 != count && folded_len(n, k, i) % k != 0
}

/// The positions at which layer `l` is opened, given those of the layer before.
spec fn positions_before(folded: Seq<Vec<usize>>, positions: Seq<usize>, l: int) -> Seq<usize> {
    if l == 0 {
        positions
    } else {
        folded[l - 1]@
    }
}

/// `folded` holds, for each of its layers, the positions at which the layer is
/// opened, with what is known of a folding.
spec fn positions_folded(folded: Seq<Vec<usize>>, v: VerifierModel, positions: Seq<usize>) -> bool {
    forall|l: int|
        0 <= l < folded.len() ==> {
            &&& (#[trigger] folded[l])@ == query_positions(v, positions, l as nat)
            &&& strictly_ascending(folded[l]@)
            &&& forall|j: int| 0 <= j < folded[l]@.len() ==> folded[l]@[j] < layer_len(v, (l + 1) as nat)
            &&& forall|x: usize|
                folded[l]@.contains(x) <==> residues(
                    positions_before(folded, positions, l),
                    layer_len(v, (l + 1) as nat) as usize,
                ).contains(x)
        }
}

/// Where `x` stands in `list`, if it does.
fn position_of(list: &Vec<usize>, x: usize) -> (at: Option<usize>)
    ensures
        match at {
            Some(i) => i < list.len() && list[i as int] == x,
            None => !list@.contains(x),
        },
{
    let mut i: usize = 0;
    while i < list.len()
        invariant
            i <= list.len(),
            forall|t: int| 0 <= t < i ==> list[t] != x,
        decreases list.len() - i,
    {
        if list[i] == x {
            return Some(i);
        }
        i = i + 1;
    }
    None
}

/// Whether two sequences of elements hold the same values.
fn same_elements(a: &Vec<Felt>, b: &Vec<Felt>) -> (r: bool)
    ensures
        r == (values(a@) == values(b@)),
{
    if a.len() != b.len() {
        proof {
            assert(values(a@).len() != values(b@).len());
        }
        return false;
    }
    let mut i: usize = 0;
    while i < a.len()
        invariant
            a.len() == b.len(),
            i <= a.len(),
            forall|t: int| 0 <= t < i ==> a[t]@ == b[t]@,
        decreases a.len() - i,
    {
        if a[i] != b[i] {
            proof {
                if a[i as int]@ == b[i as int]@ {
                    Felt::lemma_view_injective(a[i as int], b[i as int]);
                }
                assert(values(a@)[i as int] != values(b@)[i as int]);
            }
            return false;
        }
        i = i + 1;
    }
    proof {
        assert(values(a@) =~= values(b@));
    }
    true
}

/// The verifier of one proof.
#[derive(Debug)]
pub struct FriVerifier {
    options: FriOptions,
    layer_commitments: Vec<Vec<u8>>,
    layer_alphas: Vec<Felt>,
    domain: CosetDomain,
    codeword_len: usize,
}

impl View for FriVerifier {
    type V = VerifierModel;

    closed spec fn view(&self) -> VerifierModel {
        VerifierModel {
            options: self.options@,
            roots: byte_strings(self.layer_commitments@),
            alphas: values(self.layer_alphas@),
            domain: self.domain@,
            codeword_len: self.codeword_len as nat,
        }
    }
}

impl FriVerifier {
    /// What holds of every verifier: it has a challenge for each commitment, and its
    /// codeword is not longer than the field has room for.
    #[verifier::type_invariant]
    pub closed spec fn well_formed(self) -> bool {
        &&& self.layer_commitments.len() == self.layer_alphas.len()
        &&& self.codeword_len <= MAX_DOMAIN_SIZE
    }

    /// Sets a verifier up for a proof of a polynomial of degree below
    /// `max_poly_degree`: for each layer of the proof, the coin absorbs the root that
    /// the layer's first path claims and gives the layer's challenge. A layer, not the
    /// last, whose codeword the folding factor does not divide evenly ends the setup
    /// with an error.
    pub fn new(
        public_coin: &mut PublicCoin,
        options: FriOptions,
        proof: &FriProof,
        max_poly_degree: usize,
    ) -> (res: Result<FriVerifier, VerificationError>)
        requires
            next_power_of_two(max_poly_degree as nat) * options@.blowup_factor <= usize::MAX,
            next_power_of_two(next_power_of_two(max_poly_degree as nat) * options@.blowup_factor)
                <= MAX_DOMAIN_SIZE,
            next_power_of_two(next_power_of_two(max_poly_degree as nat) * options@.blowup_factor)
                <= usize::MAX,
            forall|i: int| 0 <= i < proof@.layers.len() ==> (#[trigger] proof@.layers[i]).paths.len() > 0,
        ensures
            ({
                let n = next_power_of_two(max_poly_degree as nat) * options@.blowup_factor;
                let k = options@.folding_factor;
                let layers = proof@.layers;
                match res {
                    Ok(verifier) => {
                        &&& forall|i: nat| i < layers.len() ==> !truncated_at(n, k, layers.len(), i)
                        &&& verifier@.options == options@
                        &&& verifier@.roots == Seq::new(
                            layers.len(),
                            |i: int| claimed_root(layers[i]),
                        )
                        &&& verifier@.alphas == Seq::new(
                            layers.len(),
                            |i: int| layer_challenge(old(public_coin)@, layers, i as nat),
                        )
                        &&& verifier@.domain == (DomainModel {
                            size: next_power_of_two(n),
                            offset: field_generator(),
                        })
                        &&& verifier@.codeword_len == n
                        &&& final(public_coin)@ == coin_before_layer(
                            old(public_coin)@,
                            layers,
                            layers.len(),
                        )
                    },
                    Err(e) => exists|i: nat|
                        {
                            &&& i < layers.len()
                            &&& #[trigger] truncated_at(n, k, layers.len(), i)
                            &&& forall|j: nat| j < i ==> !truncated_at(n, k, layers.len(), j)
                            &&& match e {
                                VerificationError::CodewordTruncation(size, factor, layer) => {
                                    size == folded_len(n, k, i) && factor == k && layer == i
                                },
                                _ => false,
                            }
                            &&& final(public_coin)@ == coin_before_layer(
                                old(public_coin)@,
                                layers,
                                i + 1,
                            )
                        },
                }
            }),
    {
        let folding_factor = options.folding_factor();
        let domain_offset = options.domain_offset();
        let blowup_factor = options.blowup_factor();
        proof {
            let p = next_power_of_two(max_poly_degree as nat);
            assert(p <= p * blowup_factor) by (nonlinear_arith)
                requires
                    blowup_factor >= 1,
            ;
        }
        let domain_size = smallest_power_of_two(max_poly_degree) * blowup_factor;
        let domain = CosetDomain::new_coset(domain_size, domain_offset).unwrap();
        let ghost n = domain_size as nat;
        let ghost k = folding_factor as nat;
        let ghost layers = proof@.layers;
        let ghost start = public_coin@;
        proof {
            crate::domain::lemma_next_power_of_two(n);
        }
        let mut layer_alphas: Vec<Felt> = Vec::new();
        let mut layer_commitments: Vec<Vec<u8>> = Vec::new();
        let mut layer_codeword_len: usize = domain_size;
        let count = proof.layers().len();
        let mut i: usize = 0;
        while i < count
            invariant
                count == proof@.layers.len(),
                layers == proof@.layers,
                n == domain_size,
                n == next_power_of_two(max_poly_degree as nat) * options@.blowup_factor,
                k == folding_factor,
                k == options@.folding_factor,
                k >= 2,
                start == old(public_coin)@,
                forall|t: int| 0 <= t < layers.len() ==> (#[trigger] layers[t]).paths.len() > 0,
                i <= count,
                layer_codeword_len == folded_len(n, k, i as nat),
                layer_alphas.len() == i,
                layer_commitments.len() == i,
                forall|j: nat| j < i ==> !truncated_at(n, k, layers.len(), j),
                forall|t: int|
                    0 <= t < i ==> (#[trigger] layer_commitments@[t])@ == claimed_root(layers[t]),
                forall|t: int|
                    0 <= t < i ==> (#[trigger] layer_alphas@[t])@ == layer_challenge(
                        start,
                        layers,
                        t as nat,
                    ),
                public_coin@ == coin_before_layer(start, layers, i as nat),
            decreases count - i,
        {
            let layer = &proof.layers()[i];
            let paths = layer.proofs();
            proof {
                assert(layer@ == layers[i as int]);
                assert(paths.len() == layer@.paths.len());
                assert(paths@[0]@ == layer@.paths[0]);
            }
            let layer_root = copy_bytes(paths[0].root());
            public_coin.reseed(&layer_root);
            let alpha = public_coin.draw();
            layer_alphas.push(alpha);
            layer_commitments.push(layer_root);
            proof {
                assert(public_coin@ == coin_before_layer(start, layers, (i + 1) as nat));
            }
            if i != count - 1 && layer_codeword_len % folding_factor != 0 {
                proof {
                    let w = i as nat;
                    assert(truncated_at(n, k, layers.len(), w));
                }
                return Err(
                    VerificationError::CodewordTruncation(layer_codeword_len, folding_factor, i),
                );
            }
            layer_codeword_len = layer_codeword_len / folding_factor;
            i = i + 1;
        }
        let verifier = FriVerifier {
            options,
            domain,
            layer_commitments,
            layer_alphas,
            codeword_len: domain_size,
        };
        proof {
            assert(verifier@.roots =~= Seq::new(layers.len(), |i: int| claimed_root(layers[i])));
            assert(verifier@.alphas =~= Seq::new(
                layers.len(),
                |i: int| layer_challenge(start, layers, i as nat),
            ));
        }
        Ok(verifier)
    }

    /// The positions at which each layer of the proof is opened, if the proof has the
    /// shape that the verifier and the positions ask for.
    fn fold_query_positions(&self, proof: &FriProof, positions: &[usize]) -> (res: Option<
        Vec<Vec<usize>>,
    >)
        ensures
            res.is_some() <==> well_shaped(self@, proof@, positions@),
            res.is_some() ==> res.unwrap().len() == proof@.layers.len() && positions_folded(
                res.unwrap()@,
                self@,
                positions@,
            ),
    {
        proof {
            use_type_invariant(self);
        }
        let k = self.options.folding_factor();
        let count = proof.layers().len();
        if count != self.layer_alphas.len() || count != self.options.num_layers(self.codeword_len) {
            return None;
        }
        let ghost v = self@;
        let ghost model = proof@;
        let ghost asked = positions@;
        let mut folded: Vec<Vec<usize>> = Vec::new();
        let mut size: usize = self.codeword_len;
        let mut l: usize = 0;
        while l < count
            invariant
                v == self@,
                model == proof@,
                asked == positions@,
                count == model.layers.len(),
                count == v.alphas.len(),
                k == v.options.folding_factor,
                k >= 2,
                l <= count,
                size == layer_len(v, l as nat),
                folded.len() == l,
                positions_folded(folded@, v, asked),
                forall|t: nat| t < l ==> #[trigger] layer_shaped(v, model, asked, t),
            decreases count - l,
        {
            if !power_of_two(size) || size < k {
                proof {
                    assert(!layer_shaped(v, model, asked, l as nat));
                }
                return None;
            }
            let leaves: usize = size / k;
            let layer = &proof.layers()[l];
            let paths = layer.proofs();
            let tuples = layer.values();
            proof {
                assert(layer@ == model.layers[l as int]);
                assert(paths.len() == layer@.paths.len());
                assert(tuples.len() == layer@.values.len());
                assert(leaves >= 1) by (nonlinear_arith)
                    requires
                        leaves == size / k,
                        size >= k,
                        k >= 2,
                ;
                assert(layer_len(v, (l + 1) as nat) == leaves);
            }
            let ghost before = folded@;
            let here = if l == 0 {
                fold_positions(positions, leaves)
            } else {
                fold_positions(folded[l - 1].as_slice(), leaves)
            };
            proof {
                assert(positions_before(before, asked, l as int) == if l == 0 {
                    asked
                } else {
                    before[l - 1]@
                });
                if l > 0 {
                    assert(before[l - 1]@ == query_positions(v, asked, (l - 1) as nat));
                }
                assert(here@ == query_positions(v, asked, l as nat));
            }
            if paths.len() != here.len() || tuples.len() / k != paths.len() || tuples.len() % k
                != 0 {
                proof {
                    vstd::arithmetic::div_mod::lemma_fundamental_div_mod(
                        tuples.len() as int,
                        k as int,
                    );
                    if tuples.len() == k * paths.len() {
                        vstd::arithmetic::div_mod::lemma_fundamental_div_mod_converse(
                            tuples.len() as int,
                            k as int,
                            paths.len() as int,
                            0,
                        );
                    }
                    assert(!layer_shaped(v, model, asked, l as nat));
                }
                return None;
            }
            proof {
                vstd::arithmetic::div_mod::lemma_fundamental_div_mod(tuples.len() as int, k as int);
                assert(layer_shaped(v, model, asked, l as nat));
            }
            folded.push(here);
            proof {
                assert forall|t: int| 0 <= t < folded@.len() implies {
                    &&& (#[trigger] folded@[t])@ == query_positions(v, asked, t as nat)
                    &&& strictly_ascending(folded@[t]@)
                    &&& forall|j: int|
                        0 <= j < folded@[t]@.len() ==> folded@[t]@[j] < layer_len(
                            v,
                            (t + 1) as nat,
                        )
                    &&& forall|x: usize|
                        folded@[t]@.contains(x) <==> residues(
                            positions_before(folded@, asked, t),
                            layer_len(v, (t + 1) as nat) as usize,
                        ).contains(x)
                } by {
                    if t < l {
                        assert(folded@[t] == before[t]);
                        assert(positions_before(folded@, asked, t) == positions_before(
                            before,
                            asked,
                            t,
                        ));
                    } else {
                        assert(folded@[t] == here);
                        assert(positions_before(folded@, asked, t) == positions_before(
                            before,
                            asked,
                            t,
                        ));
                    }
                }
            }
            size = leaves;
            l = l + 1;
        }
        let remainder = proof.remainder();
        if remainder.len() != size || !power_of_two(size) {
            return None;
        }
        Some(folded)
    }

    /// Whether every path of every layer claims the layer's commitment and leads to
    /// it from the digest of its tuple.
    fn check_paths(&self, proof: &FriProof, positions: Ghost<Seq<usize>>, folded: &Vec<Vec<usize>>) -> (ok:
        bool)
        requires
            well_shaped(self@, proof@, positions@),
            folded.len() == proof@.layers.len(),
            positions_folded(folded@, self@, positions@),
        ensures
            ok == authentic(self@, proof@, positions@),
    {
        proof {
            use_type_invariant(self);
        }
        let k = self.options.folding_factor();
        let count = proof.layers().len();
        let ghost v = self@;
        let ghost model = proof@;
        let ghost asked = positions@;
        let mut size: usize = self.codeword_len;
        let mut l: usize = 0;
        while l < count
            invariant
                v == self@,
                model == proof@,
                asked == positions@,
                well_shaped(v, model, asked),
                folded.len() == count,
                positions_folded(folded@, v, asked),
                count == model.layers.len(),
                count == self.layer_commitments.len(),
                k == v.options.folding_factor,
                k >= 2,
                l <= count,
                size == layer_len(v, l as nat),
                forall|t: nat, j: nat|
                    t < l && j < model.layers[t as int].paths.len() ==> #[trigger] path_valid(
                        v,
                        model,
                        asked,
                        t,
                        j,
                    ),
            decreases count - l,
        {
            let layer = &proof.layers()[l];
            let paths = layer.proofs();
            let tuples = layer.values();
            let here = &folded[l];
            let leaves: usize = size / k;
            proof {
                assert(layer_shaped(v, model, asked, l as nat));
                assert(layer@ == model.layers[l as int]);
                assert(here@ == query_positions(v, asked, l as nat));
                assert(layer_len(v, (l + 1) as nat) == leaves);
            }
            let mut j: usize = 0;
            while j < paths.len()
                invariant
                    v == self@,
                    model == proof@,
                    asked == positions@,
                    layer@ == model.layers[l as int],
                    crate::fri_proof::path_models(paths@) == layer@.paths,
                    values(tuples@) == layer@.values,
                    tuples.len() == k * paths.len(),
                    here@ == query_positions(v, asked, l as nat),
                    here.len() == paths.len(),
                    l < count,
                    count == model.layers.len(),
                    count == self.layer_commitments.len(),
                    k == v.options.folding_factor,
                    k >= 2,
                    size == layer_len(v, l as nat),
                    leaves == size / k,
                    j <= paths.len(),
                    forall|t: nat, j: nat|
                        t < l && j < model.layers[t as int].paths.len() ==> #[trigger] path_valid(
                            v,
                            model,
                            asked,
                            t,
                            j,
                        ),
                    forall|t: nat| t < j ==> #[trigger] path_valid(v, model, asked, l as nat, t),
                decreases paths.len() - j,
            {
                proof {
                    assert(j * k + k <= tuples.len()) by (nonlinear_arith)
                        requires
                            j < paths.len(),
                            tuples.len() == k * paths.len(),
                    ;
                    lemma_values_subrange(tuples@, j * k, j * k + k);
                    assert(paths@[j as int]@ == layer@.paths[j as int]);
                    assert(self.layer_commitments@[l as int]@ == v.roots[l as int]);
                }
                let path = &paths[j];
                let tuple = vstd::slice::slice_subrange(tuples.as_slice(), j * k, j * k + k);
                let digest = hash_tuple(tuple);
                let valid = same_bytes(path.root(), &self.layer_commitments[l]) && same_bytes(
                    path.leaf(),
                    &digest,
                ) && path.verify(here[j], leaves);
                proof {
                    assert(valid == path_valid(v, model, asked, l as nat, j as nat));
                }
                if !valid {
                    proof {
                        assert(!path_valid(v, model, asked, l as nat, j as nat));
                        assert(j < model.layers[l as int].paths.len());
                    }
                    return false;
                }
                j = j + 1;
            }
            size = leaves;
            l = l + 1;
        }
        true
    }

    /// The value that the proof holds for entry `p` of the codeword after layer `l`,
    /// where `p` is one of the positions at which layer `l` is opened.
    fn value_after_layer(
        &self,
        proof: &FriProof,
        positions: Ghost<Seq<usize>>,
        folded: &Vec<Vec<usize>>,
        l: usize,
        j: usize,
    ) -> (value: Felt)
        requires
            well_shaped(self@, proof@, positions@),
            folded.len() == proof@.layers.len(),
            positions_folded(folded@, self@, positions@),
            l < folded.len(),
            j < folded[l as int]@.len(),
        ensures
            value@ == next_value(
                self@,
                proof@,
                positions@,
                l as nat,
                folded[l as int]@[j as int] as nat,
            ),
    {
        proof {
            use_type_invariant(self);
        }
        let k = self.options.folding_factor();
        let count = proof.layers().len();
        let p = folded[l][j];
        let ghost v = self@;
        let ghost model = proof@;
        let ghost asked = positions@;
        proof {
            assert(folded@[l as int]@[j as int] < layer_len(v, (l + 1) as nat));
        }
        if l + 1 < count {
            let next = &proof.layers()[l + 1];
            let tuples = next.values();
            let there = &folded[l + 1];
            proof {
                lemma_folded_len_bound(v.codeword_len, k as nat, (l + 1) as nat);
                lemma_folded_len_bound(v.codeword_len, k as nat, (l + 2) as nat);
            }
            let ghost size = layer_len(v, (l + 1) as nat);
            let ghost leaves_here = layer_len(v, (l + 2) as nat);
            proof {
                assert(layer_shaped(v, model, asked, (l + 1) as nat));
                assert(next@ == model.layers[l + 1]);
                lemma_supported_power_of_two(k as nat);
                crate::domain::lemma_power_of_two_quotient(size, k as nat);
                assert(leaves_here == size / (k as nat));
                assert(leaves_here >= 1) by (nonlinear_arith)
                    requires
                        leaves_here * k == size,
                        size >= k,
                        k >= 2,
                ;
            }
            let leaves: usize = self.leaves_of_layer(l + 1);
            let q: usize = p % leaves;
            let slot: usize = p / leaves;
            proof {
                assert(there@ == query_positions(v, asked, (l + 1) as nat));
                assert(positions_before(folded@, asked, l + 1) == folded@[l as int]@);
                assert(folded@[l as int]@[j as int] % leaves == q);
                assert(residues(folded@[l as int]@, leaves).contains(q));
                assert(there@.contains(q));
            }
            match position_of(there, q) {
                Some(at) => {
                    proof {
                        let chosen = there@.index_of(q);
                        assert(0 <= chosen < there@.len() && there@[chosen] == q);
                        if chosen < at {
                            assert(there@[chosen] < there@[at as int]);
                        }
                        if at < chosen {
                            assert(there@[at as int] < there@[chosen]);
                        }
                        assert(chosen == at);
                        vstd::arithmetic::div_mod::lemma_fundamental_div_mod(p as int, leaves as int);
                        assert(slot < k) by (nonlinear_arith)
                            requires
                                p < size,
                                leaves * k == size,
                                p == leaves * slot + q,
                                0 <= q,
                                leaves >= 1,
                        ;
                        assert(at * k + slot < tuples.len()) by (nonlinear_arith)
                            requires
                                at < there.len(),
                                tuples.len() == k * there.len(),
                                slot < k,
                        ;
                    }
                    tuples[at * k + slot]
                },
                None => Felt::zero(),
            }
        } else {
            let remainder = proof.remainder();
            remainder[p]
        }
    }

    /// The number of leaves of layer `l`: the length of its codeword divided by the
    /// folding factor.
    fn leaves_of_layer(&self, l: usize) -> (leaves: usize)
        ensures
            leaves == layer_len(self@, (l + 1) as nat),
    {
        let k = self.options.folding_factor();
        let mut size: usize = self.codeword_len;
        let mut i: usize = 0;
        while i <= l
            invariant
                k == self@.options.folding_factor,
                k >= 2,
                i <= l + 1,
                size == layer_len(self@, i as nat),
            decreases l + 1 - i,
        {
            size = size / k;
            if i == l {
                return size;
            }
            i = i + 1;
        }
        size
    }

    /// Whether every tuple of every layer folds to the value that the proof holds for
    /// it.
    fn check_colinearity(
        &self,
        proof: &FriProof,
        positions: Ghost<Seq<usize>>,
        folded: &Vec<Vec<usize>>,
    ) -> (ok: bool)
        requires
            well_shaped(self@, proof@, positions@),
            folded.len() == proof@.layers.len(),
            positions_folded(folded@, self@, positions@),
        ensures
            ok == colinear(self@, proof@, positions@),
    {
        proof {
            use_type_invariant(self);
        }
        let k = self.options.folding_factor();
        let generator = self.options.domain_offset();
        let count = proof.layers().len();
        let ghost v = self@;
        let ghost model = proof@;
        let ghost asked = positions@;
        let mut size: usize = self.codeword_len;
        let mut l: usize = 0;
        while l < count
            invariant
                v == self@,
                model == proof@,
                asked == positions@,
                well_shaped(v, model, asked),
                folded.len() == count,
                positions_folded(folded@, v, asked),
                count == model.layers.len(),
                count == self.layer_alphas.len(),
                k == v.options.folding_factor,
                crate::options::supported_folding_factor(k as nat),
                generator@ == field_generator(),
                l <= count,
                size == layer_len(v, l as nat),
                v.codeword_len <= MAX_DOMAIN_SIZE,
                forall|t: nat, j: nat|
                    t < l && j < model.layers[t as int].paths.len() ==> #[trigger] tuple_colinear(
                        v,
                        model,
                        asked,
                        t,
                        j,
                    ),
            decreases count - l,
        {
            let layer = &proof.layers()[l];
            let tuples = layer.values();
            let here = &folded[l];
            let alpha = self.layer_alphas[l];
            proof {
                assert(layer_shaped(v, model, asked, l as nat));
                assert(layer@ == model.layers[l as int]);
                assert(here@ == query_positions(v, asked, l as nat));
                lemma_folded_len_bound(v.codeword_len, k as nat, l as nat);
                lemma_supported_power_of_two(k as nat);
                assert(alpha@ == v.alphas[l as int]);
            }
            let omega = Felt::root_of_unity(size as u64);
            let mut j: usize = 0;
            while j < here.len()
                invariant
                    v == self@,
                    model == proof@,
                    asked == positions@,
                    well_shaped(v, model, asked),
                    folded.len() == count,
                    positions_folded(folded@, v, asked),
                    layer@ == model.layers[l as int],
                    values(tuples@) == layer@.values,
                    tuples.len() == k * here.len(),
                    here == folded@[l as int],
                    here@ == query_positions(v, asked, l as nat),
                    here.len() == layer@.paths.len(),
                    l < count,
                    count == model.layers.len(),
                    k == v.options.folding_factor,
                    is_power_of_two(k as nat),
                    2 <= k <= 16,
                    generator@ == field_generator(),
                    omega@ == root_of_unity(size as nat),
                    omega@ != 0,
                    alpha@ == v.alphas[l as int],
                    size == layer_len(v, l as nat),
                    j <= here.len(),
                    forall|t: nat, j: nat|
                        t < l && j < model.layers[t as int].paths.len()
                            ==> #[trigger] tuple_colinear(v, model, asked, t, j),
                    forall|t: nat| t < j ==> #[trigger] tuple_colinear(v, model, asked, l as nat, t),
                decreases here.len() - j,
            {
                proof {
                    assert(j * k + k <= tuples.len()) by (nonlinear_arith)
                        requires
                            j < here.len(),
                            tuples.len() == k * here.len(),
                    ;
                    lemma_values_subrange(tuples@, j * k, j * k + k);
                }
                let p = here[j];
                let point = generator.mul(omega.pow(p as u64));
                let tuple = vstd::slice::slice_to_vec(
                    vstd::slice::slice_subrange(tuples.as_slice(), j * k, j * k + k),
                );
                let coeffs = ifft_on_coset(&tuple, point);
                let combined = fold_coeffs(&coeffs, alpha, k);
                let expected = self.value_after_layer(proof, positions, folded, l, j);
                proof {
                    assert(values(tuple@) == opened_tuple(layer@, k as nat, j as nat));
                    assert(point@ == coset_point(size as nat, field_generator(), p as nat));
                    assert(tuple.len() == k);
                    assert((k as int) / (k as int) == 1) by (nonlinear_arith)
                        requires
                            k >= 1,
                    ;
                    assert(combined.len() == 1);
                    assert(values(combined@)[0] == combined@[0]@);
                    assert(combined@[0]@ == folded_tuple(values(tuple@), point@, alpha@));
                    if combined@[0]@ == expected@ {
                        Felt::lemma_view_injective(combined@[0], expected);
                    }
                    assert((combined@[0] == expected) == tuple_colinear(
                        v,
                        model,
                        asked,
                        l as nat,
                        j as nat,
                    ));
                }
                if combined[0] != expected {
                    return false;
                }
                j = j + 1;
            }
            size = size / k;
            l = l + 1;
        }
        true
    }

    /// Checks the remainder: its polynomial has a degree below the bound, and takes
    /// the remainder's values. `None` where both hold.
    fn check_remainder(&self, proof: &FriProof) -> (failed: Option<RejectionReason>)
        requires
            is_power_of_two(proof@.remainder.len()),
            proof@.remainder.len() <= MAX_DOMAIN_SIZE,
        ensures
            failed == if !remainder_low_degree(self@, proof@) {
                Some(RejectionReason::RemainderDegree)
            } else if !remainder_consistent(proof@) {
                Some(RejectionReason::RemainderInterpolation)
            } else {
                None
            },
    {
        let remainder = proof.remainder();
        let generator = self.options.domain_offset();
        let coeffs = ifft_on_coset(remainder, generator);
        let bound: usize = remainder.len() / self.options.blowup_factor();
        if bound == 0 {
            return Some(RejectionReason::RemainderDegree);
        }
        let mut i: usize = bound;
        while i < coeffs.len()
            invariant
                0 < bound <= i,
                bound == proof@.remainder.len() / self@.options.blowup_factor,
                values(coeffs@) == coset_ifft(proof@.remainder, field_generator()),
                forall|t: int| bound <= t < i && t < coeffs.len() ==> values(coeffs@)[t] == 0,
            decreases coeffs.len() - i,
        {
            if !coeffs[i].is_zero() {
                proof {
                    assert(values(coeffs@)[i as int] != 0);
                }
                return Some(RejectionReason::RemainderDegree);
            }
            i = i + 1;
        }
        let evals = fft_on_coset(&coeffs, generator);
        if !same_elements(&evals, remainder) {
            return Some(RejectionReason::RemainderInterpolation);
        }
        None
    }

    /// Verifies the proof at the query positions, which are leaves of the first
    /// layer. The proof is accepted if it has the shape that the positions ask for,
    /// every opened tuple is authentic under its layer's commitment and folds to the
    /// value that the proof holds in the next layer or the remainder, and the
    /// remainder has a low degree. The first of these checks that fails, in this
    /// order, is the reason for a rejection.
    pub fn verify(&self, proof: &FriProof, positions: &[usize]) -> (res: Result<
        (),
        VerificationError,
    >)
        ensures
            res == verdict(self@, proof@, positions@),
            res.is_ok() <==> {
                &&& well_shaped(self@, proof@, positions@)
                &&& authentic(self@, proof@, positions@)
                &&& colinear(self@, proof@, positions@)
                &&& remainder_low_degree(self@, proof@)
                &&& remainder_consistent(proof@)
            },
    {
        proof {
            use_type_invariant(self);
        }
        let folded = match self.fold_query_positions(proof, positions) {
            Some(folded) => folded,
            None => {
                return Err(VerificationError::VerificationRejection(RejectionReason::InvalidPath));
            },
        };
        if !self.check_paths(proof, Ghost(positions@), &folded) {
            return Err(VerificationError::VerificationRejection(RejectionReason::InvalidPath));
        }
        if !self.check_colinearity(proof, Ghost(positions@), &folded) {
            return Err(VerificationError::VerificationRejection(RejectionReason::Colinearity));
        }
        proof {
            lemma_folded_len_bound(
                self@.codeword_len,
                self@.options.folding_factor,
                proof@.layers.len(),
            );
        }
        match self.check_remainder(proof) {
            Some(reason) => Err(VerificationError::VerificationRejection(reason)),
            None => Ok(()),
        }
    }

    /// The options that the verifier was set up with.
    pub fn options(&self) -> (options: FriOptions)
        ensures
            options@ == self@.options,
    {
        self.options
    }

    /// The commitment to each layer.
    pub fn layer_commitments(&self) -> (roots: &Vec<Vec<u8>>)
        ensures
            byte_strings(roots@) == self@.roots,
    {
        &self.layer_commitments
    }

    /// The challenge of each layer.
    pub fn layer_alphas(&self) -> (alphas: &Vec<Felt>)
        ensures
            values(alphas@) == self@.alphas,
    {
        &self.layer_alphas
    }

    /// The evaluation domain of the first layer.
    pub fn domain(&self) -> (domain: CosetDomain)
        ensures
            domain@ == self@.domain,
    {
        self.domain
    }
}

} // verus!
