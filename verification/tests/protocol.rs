use ark_bls12_381::Fr;
use ark_ff::BigInt;
use ark_ff::FftField;
use ark_ff::PrimeField;
use ark_poly::EvaluationDomain;
use ark_poly::Radix2EvaluationDomain;
use fri::channel::PublicCoin;
use fri::field::Felt;
use fri::fri_proof::FriProof;
use fri::fri_proof::FriProofLayer;
use fri::fri_prover::FriProver;
use fri::fri_verifier::FriVerifier;
use fri::fri_verifier::RejectionReason;
use fri::fri_verifier::VerificationError;
use fri::merkle::MerkleProof;
use fri::options::FriOptions;

fn felt(x: &Fr) -> Felt {
    let l = x.into_bigint().0;
    Felt::from_limbs(l[0], l[1], l[2], l[3]).unwrap()
}

fn fr(x: &Felt) -> Fr {
    let (l0, l1, l2, l3) = x.limbs();
    Fr::from_bigint(BigInt::new([l0, l1, l2, l3])).unwrap()
}

/// The values of the polynomial with the given coefficients on the coset of `size`
/// points whose offset is the field's generator.
fn codeword(coeffs: &[Fr], size: usize) -> Vec<Felt> {
    let domain = Radix2EvaluationDomain::<Fr>::new_coset(size, Fr::GENERATOR).unwrap();
    domain
        .elements()
        .map(|x| {
            let mut acc = Fr::from(0u64);
            for c in coeffs.iter().rev() {
                acc = acc * x + c;
            }
            felt(&acc)
        })
        .collect()
}

/// Coefficients from a fixed linear congruential sequence.
fn coefficients(count: usize, seed: u64) -> Vec<Fr> {
    let mut state = seed;
    (0..count)
        .map(|_| {
            state = state.wrapping_mul(6364136223846793005).wrapping_add(1442695040888963407);
            let a = Fr::from(state);
            state = state.wrapping_mul(6364136223846793005).wrapping_add(1442695040888963407);
            a * Fr::from(state) + Fr::from(state >> 7)
        })
        .collect()
}

fn prove(options: FriOptions, evals: Vec<Felt>, seed: &[u8], positions: &[usize]) -> FriProof {
    let mut prover = FriProver::new(options);
    let mut channel = PublicCoin::new(&seed.to_vec());
    prover.build_layers(&mut channel, evals);
    prover.into_proof(positions)
}

fn verify(
    options: FriOptions,
    proof: &FriProof,
    degree: usize,
    seed: &[u8],
    positions: &[usize],
) -> Result<(), VerificationError> {
    let mut coin = PublicCoin::new(&seed.to_vec());
    let verifier = FriVerifier::new(&mut coin, options, proof, degree)?;
    verifier.verify(proof, positions)
}

fn with_layer_value(proof: &FriProof, layer: usize, index: usize, value: Felt) -> FriProof {
    let mut layers = Vec::new();
    for (i, l) in proof.layers().iter().enumerate() {
        let mut values = l.values().clone();
        if i == layer {
            values[index] = value;
        }
        layers.push(FriProofLayer::from_values(values, l.proofs().clone()));
    }
    FriProof::new(layers, proof.remainder().clone())
}

fn with_remainder_value(proof: &FriProof, index: usize, value: Felt) -> FriProof {
    let mut remainder = proof.remainder().clone();
    remainder[index] = value;
    FriProof::new(proof.layers().clone(), remainder)
}

fn with_path(proof: &FriProof, layer: usize, index: usize, path: MerkleProof) -> FriProof {
    let mut layers = Vec::new();
    for (i, l) in proof.layers().iter().enumerate() {
        let mut proofs = l.proofs().clone();
        if i == layer {
            proofs[index] = path.clone();
        }
        layers.push(FriProofLayer::from_values(l.values().clone(), proofs));
    }
    FriProof::new(layers, proof.remainder().clone())
}

fn rejected(reason: RejectionReason) -> Result<(), VerificationError> {
    Err(VerificationError::VerificationRejection(reason))
}

fn minimal() -> (FriOptions, FriProof) {
    let options = FriOptions::new(4, 2, 4).unwrap();
    let coeffs = vec![Fr::from(1u64), Fr::from(2u64)];
    (options, prove(options, codeword(&coeffs, 8), b"minimal", &[0, 1]))
}

fn multi_layer() -> (FriOptions, FriProof, Vec<usize>) {
    let options = FriOptions::new(4, 2, 16).unwrap();
    let positions = vec![0, 5, 17, 64, 77, 100, 126, 127];
    let proof = prove(options, codeword(&coefficients(64, 7), 256), b"multi", &positions);
    (options, proof, positions)
}

#[test]
fn minimal_proof_verifies() {
    let (options, proof) = minimal();
    assert_eq!(proof.layers().len(), 1);
    assert_eq!(proof.layers()[0].values().len(), 4);
    assert_eq!(proof.layers()[0].proofs().len(), 2);
    assert_eq!(proof.remainder().len(), 4);
    assert_eq!(verify(options, &proof, 2, b"minimal", &[0, 1]), Ok(()));
}

#[test]
fn minimal_remainder_is_the_folded_constant() {
    // 1 + 2x folded by 2 with alpha is the constant 1 + 2 * alpha.
    let (options, proof) = minimal();
    let mut coin = PublicCoin::new(&b"minimal".to_vec());
    let verifier = FriVerifier::new(&mut coin, options, &proof, 2).unwrap();
    assert_eq!(verifier.layer_alphas().len(), 1);
    assert_eq!(verifier.layer_commitments().len(), 1);
    assert_eq!(verifier.domain().size(), 8);
    assert_eq!(verifier.domain().offset(), Felt::from_u64(7));
    let alpha = fr(&verifier.layer_alphas()[0]);
    let expected = felt(&(Fr::from(1u64) + Fr::from(2u64) * alpha));
    assert_eq!(proof.remainder(), &vec![expected; 4]);
}

#[test]
fn folding_factor_four_proof_verifies() {
    let options = FriOptions::new(2, 4, 8).unwrap();
    let positions = [0, 3, 5, 7];
    let proof = prove(options, codeword(&coefficients(16, 1), 32), b"four", &positions);
    assert_eq!(proof.layers().len(), 1);
    assert_eq!(proof.layers()[0].values().len(), 16);
    assert_eq!(proof.remainder().len(), 8);
    assert_eq!(verify(options, &proof, 16, b"four", &positions), Ok(()));
}

#[test]
fn multi_layer_proof_verifies() {
    let (options, proof, positions) = multi_layer();
    assert_eq!(proof.layers().len(), 4);
    assert_eq!(proof.remainder().len(), 16);
    assert_eq!(verify(options, &proof, 64, b"multi", &positions), Ok(()));
}

#[test]
fn multi_layer_positions_shrink_with_the_layers() {
    let (_, proof, _) = multi_layer();
    // leaves: 128, 64, 32, 16; positions 0 5 17 64 77 100 126 127
    // mod 128: all 8; mod 64: 0 5 13 17 36 62 63; mod 32: 0 4 5 13 17 30 31;
    // mod 16: 0 1 4 5 13 14 15
    let counts: Vec<usize> = proof.layers().iter().map(|l| l.proofs().len()).collect();
    assert_eq!(counts, vec![8, 7, 7, 7]);
    for layer in proof.layers() {
        assert_eq!(layer.values().len(), 2 * layer.proofs().len());
    }
}

#[test]
fn proofs_verify_for_every_supported_folding_factor() {
    for (k, size, degree) in [(2usize, 64usize, 16usize), (4, 64, 16), (8, 64, 16), (16, 256, 64)] {
        let options = FriOptions::new(4, k, 16).unwrap();
        let positions = [0, 1, size / k - 1, 2];
        let seed = [k as u8];
        let proof = prove(options, codeword(&coefficients(degree, k as u64), size), &seed, &positions);
        assert_eq!(verify(options, &proof, degree, &seed, &positions), Ok(()), "k = {}", k);
    }
}

#[test]
fn proof_without_foldings_is_the_codeword() {
    let options = FriOptions::new(2, 2, 8).unwrap();
    let evals = codeword(&coefficients(4, 3), 8);
    let proof = prove(options, evals.clone(), b"flat", &[1, 2]);
    assert_eq!(proof.layers().len(), 0);
    assert_eq!(proof.remainder(), &evals);
    assert_eq!(verify(options, &proof, 4, b"flat", &[1, 2]), Ok(()));
}

#[test]
fn codeword_of_too_high_degree_is_rejected() {
    // degree 5 on 8 points with blowup 2: the remainder's bound is 4
    let options = FriOptions::new(2, 2, 8).unwrap();
    let proof = prove(options, codeword(&coefficients(6, 3), 8), b"high", &[1, 2]);
    assert_eq!(
        verify(options, &proof, 4, b"high", &[1, 2]),
        rejected(RejectionReason::RemainderDegree)
    );
}

#[test]
fn tampered_value_is_rejected() {
    let (options, proof, positions) = multi_layer();
    let (l0, l1, l2, l3) = proof.layers()[1].values()[0].limbs();
    let flipped = Felt::from_limbs(l0 ^ 1, l1, l2, l3).unwrap();
    let tampered = with_layer_value(&proof, 1, 0, flipped);
    assert_eq!(
        verify(options, &tampered, 64, b"multi", &positions),
        rejected(RejectionReason::InvalidPath)
    );
}

#[test]
fn every_tampered_tuple_value_is_rejected() {
    let (options, proof, positions) = multi_layer();
    for layer in 0..proof.layers().len() {
        for index in 0..proof.layers()[layer].values().len() {
            let old = fr(&proof.layers()[layer].values()[index]);
            let tampered = with_layer_value(&proof, layer, index, felt(&(old + Fr::from(1u64))));
            let res = verify(options, &tampered, 64, b"multi", &positions);
            assert!(
                matches!(res, Err(VerificationError::VerificationRejection(_))),
                "layer {} index {}",
                layer,
                index
            );
        }
    }
}

#[test]
fn every_tampered_remainder_value_is_rejected() {
    let (options, proof, positions) = multi_layer();
    for index in 0..proof.remainder().len() {
        let old = fr(&proof.remainder()[index]);
        let tampered = with_remainder_value(&proof, index, felt(&(old + Fr::from(1u64))));
        let res = verify(options, &tampered, 64, b"multi", &positions);
        assert!(
            matches!(res, Err(VerificationError::VerificationRejection(_))),
            "index {}",
            index
        );
    }
}

#[test]
fn tampered_path_bytes_are_rejected() {
    let (options, proof) = minimal();
    let path = &proof.layers()[0].proofs()[1];
    let mut root = path.root().clone();
    root[0] ^= 1;
    let mut leaf = path.leaf().clone();
    leaf[31] ^= 0x80;
    let mut siblings = path.siblings().clone();
    siblings[1][7] ^= 4;
    let candidates = vec![
        MerkleProof::new(root, path.leaf().clone(), path.siblings().clone()),
        MerkleProof::new(path.root().clone(), leaf, path.siblings().clone()),
        MerkleProof::new(path.root().clone(), path.leaf().clone(), siblings),
    ];
    for candidate in candidates {
        let tampered = with_path(&proof, 0, 1, candidate);
        assert_eq!(
            verify(options, &tampered, 2, b"minimal", &[0, 1]),
            rejected(RejectionReason::InvalidPath)
        );
    }
}

#[test]
fn tampered_first_root_changes_the_challenge() {
    // The root of the first path seeds the challenge: with another root the tuples
    // no longer lead to the commitment.
    let (options, proof) = minimal();
    let path = &proof.layers()[0].proofs()[0];
    let mut root = path.root().clone();
    root[5] ^= 1;
    let tampered = with_path(
        &proof,
        0,
        0,
        MerkleProof::new(root, path.leaf().clone(), path.siblings().clone()),
    );
    assert_eq!(
        verify(options, &tampered, 2, b"minimal", &[0, 1]),
        rejected(RejectionReason::InvalidPath)
    );
}

#[test]
fn wrong_remainder_is_rejected() {
    let (options, proof) = minimal();
    let old = fr(&proof.remainder()[2]);
    let tampered = with_remainder_value(&proof, 2, felt(&(old + Fr::from(1u64))));
    assert_eq!(
        verify(options, &tampered, 2, b"minimal", &[0, 1]),
        rejected(RejectionReason::RemainderDegree)
    );
}

#[test]
fn remainder_that_disagrees_with_the_last_layer_is_rejected() {
    // A remainder of low degree that is not the folding of the last layer.
    let (options, proof) = minimal();
    let other = Felt::from_u64(5);
    let tampered = FriProof::new(proof.layers().clone(), vec![other; 4]);
    assert_eq!(
        verify(options, &tampered, 2, b"minimal", &[0, 1]),
        rejected(RejectionReason::Colinearity)
    );
}

#[test]
fn proof_for_other_positions_is_rejected() {
    let (options, proof) = minimal();
    assert_eq!(
        verify(options, &proof, 2, b"minimal", &[0, 1, 2]),
        rejected(RejectionReason::InvalidPath)
    );
}

#[test]
fn proof_with_another_seed_is_rejected() {
    let (options, proof) = minimal();
    assert_eq!(
        verify(options, &proof, 2, b"another", &[0, 1]),
        rejected(RejectionReason::Colinearity)
    );
}

#[test]
fn remainder_of_wrong_length_is_rejected() {
    let (options, proof) = minimal();
    let mut remainder = proof.remainder().clone();
    remainder.truncate(2);
    let tampered = FriProof::new(proof.layers().clone(), remainder);
    assert_eq!(
        verify(options, &tampered, 2, b"minimal", &[0, 1]),
        rejected(RejectionReason::InvalidPath)
    );
}

#[test]
fn proving_twice_gives_the_same_proof() {
    let (_, first, _) = multi_layer();
    let (_, second, _) = multi_layer();
    assert_eq!(first.remainder(), second.remainder());
    assert_eq!(first.layers().len(), second.layers().len());
    for (a, b) in first.layers().iter().zip(second.layers()) {
        assert_eq!(a.values(), b.values());
        assert_eq!(a.proofs().len(), b.proofs().len());
        for (p, q) in a.proofs().iter().zip(b.proofs()) {
            assert_eq!(p.root(), q.root());
            assert_eq!(p.leaf(), q.leaf());
            assert_eq!(p.siblings(), q.siblings());
        }
    }
    assert_eq!(format!("{:?}", first), format!("{:?}", second));
}

#[test]
fn prover_and_verifier_draw_the_same_challenges() {
    // The remainder layer aside, the verifier's coin ends where the prover's
    // channel stood after the last folding.
    let options = FriOptions::new(4, 2, 16).unwrap();
    let evals = codeword(&coefficients(64, 7), 256);
    let mut prover = FriProver::new(options);
    let mut channel = PublicCoin::new(&b"multi".to_vec());
    prover.build_layers(&mut channel, evals);
    assert_eq!(prover.num_layers(), 5);
    let proof = prover.into_proof(&[3, 9]);
    let mut coin = PublicCoin::new(&b"multi".to_vec());
    let verifier = FriVerifier::new(&mut coin, options, &proof, 64).unwrap();
    assert_eq!(verifier.layer_alphas().len(), 4);
    // one more commitment on the prover's side: the remainder layer
    let last = proof.remainder();
    assert_eq!(last.len(), 16);
    coin.reseed(&vec![0u8]);
    channel.reseed(&vec![0u8]);
    assert_ne!(coin.draw(), channel.draw());
}

#[test]
fn blowup_three_truncates_an_interior_layer() {
    // degree bound 4, blowup 3: lengths 12, 6, 3; the layer of 3 values is not the
    // last of four.
    let options = FriOptions::new(3, 2, 4).unwrap();
    let path = MerkleProof::new(vec![1u8; 32], vec![2u8; 32], vec![]);
    let mut layers = Vec::new();
    for _ in 0..4 {
        layers.push(FriProofLayer::new(vec![[Felt::zero(); 2]], vec![path.clone()]));
    }
    let proof = FriProof::new(layers, vec![Felt::zero()]);
    let mut coin = PublicCoin::new(&b"truncated".to_vec());
    let res = FriVerifier::new(&mut coin, options, &proof, 4);
    assert_eq!(res.err(), Some(VerificationError::CodewordTruncation(3, 2, 2)));
}

#[test]
fn blowup_three_without_an_odd_interior_layer_sets_up() {
    // lengths 12, 6, 3: the layer of 3 values is the last of three.
    let options = FriOptions::new(3, 2, 4).unwrap();
    let path = MerkleProof::new(vec![1u8; 32], vec![2u8; 32], vec![]);
    let mut layers = Vec::new();
    for _ in 0..3 {
        layers.push(FriProofLayer::new(vec![[Felt::zero(); 2]], vec![path.clone()]));
    }
    let proof = FriProof::new(layers, vec![Felt::zero()]);
    let mut coin = PublicCoin::new(&b"truncated".to_vec());
    let verifier = FriVerifier::new(&mut coin, options, &proof, 4).unwrap();
    assert_eq!(verifier.domain().size(), 16);
    assert_eq!(verifier.layer_commitments(), &vec![vec![1u8; 32]; 3]);
    assert_eq!(
        verifier.verify(&proof, &[0]),
        rejected(RejectionReason::InvalidPath)
    );
}

#[test]
fn layer_of_tuples_holds_their_values_in_order() {
    let path = MerkleProof::new(vec![1u8; 32], vec![2u8; 32], vec![]);
    let tuples = vec![
        [Felt::from_u64(1), Felt::from_u64(2), Felt::from_u64(3), Felt::from_u64(4)],
        [Felt::from_u64(5), Felt::from_u64(6), Felt::from_u64(7), Felt::from_u64(8)],
    ];
    let layer = FriProofLayer::new(tuples, vec![path.clone(), path.clone()]);
    let expected: Vec<Felt> = (1u64..=8).map(Felt::from_u64).collect();
    assert_eq!(layer.values(), &expected);
    assert_eq!(layer.proofs().len(), 2);
    let flat = FriProofLayer::from_values(expected.clone(), vec![path.clone(), path]);
    assert_eq!(flat.values(), &expected);
    let empty = FriProofLayer::new(Vec::<[Felt; 2]>::new(), vec![]);
    assert_eq!(empty.values().len(), 0);
}

#[test]
fn proofs_verify_over_many_shapes() {
    let mut state: u64 = 2024;
    for k in [2usize, 4, 8, 16] {
        for log_size in 4..=9 {
            for blowup in [2usize, 4, 8] {
                for max_remainder in [16usize, 32, 64] {
                    let size = 1usize << log_size;
                    let degree = size / blowup;
                    let options = FriOptions::new(blowup, k, max_remainder).unwrap();
                    if options.remainder_size(size) < k {
                        continue;
                    }
                    let mut positions = Vec::new();
                    for _ in 0..5 {
                        state = state.wrapping_mul(6364136223846793005).wrapping_add(1442695040888963407);
                        positions.push((state >> 33) as usize % (size / k));
                    }
                    let seed = [k as u8, log_size as u8, blowup as u8, max_remainder as u8];
                    let evals = codeword(&coefficients(degree, state), size);
                    let proof = prove(options, evals, &seed, &positions);
                    assert_eq!(proof.layers().len(), options.num_layers(size));
                    assert_eq!(proof.remainder().len(), options.remainder_size(size));
                    assert_eq!(
                        verify(options, &proof, degree, &seed, &positions),
                        Ok(()),
                        "k {} size {} blowup {} remainder {}",
                        k,
                        size,
                        blowup,
                        max_remainder
                    );
                }
            }
        }
    }
}

#[test]
fn positions_beyond_the_first_layer_are_folded_into_it() {
    let options = FriOptions::new(4, 2, 4).unwrap();
    let coeffs = vec![Fr::from(1u64), Fr::from(2u64)];
    let proof = prove(options, codeword(&coeffs, 8), b"wide", &[4, 5, 1001]);
    // leaves 0 and 1: positions 4 and 5 and 1001 modulo 4
    assert_eq!(proof.layers()[0].proofs().len(), 2);
    assert_eq!(verify(options, &proof, 2, b"wide", &[0, 1]), Ok(()));
    assert_eq!(verify(options, &proof, 2, b"wide", &[4, 5, 1001]), Ok(()));
}

#[test]
fn prover_and_verifier_keep_their_options() {
    let (options, proof) = minimal();
    let prover = FriProver::new(options);
    assert_eq!(prover.options().folding_factor(), 2);
    assert_eq!(prover.num_layers(), 0);
    let mut coin = PublicCoin::new(&b"minimal".to_vec());
    let verifier = FriVerifier::new(&mut coin, options, &proof, 2).unwrap();
    assert_eq!(verifier.options().blowup_factor(), 4);
    assert_eq!(verifier.options().max_remainder_size(), 4);
}

#[test]
fn proof_with_too_few_layers_is_rejected() {
    // folded down to 32 values where the verifier asks for 16
    let coarse = FriOptions::new(4, 2, 32).unwrap();
    let fine = FriOptions::new(4, 2, 16).unwrap();
    let positions = [0usize, 5, 17, 64];
    let proof = prove(coarse, codeword(&coefficients(64, 7), 256), b"layers", &positions);
    assert_eq!(proof.layers().len(), 3);
    assert_eq!(verify(coarse, &proof, 64, b"layers", &positions), Ok(()));
    assert_eq!(
        verify(fine, &proof, 64, b"layers", &positions),
        rejected(RejectionReason::InvalidPath)
    );
}

#[test]
fn proof_with_too_many_layers_is_rejected() {
    let coarse = FriOptions::new(4, 2, 32).unwrap();
    let fine = FriOptions::new(4, 2, 16).unwrap();
    let positions = [0usize, 5, 17, 64];
    let proof = prove(fine, codeword(&coefficients(64, 7), 256), b"layers", &positions);
    assert_eq!(proof.layers().len(), 4);
    assert_eq!(
        verify(coarse, &proof, 64, b"layers", &positions),
        rejected(RejectionReason::InvalidPath)
    );
}
