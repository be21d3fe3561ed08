use ark_bls12_381::Fr;
use ark_ff::BigInt;
use ark_ff::PrimeField;
use fri::field::Felt;
use fri::interpolation::interpolate;
use fri::interpolation::strip_trailing_zeros;
use fri::interpolation::zerofier_domain;

fn felts(values: &[u64]) -> Vec<Felt> {
    values.iter().map(|v| Felt::from_u64(*v)).collect()
}

fn felt(x: &Fr) -> Felt {
    let l = x.into_bigint().0;
    Felt::from_limbs(l[0], l[1], l[2], l[3]).unwrap()
}

fn fr(x: &Felt) -> Fr {
    let (l0, l1, l2, l3) = x.limbs();
    Fr::from_bigint(BigInt::new([l0, l1, l2, l3])).unwrap()
}

fn evaluate(coeffs: &[Felt], x: Fr) -> Fr {
    let mut acc = Fr::from(0u64);
    for c in coeffs.iter().rev() {
        acc = acc * x + fr(c);
    }
    acc
}

#[test]
fn zerofier_of_no_point_is_one() {
    assert_eq!(zerofier_domain(&vec![]), felts(&[1]));
}

#[test]
fn zerofier_of_one_point_is_its_linear_factor() {
    // x - 5
    let minus_five = felt(&(-Fr::from(5u64)));
    assert_eq!(zerofier_domain(&felts(&[5])), vec![minus_five, Felt::one()]);
}

#[test]
fn zerofier_of_two_points_is_the_product_of_the_factors() {
    // (x - 2)(x - 3) = x^2 - 5x + 6
    let minus_five = felt(&(-Fr::from(5u64)));
    assert_eq!(
        zerofier_domain(&felts(&[2, 3])),
        vec![Felt::from_u64(6), minus_five, Felt::one()]
    );
}

#[test]
fn zerofier_vanishes_on_its_domain_only() {
    let domain = felts(&[1, 4, 9, 16, 25]);
    let z = zerofier_domain(&domain);
    assert_eq!(z.len(), 6);
    for d in &domain {
        assert_eq!(evaluate(&z, fr(d)), Fr::from(0u64));
    }
    assert_ne!(evaluate(&z, Fr::from(2u64)), Fr::from(0u64));
}

#[test]
fn strip_trailing_zeros_removes_the_high_zeros() {
    assert_eq!(strip_trailing_zeros(felts(&[1, 0, 2, 0, 0])), felts(&[1, 0, 2]));
    assert_eq!(strip_trailing_zeros(felts(&[0, 0])), felts(&[]));
    assert_eq!(strip_trailing_zeros(felts(&[0, 3])), felts(&[0, 3]));
    assert_eq!(strip_trailing_zeros(vec![]), felts(&[]));
}

#[test]
fn interpolate_finds_a_line() {
    // 3x + 2 at 0 and 1
    assert_eq!(interpolate(&felts(&[0, 1]), &felts(&[2, 5])), felts(&[2, 3]));
}

#[test]
fn interpolate_finds_a_parabola() {
    // x^2 + 1 at 1, 2, 3
    assert_eq!(interpolate(&felts(&[1, 2, 3]), &felts(&[2, 5, 10])), felts(&[1, 0, 1]));
}

#[test]
fn interpolate_of_constant_values_is_the_constant() {
    assert_eq!(interpolate(&felts(&[1, 2, 3, 4]), &felts(&[5, 5, 5, 5])), felts(&[5]));
    assert_eq!(interpolate(&felts(&[1, 2, 3, 4]), &felts(&[0, 0, 0, 0])), felts(&[]));
}

#[test]
fn interpolate_of_nothing_is_the_zero_polynomial() {
    assert_eq!(interpolate(&vec![], &vec![]), felts(&[]));
}

#[test]
fn interpolate_of_one_point_is_its_value() {
    assert_eq!(interpolate(&felts(&[9]), &felts(&[4])), felts(&[4]));
}

#[test]
fn interpolant_takes_the_values_on_the_domain() {
    let domain: Vec<Felt> = (0u64..12).map(|i| felt(&(Fr::from(7u64 * i + 3) * Fr::from(i + 1)))).collect();
    let vals: Vec<Felt> = (0u64..12).map(|i| felt(&(Fr::from(i * i * i + 11) * Fr::from(u64::MAX - i)))).collect();
    let p = interpolate(&domain, &vals);
    assert!(p.len() <= 12);
    for (d, v) in domain.iter().zip(&vals) {
        assert_eq!(felt(&evaluate(&p, fr(d))), *v);
    }
}
