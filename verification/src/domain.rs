//! Evaluation and interpolation on cosets of the field's two-power subgroups, which
//! the radix-2 domain of arkworks carries out.

use crate::field::field_add;
use crate::field::field_mul;
use crate::field::field_pow;
use crate::field::is_power_of_two;
use crate::field::root_of_unity;
use crate::field::values;
use crate::field::Felt;
use crate::field::MAX_DOMAIN_SIZE;
use ark_bls12_381::Fr;
use ark_ff::BigInt;
use ark_ff::PrimeField;
use ark_poly::EvaluationDomain;
use ark_poly::Radix2EvaluationDomain;
use vstd::prelude::*;

verus! {

/// The value at `x` of the polynomial with the given coefficients, lowest first.
pub open spec fn poly_eval(coeffs: Seq<nat>, x: nat) -> nat
    decreases coeffs.len(),
{
    if coeffs.len() == 0 {
        0
    } else {
        field_add(coeffs[0], field_mul(x, poly_eval(coeffs.drop_first(), x)))
    }
}

/// Point `i` of the coset of `n` points with the given offset: the offset times the
/// `i`-th power of the root of unity of order `n`.
pub open spec fn coset_point(n: nat, offset: nat, i: nat) -> nat {
    field_mul(offset, field_pow(root_of_unity(n), i))
}

/// The values of the polynomial with coefficients `coeffs` on the coset of
/// `coeffs.len()` points with the given offset, point by point.
pub open spec fn coset_fft(coeffs: Seq<nat>, offset: nat) -> Seq<nat> {
    Seq::new(
        coeffs.len(),
        |i: int| poly_eval(coeffs, coset_point(coeffs.len(), offset, i as nat)),
    )
}

/// The coefficients of the polynomial of degree below `evals.len()` that takes the
/// values `evals` on the coset of `evals.len()` points with the given offset.
pub uninterp spec fn coset_ifft(evals: Seq<nat>, offset: nat) -> Seq<nat>;

/// A power of two divides every power of two that is not smaller, and the quotient
/// is a power of two.
pub proof fn lemma_power_of_two_quotient(n: nat, k: nat)
    requires
        is_power_of_two(n),
        is_power_of_two(k),
        k <= n,
    ensures
        n % k == 0,
        is_power_of_two(n / k),
        (n / k) * k == n,
    decreases k,
{
    if k == 1 {
    } else {
        lemma_power_of_two_quotient(n / 2, k / 2);
        let q = (n / 2) / (k / 2);
        assert((n / 2) == q * (k / 2));
        assert(n == q * k) by (nonlinear_arith)
            requires
                n / 2 == q * (k / 2),
                n % 2 == 0,
                k % 2 == 0,
        ;
        vstd::arithmetic::div_mod::lemma_fundamental_div_mod_converse(n as int, k as int, q as int, 0);
    }
}

/// The smallest power of two that is not below `n`.
pub open spec fn next_power_of_two(n: nat) -> nat
    decreases n,
{
    if n <= 1 {
        1
    } else {
        2 * next_power_of_two(n / 2 + n % 2)
    }
}

/// The next power of two is a power of two, not below `n`, and below `2n`.
pub proof fn lemma_next_power_of_two(n: nat)
    ensures
        is_power_of_two(next_power_of_two(n)),
        n <= next_power_of_two(n),
        n >= 1 ==> next_power_of_two(n) < 2 * n,
        is_power_of_two(n) ==> next_power_of_two(n) == n,
    decreases n,
{
    if n > 1 {
        lemma_next_power_of_two(n / 2 + n % 2);
    }
}

/// The smallest power of two that is not below `n`.
pub fn smallest_power_of_two(n: usize) -> (r: usize)
    requires
        next_power_of_two(n as nat) <= usize::MAX,
    ensures
        r == next_power_of_two(n as nat),
    decreases n,
{
    if n <= 1 {
        1
    } else {
        2 * smallest_power_of_two(n / 2 + n % 2)
    }
}

/// What an evaluation domain holds: the number of its points, a power of two, and
/// the offset of the coset.
pub struct DomainModel {
    pub size: nat,
    pub offset: nat,
}

/// A coset of a two-power subgroup of the field, as the radix-2 domain of arkworks
/// describes it.
#[derive(Clone, Copy, Debug)]
pub struct CosetDomain {
    size: usize,
    offset: Felt,
}

impl View for CosetDomain {
    type V = DomainModel;

    closed spec fn view(&self) -> DomainModel {
        DomainModel { size: self.size as nat, offset: self.offset@ }
    }
}

impl CosetDomain {
    /// The coset with the given offset that is large enough for `num_coeffs` values:
    /// it has the next power of two of points. There is none if that is more than
    /// 2^32, or if the offset is zero.
    pub fn new_coset(num_coeffs: usize, offset: Felt) -> (domain: Option<CosetDomain>)
        requires
            next_power_of_two(num_coeffs as nat) <= usize::MAX,
        ensures
            domain.is_some() <==> next_power_of_two(num_coeffs as nat) <= MAX_DOMAIN_SIZE
                && offset@ != 0,
            domain.is_some() ==> domain.unwrap()@ == (DomainModel {
                size: next_power_of_two(num_coeffs as nat),
                offset: offset@,
            }),
    {
        let size = smallest_power_of_two(num_coeffs);
        if size as u64 > MAX_DOMAIN_SIZE || offset.is_zero() {
            None
        } else {
            Some(CosetDomain { size, offset })
        }
    }

    /// The number of points.
    pub fn size(&self) -> (size: usize)
        ensures
            size == self@.size,
    {
        self.size
    }

    /// The offset of the coset.
    pub fn offset(&self) -> (offset: Felt)
        ensures
            offset@ == self@.offset,
    {
        self.offset
    }
}

/// Evaluates a polynomial on a coset, by `Radix2EvaluationDomain::new_coset` and
/// `EvaluationDomain::fft` of arkworks. The domain has as many points as there are
/// coefficients, its generator is the field's root of unity of that order, and the
/// values come in the order of the domain's points; interpolating them on the same
/// coset gives the coefficients back.
#[verifier::external_body]
pub(crate) fn fft_on_coset(coeffs: &Vec<Felt>, offset: Felt) -> (evals: Vec<Felt>)
    requires
        is_power_of_two(coeffs.len() as nat),
        coeffs.len() <= MAX_DOMAIN_SIZE,
        offset@ != 0,
    ensures
        evals.len() == coeffs.len(),
        values(evals@) == coset_fft(values(coeffs@), offset@),
        coset_ifft(values(evals@), offset@) == values(coeffs@),
{
    let shift = Fr::new(BigInt::new([offset.l0, offset.l1, offset.l2, offset.l3]));
    let domain = Radix2EvaluationDomain::<Fr>::new_coset(coeffs.len(), shift).unwrap();
    let input: Vec<Fr> = coeffs.iter().map(|c| Fr::new(BigInt::new([c.l0, c.l1, c.l2, c.l3]))).collect();
    let output = domain.fft(&input).into_iter().map(|f| f.into_bigint().0);
    output.map(|l| Felt { l0: l[0], l1: l[1], l2: l[2], l3: l[3] }).collect()
}

/// Interpolates values on a coset, by `Radix2EvaluationDomain::new_coset` and
/// `EvaluationDomain::ifft` of arkworks. The domain has as many points as there are
/// values; the result has as many coefficients, and the polynomial takes the values
/// on the coset, point by point.
#[verifier::external_body]
pub(crate) fn ifft_on_coset(evals: &Vec<Felt>, offset: Felt) -> (coeffs: Vec<Felt>)
    requires
        is_power_of_two(evals.len() as nat),
        evals.len() <= MAX_DOMAIN_SIZE,
        offset@ != 0,
    ensures
        coeffs.len() == evals.len(),
        values(coeffs@) == coset_ifft(values(evals@), offset@),
        coset_fft(values(coeffs@), offset@) == values(evals@),
{
    let shift = Fr::new(BigInt::new([offset.l0, offset.l1, offset.l2, offset.l3]));
    let domain = Radix2EvaluationDomain::<Fr>::new_coset(evals.len(), shift).unwrap();
    let input: Vec<Fr> = evals.iter().map(|c| Fr::new(BigInt::new([c.l0, c.l1, c.l2, c.l3]))).collect();
    let output = domain.ifft(&input).into_iter().map(|f| f.into_bigint().0);
    output.map(|l| Felt { l0: l[0], l1: l[1], l2: l[2], l3: l[3] }).collect()
}

} // verus!
