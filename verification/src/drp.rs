//! The degree-respecting projection: one folding step on a codeword.

use crate::domain::coset_fft;
use crate::domain::coset_ifft;
use crate::domain::fft_on_coset;
use crate::domain::ifft_on_coset;
use crate::domain::lemma_power_of_two_quotient;
use crate::field::field_add;
use crate::field::field_mul;
use crate::field::field_pow;
use crate::field::is_power_of_two;
use crate::field::values;
use crate::field::Felt;
use crate::field::MAX_DOMAIN_SIZE;
use vstd::prelude::*;

verus! {

/// The sum of the first `j` terms `c[i*k + t] * alpha^t` of chunk `i`, taken in
/// ascending order of `t`.
pub open spec fn chunk_combination(c: Seq<nat>, alpha: nat, k: nat, i: nat, j: nat) -> nat
    decreases j,
{
    if j == 0 {
        0
    } else {
        field_add(
            chunk_combination(c, alpha, k, i, (j - 1) as nat),
            field_mul(c[i * k + j - 1], field_pow(alpha, (j - 1) as nat)),
        )
    }
}

/// The coefficients of the folded polynomial: entry `i` combines the `k`
/// coefficients `c[i*k ..  i*k + k]` with the powers of `alpha`.
pub open spec fn fold_coefficients(c: Seq<nat>, alpha: nat, k: nat) -> Seq<nat> {
    Seq::new(
        if k == 0 {
            0
        } else {
            c.len() / k
        },
        |i: int| chunk_combination(c, alpha, k, i as nat, k),
    )
}

/// The folded codeword: the values `evals` are interpolated on the coset with the
/// given offset, the coefficients are folded by `k` with `alpha`, and the result is
/// evaluated on the coset of a `k`-th of the size whose offset is `offset^k`.
pub open spec fn drp(evals: Seq<nat>, offset: nat, alpha: nat, k: nat) -> Seq<nat> {
    coset_fft(fold_coefficients(coset_ifft(evals, offset), alpha, k), field_pow(offset, k))
}

/// The powers `alpha^0 .. alpha^(k-1)`.
pub fn alpha_powers(alpha: Felt, k: usize) -> (powers: Vec<Felt>)
    ensures
        powers.len() == k,
        forall|j: int| 0 <= j < k ==> (#[trigger] powers[j])@ == field_pow(alpha@, j as nat),
{
    let mut powers: Vec<Felt> = Vec::new();
    let mut j: usize = 0;
    while j < k
        invariant
            j <= k,
            powers.len() == j,
            forall|t: int| 0 <= t < j ==> (#[trigger] powers[t])@ == field_pow(alpha@, t as nat),
        decreases k - j,
    {
        powers.push(alpha.pow(j as u64));
        j = j + 1;
    }
    powers
}

/// Folds coefficients: entry `i` of the result is the combination of the `k`
/// coefficients of chunk `i` with the powers of `alpha`.
pub fn fold_coeffs(coeffs: &Vec<Felt>, alpha: Felt, k: usize) -> (folded: Vec<Felt>)
    requires
        k >= 1,
    ensures
        values(folded@) == fold_coefficients(values(coeffs@), alpha@, k as nat),
        folded.len() == coeffs.len() / k,
{
    let powers = alpha_powers(alpha, k);
    let chunks: usize = coeffs.len() / k;
    let mut folded: Vec<Felt> = Vec::new();
    let mut i: usize = 0;
    while i < chunks
        invariant
            k >= 1,
            chunks == coeffs.len() / k,
            i <= chunks,
            folded.len() == i,
            powers.len() == k,
            forall|j: int| 0 <= j < k ==> (#[trigger] powers[j])@ == field_pow(alpha@, j as nat),
            forall|t: int|
                0 <= t < i ==> (#[trigger] folded[t])@ == chunk_combination(
                    values(coeffs@),
                    alpha@,
                    k as nat,
                    t as nat,
                    k as nat,
                ),
        decreases chunks - i,
    {
        assert(i * k + k <= coeffs.len()) by (nonlinear_arith)
            requires
                i < chunks,
                chunks == coeffs.len() / k,
                k >= 1,
        ;
        let mut sum = Felt::zero();
        let mut j: usize = 0;
        while j < k
            invariant
                j <= k,
                i * k + k <= coeffs.len(),
                powers.len() == k,
                forall|t: int|
                    0 <= t < k ==> (#[trigger] powers[t])@ == field_pow(alpha@, t as nat),
                sum@ == chunk_combination(values(coeffs@), alpha@, k as nat, i as nat, j as nat),
            decreases k - j,
        {
            let term = coeffs[i * k + j].mul(powers[j]);
            sum = sum.add(term);
            j = j + 1;
        }
        folded.push(sum);
        i = i + 1;
    }
    assert(values(folded@) =~= fold_coefficients(values(coeffs@), alpha@, k as nat));
    folded
}

/// The degree-respecting projection of a codeword.
///
/// `evals` holds the values of a polynomial on the coset of `evals.len()` points with
/// offset `domain_offset`. The result holds the values, on the coset of a
/// `folding_factor`-th of the size with offset `domain_offset^folding_factor`, of the
/// polynomial whose coefficients are the foldings of the coefficients of the first:
/// interpolated on that coset, the result gives exactly those.
pub fn apply_drp(evals: Vec<Felt>, domain_offset: Felt, alpha: Felt, folding_factor: usize) -> (res:
    Vec<Felt>)
    requires
        is_power_of_two(evals.len() as nat),
        is_power_of_two(folding_factor as nat),
        folding_factor <= evals.len() <= MAX_DOMAIN_SIZE,
        domain_offset@ != 0,
    ensures
        res.len() == evals.len() / folding_factor,
        values(evals@) == coset_fft(coset_ifft(values(evals@), domain_offset@), domain_offset@),
        values(res@) == drp(values(evals@), domain_offset@, alpha@, folding_factor as nat),
        coset_ifft(values(res@), field_pow(domain_offset@, folding_factor as nat))
            == fold_coefficients(
            coset_ifft(values(evals@), domain_offset@),
            alpha@,
            folding_factor as nat,
        ),
{
    proof {
        lemma_power_of_two_quotient(evals.len() as nat, folding_factor as nat);
    }
    let coeffs = ifft_on_coset(&evals, domain_offset);
    let drp_coeffs = fold_coeffs(&coeffs, alpha, folding_factor);
    let drp_offset = domain_offset.pow(folding_factor as u64);
    fft_on_coset(&drp_coeffs, drp_offset)
}

} // verus!
