//! Interpolation through arbitrary points by Lagrange's formula, on the dense
//! polynomials of arkworks. A polynomial is the sequence of its coefficients, lowest
//! first.

use crate::domain::poly_eval;
use crate::field::field_add;
use crate::field::field_mul;
use crate::field::modulus;
use crate::field::values;
use crate::field::Felt;
use ark_bls12_381::Fr;
use ark_ff::BigInt;
use ark_ff::PrimeField;
use ark_poly::univariate::DensePolynomial;
use ark_poly::DenseUVPolynomial;
use ark_poly::Polynomial;
use vstd::prelude::*;

verus! {

/// The negative of a residue.
pub open spec fn field_neg(a: nat) -> nat {
    ((modulus() - a) % (modulus() as int)) as nat
}

/// The coefficients of the product of two polynomials.
pub uninterp spec fn poly_product(a: Seq<nat>, b: Seq<nat>) -> Seq<nat>;

/// The coefficients of the quotient of the division of `a` by `b`.
pub uninterp spec fn poly_quotient(a: Seq<nat>, b: Seq<nat>) -> Seq<nat>;

/// The inverses of the residues that are not zero, a zero where the residue is zero.
pub uninterp spec fn batch_inverses(v: Seq<nat>) -> Seq<nat>;

/// The polynomial `x - d`.
pub open spec fn linear_factor(d: nat) -> Seq<nat> {
    seq![field_neg(d), 1]
}

/// The product of the polynomials `x - d` over the points `d` of the domain, taken
/// in their order.
pub open spec fn zerofier(domain: Seq<nat>) -> Seq<nat>
    decreases domain.len(),
{
    if domain.len() == 0 {
        seq![1]
    } else {
        poly_product(zerofier(domain.drop_last()), linear_factor(domain.last()))
    }
}

/// The zerofier of the domain without the factor of point `i`.
pub open spec fn numerator(domain: Seq<nat>, i: int) -> Seq<nat> {
    poly_quotient(zerofier(domain), linear_factor(domain[i]))
}

/// The value of each numerator at its own point.
pub open spec fn denominators(domain: Seq<nat>) -> Seq<nat> {
    Seq::new(domain.len(), |i: int| poly_eval(numerator(domain, i), domain[i]))
}

/// Coefficient `j` of the sum of the first `count` terms of Lagrange's formula: term
/// `i` is the numerator of point `i` times the value at point `i` divided by the
/// denominator of point `i`.
pub open spec fn lagrange_coefficient(domain: Seq<nat>, vals: Seq<nat>, j: int, count: nat) -> nat
    decreases count,
{
    if count == 0 {
        0
    } else {
        let i = count - 1;
        let before = lagrange_coefficient(domain, vals, j, i as nat);
        let top = numerator(domain, i);
        if j < top.len() {
            field_add(
                before,
                field_mul(top[j], field_mul(vals[i], batch_inverses(denominators(domain))[i])),
            )
        } else {
            before
        }
    }
}

/// The coefficients without the zeros at the high end.
pub open spec fn strip_zeros(s: Seq<nat>) -> Seq<nat>
    decreases s.len(),
{
    if s.len() > 0 && s.last() == 0 {
        strip_zeros(s.drop_last())
    } else {
        s
    }
}

/// The polynomial that Lagrange's formula gives for the values `vals` at the points
/// `domain`.
pub open spec fn interpolation(domain: Seq<nat>, vals: Seq<nat>) -> Seq<nat> {
    strip_zeros(
        Seq::new(vals.len(), |j: int| lagrange_coefficient(domain, vals, j, vals.len())),
    )
}

/// The negative in the field, by the unary `-` of arkworks' `Fp`.
#[verifier::external_body]
fn negate(a: Felt) -> (r: Felt)
    ensures
        r@ == field_neg(a@),
{
    let BigInt([l0, l1, l2, l3]) = (-Fr::new(BigInt::new([a.l0, a.l1, a.l2, a.l3]))).into_bigint();
    Felt { l0, l1, l2, l3 }
}

/// The product of two polynomials, by `DensePolynomial::naive_mul` of arkworks. The
/// product of polynomials that have coefficients has fewer coefficients than the
/// two together.
#[verifier::external_body]
fn multiply(a: &Vec<Felt>, b: &Vec<Felt>) -> (r: Vec<Felt>)
    ensures
        values(r@) == poly_product(values(a@), values(b@)),
        r.len() == 0 || r.len() + 1 <= a.len() + b.len(),
{
    let x: Vec<Fr> = a.iter().map(|c| Fr::new(BigInt::new([c.l0, c.l1, c.l2, c.l3]))).collect();
    let y: Vec<Fr> = b.iter().map(|c| Fr::new(BigInt::new([c.l0, c.l1, c.l2, c.l3]))).collect();
    let z = DensePolynomial::from_coefficients_vec(x).naive_mul(&DensePolynomial::from_coefficients_vec(y));
    let limbs = z.coeffs.into_iter().map(|f| f.into_bigint().0);
    limbs.map(|l| Felt { l0: l[0], l1: l[1], l2: l[2], l3: l[3] }).collect()
}

/// The quotient of the division of one polynomial by another whose highest
/// coefficient is not zero, by the `/` of arkworks on dense polynomials. The quotient
/// has no more coefficients than the dividend has more than the divisor, and one.
#[verifier::external_body]
fn divide(a: &Vec<Felt>, b: &Vec<Felt>) -> (r: Vec<Felt>)
    requires
        b.len() > 0,
        b@.last()@ != 0,
    ensures
        values(r@) == poly_quotient(values(a@), values(b@)),
        r.len() == 0 || r.len() + b.len() <= a.len() + 1,
{
    let x: Vec<Fr> = a.iter().map(|c| Fr::new(BigInt::new([c.l0, c.l1, c.l2, c.l3]))).collect();
    let y: Vec<Fr> = b.iter().map(|c| Fr::new(BigInt::new([c.l0, c.l1, c.l2, c.l3]))).collect();
    let z = &DensePolynomial::from_coefficients_vec(x) / &DensePolynomial::from_coefficients_vec(y);
    let limbs = z.coeffs.into_iter().map(|f| f.into_bigint().0);
    limbs.map(|l| Felt { l0: l[0], l1: l[1], l2: l[2], l3: l[3] }).collect()
}

/// The value of a polynomial at a point, by `Polynomial::evaluate` of arkworks on a
/// dense polynomial.
#[verifier::external_body]
fn evaluate(p: &Vec<Felt>, x: Felt) -> (r: Felt)
    ensures
        r@ == poly_eval(values(p@), x@),
{
    let c: Vec<Fr> = p.iter().map(|c| Fr::new(BigInt::new([c.l0, c.l1, c.l2, c.l3]))).collect();
    let point = Fr::new(BigInt::new([x.l0, x.l1, x.l2, x.l3]));
    let BigInt([l0, l1, l2, l3]) = DensePolynomial::from_coefficients_vec(c).evaluate(&point).into_bigint();
    Felt { l0, l1, l2, l3 }
}

/// The inverses of the elements, by `batch_inversion` of arkworks: an element that
/// is not zero gives its inverse, whose product with it is one, and zero gives zero.
#[verifier::external_body]
fn invert_all(v: &Vec<Felt>) -> (r: Vec<Felt>)
    ensures
        values(r@) == batch_inverses(values(v@)),
        r.len() == v.len(),
        forall|i: int|
            0 <= i < v.len() ==> if v[i]@ == 0 {
                (#[trigger] r[i])@ == 0
            } else {
                field_mul(v[i]@, r[i]@) == 1
            },
{
    let mut x: Vec<Fr> = v.iter().map(|c| Fr::new(BigInt::new([c.l0, c.l1, c.l2, c.l3]))).collect();
    ark_ff::batch_inversion(&mut x);
    let limbs = x.into_iter().map(|f| f.into_bigint().0);
    limbs.map(|l| Felt { l0: l[0], l1: l[1], l2: l[2], l3: l[3] }).collect()
}

/// The polynomial `x - d`.
fn linear(d: Felt) -> (r: Vec<Felt>)
    ensures
        values(r@) == linear_factor(d@),
        r.len() == 2,
        r@.last()@ != 0,
{
    let mut r: Vec<Felt> = Vec::new();
    r.push(negate(d));
    r.push(Felt::one());
    proof {
        assert(values(r@) =~= linear_factor(d@));
    }
    r
}

/// The product of the polynomials `x - d` over the points `d` of the domain.
pub fn zerofier_domain(domain: &[Felt]) -> (r: Vec<Felt>)
    ensures
        values(r@) == zerofier(values(domain@)),
        r.len() <= domain.len() + 1,
{
    let mut accumulator: Vec<Felt> = Vec::new();
    accumulator.push(Felt::one());
    let ghost points = values(domain@);
    proof {
        assert(values(accumulator@) =~= zerofier(points.take(0)));
    }
    let mut i: usize = 0;
    while i < domain.len()
        invariant
            i <= domain.len(),
            points == values(domain@),
            values(accumulator@) == zerofier(points.take(i as int)),
            accumulator.len() <= i + 1,
        decreases domain.len() - i,
    {
        let subtraction = linear(domain[i]);
        proof {
            assert(points.take(i + 1).drop_last() =~= points.take(i as int));
            assert(points.take(i + 1).last() == domain[i as int]@);
        }
        accumulator = multiply(&accumulator, &subtraction);
        i = i + 1;
    }
    proof {
        assert(points.take(domain.len() as int) =~= points);
    }
    accumulator
}

/// The polynomial without the zeros at the high end of its coefficients.
pub fn strip_trailing_zeros(p: Vec<Felt>) -> (r: Vec<Felt>)
    ensures
        values(r@) == strip_zeros(values(p@)),
{
    let mut r = p;
    while r.len() > 0 && r[r.len() - 1].is_zero()
        invariant
            strip_zeros(values(r@)) == strip_zeros(values(p@)),
        decreases r.len(),
    {
        let ghost before = values(r@);
        r.pop();
        proof {
            assert(values(r@) =~= before.drop_last());
        }
    }
    r
}

/// Interpolates the values at the points of the domain by Lagrange's formula: the
/// sum, over the points, of the zerofier without the point's factor, times the value
/// at the point, divided by what that polynomial takes at the point.
pub fn interpolate(domain: &[Felt], vals: &[Felt]) -> (r: Vec<Felt>)
    requires
        domain.len() == vals.len(),
    ensures
        values(r@) == interpolation(values(domain@), values(vals@)),
        r.len() <= vals.len(),
{
    let n = domain.len();
    let ghost points = values(domain@);
    let ghost ys = values(vals@);
    let root = zerofier_domain(domain);
    let mut numerators: Vec<Vec<Felt>> = Vec::new();
    let mut bottoms: Vec<Felt> = Vec::new();
    let mut i: usize = 0;
    while i < n
        invariant
            n == domain.len(),
            i <= n,
            points == values(domain@),
            values(root@) == zerofier(points),
            root.len() <= n + 1,
            numerators.len() == i,
            bottoms.len() == i,
            forall|t: int|
                0 <= t < i ==> values((#[trigger] numerators@[t])@) == numerator(points, t),
            forall|t: int| 0 <= t < i ==> (#[trigger] numerators@[t]).len() <= n,
            forall|t: int|
                0 <= t < i ==> (#[trigger] bottoms@[t])@ == poly_eval(
                    numerator(points, t),
                    points[t],
                ),
        decreases n - i,
    {
        let factor = linear(domain[i]);
        let top = divide(&root, &factor);
        bottoms.push(evaluate(&top, domain[i]));
        numerators.push(top);
        i = i + 1;
    }
    proof {
        assert(values(bottoms@) =~= denominators(points));
    }
    let inverses = invert_all(&bottoms);
    let mut output: Vec<Felt> = Vec::new();
    let mut j: usize = 0;
    while j < n
        invariant
            j <= n,
            output.len() == j,
            forall|t: int| 0 <= t < j ==> (#[trigger] output@[t])@ == 0,
        decreases n - j,
    {
        output.push(Felt::zero());
        j = j + 1;
    }
    let mut i: usize = 0;
    while i < n
        invariant
            n == domain.len(),
            n == vals.len(),
            i <= n,
            points == values(domain@),
            ys == values(vals@),
            numerators.len() == n,
            inverses.len() == n,
            values(inverses@) == batch_inverses(denominators(points)),
            forall|t: int|
                0 <= t < n ==> values((#[trigger] numerators@[t])@) == numerator(points, t),
            forall|t: int| 0 <= t < n ==> (#[trigger] numerators@[t]).len() <= n,
            output.len() == n,
            forall|t: int|
                0 <= t < n ==> (#[trigger] output@[t])@ == lagrange_coefficient(
                    points,
                    ys,
                    t,
                    i as nat,
                ),
        decreases n - i,
    {
        let y_slice = vals[i].mul(inverses[i]);
        let top = &numerators[i];
        let ghost before = output@;
        proof {
            assert(values(inverses@)[i as int] == inverses@[i as int]@);
            assert(ys[i as int] == vals@[i as int]@);
        }
        let mut j: usize = 0;
        while j < top.len()
            invariant
                j <= top.len(),
                top.len() <= n,
                output.len() == n,
                i < n,
                values(top@) == numerator(points, i as int),
                y_slice@ == field_mul(ys[i as int], batch_inverses(denominators(points))[i as int]),
                forall|t: int|
                    0 <= t < n ==> (#[trigger] before[t])@ == lagrange_coefficient(
                        points,
                        ys,
                        t,
                        i as nat,
                    ),
                forall|t: int|
                    0 <= t < j ==> (#[trigger] output@[t])@ == lagrange_coefficient(
                        points,
                        ys,
                        t,
                        (i + 1) as nat,
                    ),
                forall|t: int| j <= t < n ==> #[trigger] output@[t] == before[t],
            decreases top.len() - j,
        {
            proof {
                assert(values(top@)[j as int] == top@[j as int]@);
            }
            let term = top[j].mul(y_slice);
            let sum = output[j].add(term);
            output.set(j, sum);
            j = j + 1;
        }
        i = i + 1;
    }
    proof {
        assert(values(output@) =~= Seq::new(
            ys.len(),
            |j: int| lagrange_coefficient(points, ys, j, ys.len()),
        ));
    }
    let r = strip_trailing_zeros(output);
    proof {
        lemma_strip_zeros_shorter(values(output@));
    }
    r
}

/// Without its high zeros a polynomial has no more coefficients than with them.
pub proof fn lemma_strip_zeros_shorter(s: Seq<nat>)
    ensures
        strip_zeros(s).len() <= s.len(),
    decreases s.len(),
{
    if s.len() > 0 && s.last() == 0 {
        lemma_strip_zeros_shorter(s.drop_last());
    }
}

} // verus!
