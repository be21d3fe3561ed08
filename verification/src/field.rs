//! Elements of the scalar field of BLS12-381, held by their canonical limbs, and
//! the field operations, which the arkworks field type carries out.

use ark_bls12_381::Fr;
use ark_ff::BigInt;
use ark_ff::FftField;
use ark_ff::Field;
use ark_ff::PrimeField;
use vstd::prelude::*;

verus! {

/// The four 64-bit limbs of the field's modulus, least significant first.
pub const MODULUS_LIMB_0: u64 = 0xffff_ffff_0000_0001;

pub const MODULUS_LIMB_1: u64 = 0x53bd_a402_fffe_5bfe;

pub const MODULUS_LIMB_2: u64 = 0x3339_d808_09a1_d805;

pub const MODULUS_LIMB_3: u64 = 0x73ed_a753_299d_7d48;

/// The largest domain that the field has a root of unity for: 2^32 points.
pub const MAX_DOMAIN_SIZE: u64 = 0x1_0000_0000;

/// 2^64, the weight of one limb.
pub open spec fn limb_base() -> nat {
    0x1_0000_0000_0000_0000
}

/// The number that four limbs stand for, least significant limb first.
pub open spec fn limbs_value(l0: u64, l1: u64, l2: u64, l3: u64) -> nat {
    (l0 + limb_base() * (l1 + limb_base() * (l2 + limb_base() * l3))) as nat
}

/// The order of the field, a prime of 255 bits.
pub open spec fn modulus() -> nat {
    limbs_value(MODULUS_LIMB_0, MODULUS_LIMB_1, MODULUS_LIMB_2, MODULUS_LIMB_3)
}

/// The sum of two residues.
pub open spec fn field_add(a: nat, b: nat) -> nat {
    (a + b) % modulus()
}

/// The product of two residues.
pub open spec fn field_mul(a: nat, b: nat) -> nat {
    (a * b) % modulus()
}

/// The power `a^e` in the field.
pub open spec fn field_pow(a: nat, e: nat) -> nat
    decreases e,
{
    if e == 0 {
        1
    } else {
        field_mul(a, field_pow(a, (e - 1) as nat))
    }
}

/// The generator of the field's multiplicative group that its domains are shifted by.
pub open spec fn field_generator() -> nat {
    7
}

/// Whether `n` is a power of two.
pub open spec fn is_power_of_two(n: nat) -> bool
    decreases n,
{
    n == 1 || (n >= 2 && n % 2 == 0 && is_power_of_two(n / 2))
}

/// The primitive root of unity of order `n` that the field offers, for `n` a power of
/// two up to 2^32.
pub uninterp spec fn root_of_unity(n: nat) -> nat;

/// A field element. Its limbs always stand for a number below the modulus.
#[derive(Clone, Copy, Debug, PartialEq, Eq, Structural)]
pub struct Felt {
    pub(crate) l0: u64,
    pub(crate) l1: u64,
    pub(crate) l2: u64,
    pub(crate) l3: u64,
}

impl View for Felt {
    type V = nat;

    closed spec fn view(&self) -> nat {
        limbs_value(self.l0, self.l1, self.l2, self.l3)
    }
}

/// A number splits into its lowest limb and the rest in one way only.
proof fn lemma_split_limb(low: u64, rest: int)
    ensures
        (low + limb_base() * rest) % (limb_base() as int) == low,
        (low + limb_base() * rest) / (limb_base() as int) == rest,
{
    let base = limb_base() as int;
    assert(rest * base == base * rest) by (nonlinear_arith);
    vstd::arithmetic::div_mod::lemma_fundamental_div_mod_converse(
        low + base * rest,
        base,
        rest,
        low as int,
    );
}

/// The residues that a sequence of field elements stands for.
pub open spec fn values(s: Seq<Felt>) -> Seq<nat> {
    Seq::new(s.len(), |i: int| s[i]@)
}

/// The values of a part of a sequence of elements are that part of the values.
pub proof fn lemma_values_subrange(s: Seq<Felt>, from: int, to: int)
    requires
        0 <= from <= to <= s.len(),
    ensures
        values(s.subrange(from, to)) == values(s).subrange(from, to),
{
    assert(values(s.subrange(from, to)) =~= values(s).subrange(from, to));
}

impl Felt {
    /// What holds of every element: its limbs stand for a residue.
    #[verifier::type_invariant]
    pub open spec fn canonical(self) -> bool {
        self@ < modulus()
    }

    /// Two elements with the same value have the same limbs.
    pub proof fn lemma_view_injective(a: Felt, b: Felt)
        requires
            a@ == b@,
        ensures
            a == b,
    {
        let base = limb_base() as int;
        let a1 = a.l1 + base * (a.l2 + base * a.l3);
        let b1 = b.l1 + base * (b.l2 + base * b.l3);
        let a2 = a.l2 + base * a.l3;
        let b2 = b.l2 + base * b.l3;
        lemma_split_limb(a.l0, a1);
        lemma_split_limb(b.l0, b1);
        lemma_split_limb(a.l1, a2);
        lemma_split_limb(b.l1, b2);
        lemma_split_limb(a.l2, a.l3 as int);
        lemma_split_limb(b.l2, b.l3 as int);
    }

    /// The element that stands for a small number.
    pub fn from_u64(x: u64) -> (r: Felt)
        ensures
            r@ == x,
    {
        Felt { l0: x, l1: 0, l2: 0, l3: 0 }
    }

    pub fn zero() -> (r: Felt)
        ensures
            r@ == 0,
    {
        Felt::from_u64(0)
    }

    pub fn one() -> (r: Felt)
        ensures
            r@ == 1,
    {
        Felt::from_u64(1)
    }

    /// The element with the given limbs, least significant first, if they stand for
    /// a number below the modulus.
    pub fn from_limbs(l0: u64, l1: u64, l2: u64, l3: u64) -> (r: Option<Felt>)
        ensures
            r.is_some() <==> limbs_value(l0, l1, l2, l3) < modulus(),
            r.is_some() ==> r.unwrap()@ == limbs_value(l0, l1, l2, l3),
    {
        let below = l3 < MODULUS_LIMB_3 || (l3 == MODULUS_LIMB_3 && (l2 < MODULUS_LIMB_2 || (l2
            == MODULUS_LIMB_2 && (l1 < MODULUS_LIMB_1 || (l1 == MODULUS_LIMB_1 && l0
            < MODULUS_LIMB_0)))));
        if below {
            Some(Felt { l0, l1, l2, l3 })
        } else {
            None
        }
    }

    /// The limbs of the element, least significant first.
    pub fn limbs(&self) -> (r: (u64, u64, u64, u64))
        ensures
            limbs_value(r.0, r.1, r.2, r.3) == self@,
    {
        (self.l0, self.l1, self.l2, self.l3)
    }

    pub fn is_zero(&self) -> (r: bool)
        ensures
            r == (self@ == 0),
    {
        self.l0 == 0 && self.l1 == 0 && self.l2 == 0 && self.l3 == 0
    }

    /// The generator of the multiplicative group, `Fr::GENERATOR` of arkworks: the
    /// element 7.
    #[verifier::external_body]
    pub(crate) fn generator() -> (r: Felt)
        ensures
            r@ == field_generator(),
    {
        let BigInt([l0, l1, l2, l3]) = Fr::GENERATOR.into_bigint();
        Felt { l0, l1, l2, l3 }
    }

    /// The sum in the field, by the `+` of arkworks' `Fp`.
    #[verifier::external_body]
    pub(crate) fn add(self, other: Felt) -> (r: Felt)
        ensures
            r@ == field_add(self@, other@),
    {
        let x = Fr::new(BigInt::new([self.l0, self.l1, self.l2, self.l3]));
        let y = Fr::new(BigInt::new([other.l0, other.l1, other.l2, other.l3]));
        let BigInt([l0, l1, l2, l3]) = (x + y).into_bigint();
        Felt { l0, l1, l2, l3 }
    }

    /// The product in the field, by the `*` of arkworks' `Fp`. The modulus being
    /// prime, a product of non-zero elements is not zero.
    #[verifier::external_body]
    pub(crate) fn mul(self, other: Felt) -> (r: Felt)
        ensures
            r@ == field_mul(self@, other@),
            self@ != 0 && other@ != 0 ==> r@ != 0,
    {
        let x = Fr::new(BigInt::new([self.l0, self.l1, self.l2, self.l3]));
        let y = Fr::new(BigInt::new([other.l0, other.l1, other.l2, other.l3]));
        let BigInt([l0, l1, l2, l3]) = (x * y).into_bigint();
        Felt { l0, l1, l2, l3 }
    }

    /// The power `self^exp`, by `Field::pow` of arkworks with a one-limb exponent.
    /// The modulus being prime, a power of a non-zero element is not zero.
    #[verifier::external_body]
    pub(crate) fn pow(self, exp: u64) -> (r: Felt)
        ensures
            r@ == field_pow(self@, exp as nat),
            self@ != 0 ==> r@ != 0,
    {
        let x = Fr::new(BigInt::new([self.l0, self.l1, self.l2, self.l3]));
        let BigInt([l0, l1, l2, l3]) = x.pow([exp]).into_bigint();
        Felt { l0, l1, l2, l3 }
    }

    /// The root of unity of order `n`, by `FftField::get_root_of_unity` of arkworks,
    /// which has one for every power of two up to 2^32. A root of unity is not zero.
    #[verifier::external_body]
    pub(crate) fn root_of_unity(n: u64) -> (r: Felt)
        requires
            is_power_of_two(n as nat),
            n <= MAX_DOMAIN_SIZE,
        ensures
            r@ == root_of_unity(n as nat),
            r@ != 0,
    {
        let BigInt([l0, l1, l2, l3]) = Fr::get_root_of_unity(n).unwrap().into_bigint();
        Felt { l0, l1, l2, l3 }
    }
}

} // verus!
