//! Folding parameters and the layer counts that follow from them.

use crate::field::field_generator;
use crate::field::is_power_of_two;
use crate::field::Felt;
use vstd::prelude::*;

verus! {

/// Why a set of parameters was refused.
#[derive(Clone, Copy, Debug, PartialEq, Eq, Structural)]
pub enum ConfigurationError {
    /// The folding factor is not one of 2, 4, 8, 16.
    UnsupportedFoldingFactor(usize),
    /// The blowup factor is zero.
    ZeroBlowupFactor,
    /// The largest remainder allowed (first) is smaller than the blowup factor (second).
    RemainderBelowBlowup(usize, usize),
}

/// The mathematical content of a [`FriOptions`].
pub struct OptionsModel {
    pub blowup_factor: nat,
    pub folding_factor: nat,
    pub max_remainder_size: nat,
}

/// Whether `k` is a folding factor that the protocol supports.
pub open spec fn supported_folding_factor(k: nat) -> bool {
    k == 2 || k == 4 || k == 8 || k == 16
}

/// Folding a non-empty codeword by two or more leaves a shorter one.
pub proof fn lemma_fold_shrinks(n: nat, k: nat)
    requires
        n >= 1,
        k >= 2,
    ensures
        n / k < n,
{
    assert(n / k < n) by (nonlinear_arith)
        requires
            n >= 1,
            k >= 2,
    ;
}

/// How often a codeword of `n` values is folded by `k` until at most `max_remainder`
/// values are left.
pub open spec fn num_layers(n: nat, k: nat, max_remainder: nat) -> nat
    decreases n,
{
    if n > max_remainder && k >= 2 {
        proof {
            lemma_fold_shrinks(n, k);
        }
        1 + num_layers(n / k, k, max_remainder)
    } else {
        0
    }
}

/// The length that is left of a codeword of `n` values once folding by `k` has
/// brought it to at most `max_remainder` values.
pub open spec fn remainder_size(n: nat, k: nat, max_remainder: nat) -> nat
    decreases n,
{
    if n > max_remainder && k >= 2 {
        proof {
            lemma_fold_shrinks(n, k);
        }
        remainder_size(n / k, k, max_remainder)
    } else {
        n
    }
}

/// The length of the codeword after `i` foldings by `k`: `n / k^i`, each division
/// rounding down.
pub open spec fn folded_len(n: nat, k: nat, i: nat) -> nat
    decreases i,
{
    if i == 0 || k == 0 {
        n
    } else {
        folded_len(n, k, (i - 1) as nat) / k
    }
}

/// The remainder of a codeword is not longer than the codeword.
pub proof fn lemma_remainder_size_bound(n: nat, k: nat, max_remainder: nat)
    ensures
        remainder_size(n, k, max_remainder) <= n,
    decreases n,
{
    if n > max_remainder && k >= 2 {
        lemma_fold_shrinks(n, k);
        lemma_remainder_size_bound(n / k, k, max_remainder);
    }
}

/// A codeword is folded fewer times than it has values.
pub proof fn lemma_num_layers_bound(n: nat, k: nat, max_remainder: nat)
    requires
        n >= 1,
        max_remainder >= 1,
    ensures
        num_layers(n, k, max_remainder) < n,
    decreases n,
{
    if n > max_remainder && k >= 2 {
        lemma_fold_shrinks(n, k);
        assert(num_layers(n, k, max_remainder) == 1 + num_layers(n / k, k, max_remainder));
        if n / k >= 1 {
            lemma_num_layers_bound(n / k, k, max_remainder);
        } else {
            assert(num_layers(n / k, k, max_remainder) == 0);
        }
    } else {
        assert(num_layers(n, k, max_remainder) == 0);
    }
}

/// Every supported folding factor is a power of two.
pub proof fn lemma_supported_power_of_two(k: nat)
    requires
        supported_folding_factor(k),
    ensures
        is_power_of_two(k),
{
    reveal_with_fuel(is_power_of_two, 6);
}

/// A folded codeword is not longer than the codeword.
pub proof fn lemma_folded_len_bound(n: nat, k: nat, i: nat)
    ensures
        folded_len(n, k, i) <= n,
    decreases i,
{
    if i > 0 && k > 0 {
        lemma_folded_len_bound(n, k, (i - 1) as nat);
        let m = folded_len(n, k, (i - 1) as nat);
        assert(m / k <= m) by (nonlinear_arith)
            requires
                k > 0,
        ;
    }
}

/// Folding once and then `i` times is folding `i + 1` times.
pub proof fn lemma_folded_len_shift(n: nat, k: nat, i: nat)
    requires
        k > 0,
    ensures
        folded_len(n / k, k, i) == folded_len(n, k, i + 1),
    decreases i,
{
    if i > 0 {
        lemma_folded_len_shift(n, k, (i - 1) as nat);
        assert(folded_len(n / k, k, i) == folded_len(n / k, k, (i - 1) as nat) / k);
        assert(folded_len(n, k, i + 1) == folded_len(n, k, i) / k);
    } else {
        assert(folded_len(n, k, 1) == folded_len(n, k, 0) / k);
    }
}

/// The remainder is the codeword after as many foldings as there are layers to
/// fold.
pub proof fn lemma_remainder_is_last_fold(n: nat, k: nat, max_remainder: nat)
    ensures
        remainder_size(n, k, max_remainder) == folded_len(n, k, num_layers(n, k, max_remainder)),
        remainder_size(n, k, max_remainder) <= max_remainder || k < 2,
    decreases n,
{
    if n > max_remainder && k >= 2 {
        lemma_fold_shrinks(n, k);
        lemma_remainder_is_last_fold(n / k, k, max_remainder);
        lemma_folded_len_shift(n, k, num_layers(n / k, k, max_remainder));
    }
}

/// Parameters of the protocol.
#[derive(Clone, Copy, Debug)]
pub struct FriOptions {
    folding_factor: usize,
    max_remainder_size: usize,
    blowup_factor: usize,
}

impl View for FriOptions {
    type V = OptionsModel;

    closed spec fn view(&self) -> OptionsModel {
        OptionsModel {
            blowup_factor: self.blowup_factor as nat,
            folding_factor: self.folding_factor as nat,
            max_remainder_size: self.max_remainder_size as nat,
        }
    }
}

impl FriOptions {
    /// What every value of this type satisfies: a supported folding factor, and a
    /// remainder bound that is at least the (positive) blowup factor.
    #[verifier::type_invariant]
    pub closed spec fn valid(self) -> bool {
        &&& supported_folding_factor(self.folding_factor as nat)
        &&& 1 <= self.blowup_factor <= self.max_remainder_size
    }

    /// Checks the parameters and keeps them.
    pub fn new(blowup_factor: usize, folding_factor: usize, max_remainder_size: usize) -> (res: Result<
        FriOptions,
        ConfigurationError,
    >)
        ensures
            match res {
                Ok(options) => {
                    &&& supported_folding_factor(folding_factor as nat)
                    &&& 1 <= blowup_factor <= max_remainder_size
                    &&& options@.blowup_factor == blowup_factor
                    &&& options@.folding_factor == folding_factor
                    &&& options@.max_remainder_size == max_remainder_size
                },
                Err(e) => {
                    if !supported_folding_factor(folding_factor as nat) {
                        e == ConfigurationError::UnsupportedFoldingFactor(folding_factor)
                    } else if blowup_factor == 0 {
                        e == ConfigurationError::ZeroBlowupFactor
                    } else {
                        &&& max_remainder_size < blowup_factor
                        &&& e == ConfigurationError::RemainderBelowBlowup(
                            max_remainder_size,
                            blowup_factor,
                        )
                    }
                },
            },
    {
        if folding_factor != 2 && folding_factor != 4 && folding_factor != 8 && folding_factor
            != 16 {
            Err(ConfigurationError::UnsupportedFoldingFactor(folding_factor))
        } else if blowup_factor == 0 {
            Err(ConfigurationError::ZeroBlowupFactor)
        } else if max_remainder_size < blowup_factor {
            Err(ConfigurationError::RemainderBelowBlowup(max_remainder_size, blowup_factor))
        } else {
            Ok(FriOptions { folding_factor, max_remainder_size, blowup_factor })
        }
    }

    pub fn blowup_factor(&self) -> (r: usize)
        ensures
            r == self@.blowup_factor,
            r >= 1,
    {
        proof {
            use_type_invariant(self);
        }
        self.blowup_factor
    }

    pub fn folding_factor(&self) -> (r: usize)
        ensures
            r == self@.folding_factor,
            supported_folding_factor(r as nat),
    {
        proof {
            use_type_invariant(self);
        }
        self.folding_factor
    }

    pub fn max_remainder_size(&self) -> (r: usize)
        ensures
            r == self@.max_remainder_size,
            r >= self@.blowup_factor,
            r >= 1,
    {
        proof {
            use_type_invariant(self);
        }
        self.max_remainder_size
    }

    /// The offset of the coset on which every layer's codeword is read: the
    /// generator of the field's multiplicative group.
    pub fn domain_offset(&self) -> (offset: Felt)
        ensures
            offset@ == field_generator(),
    {
        Felt::generator()
    }

    /// The number of foldings that bring a codeword of `domain_size` values down
    /// to the remainder.
    pub fn num_layers(&self, domain_size: usize) -> (layers: usize)
        ensures
            layers == num_layers(
                domain_size as nat,
                self@.folding_factor,
                self@.max_remainder_size,
            ),
    {
        proof {
            use_type_invariant(self);
        }
        let mut size: usize = domain_size;
        let mut layers: usize = 0;
        while size > self.max_remainder_size
            invariant
                self.valid(),
                layers <= domain_size - size,
                layers + num_layers(
                    size as nat,
                    self.folding_factor as nat,
                    self.max_remainder_size as nat,
                ) == num_layers(
                    domain_size as nat,
                    self.folding_factor as nat,
                    self.max_remainder_size as nat,
                ),
            decreases size,
        {
            proof {
                lemma_fold_shrinks(size as nat, self.folding_factor as nat);
            }
            size = size / self.folding_factor;
            layers = layers + 1;
        }
        layers
    }

    /// The length of the remainder of a codeword of `domain_size` values.
    pub fn remainder_size(&self, domain_size: usize) -> (size: usize)
        ensures
            size == remainder_size(
                domain_size as nat,
                self@.folding_factor,
                self@.max_remainder_size,
            ),
    {
        proof {
            use_type_invariant(self);
        }
        let mut size: usize = domain_size;
        while size > self.max_remainder_size
            invariant
                self.valid(),
                remainder_size(
                    size as nat,
                    self.folding_factor as nat,
                    self.max_remainder_size as nat,
                ) == remainder_size(
                    domain_size as nat,
                    self.folding_factor as nat,
                    self.max_remainder_size as nat,
                ),
            decreases size,
        {
            proof {
                lemma_fold_shrinks(size as nat, self.folding_factor as nat);
            }
            size = size / self.folding_factor;
        }
        size
    }
}

} // verus!
