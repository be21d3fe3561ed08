//! The transcript from which the folding challenges are drawn.

use crate::field::limb_base;
use crate::field::modulus;
use crate::field::Felt;
use crate::hash::concat_bytes;
use crate::hash::le_bytes;
use crate::hash::sha256;
use crate::hash::sha256_digest;
use vstd::prelude::*;

verus! {

/// The number that the eight bytes from `start` on stand for, least significant
/// first.
pub open spec fn limb_of_bytes(s: Seq<u8>, start: int) -> nat {
    (s[start] + 0x100 * s[start + 1] + 0x1_0000 * s[start + 2] + 0x100_0000 * s[start + 3]
        + 0x1_0000_0000 * s[start + 4] + 0x100_0000_0000 * s[start + 5] + 0x1_0000_0000_0000
        * s[start + 6] + 0x100_0000_0000_0000 * s[start + 7]) as nat
}

/// The number below 2^255 that a digest of 32 bytes stands for: its bytes, least
/// significant first, without the highest bit of the last.
pub open spec fn candidate(digest: Seq<u8>) -> nat {
    let low = digest.update(31, (digest[31] % 128) as u8);
    limb_of_bytes(low, 0) + limb_base() * (limb_of_bytes(low, 8) + limb_base() * (limb_of_bytes(
        low,
        16,
    ) + limb_base() * limb_of_bytes(low, 24)))
}

/// The state of a public coin: its seed, and how many digests were taken from it
/// since it was last seeded.
pub struct CoinState {
    pub seed: Seq<u8>,
    pub counter: nat,
}

/// The state after `data` was absorbed.
pub open spec fn reseeded(state: CoinState, data: Seq<u8>) -> CoinState {
    CoinState { seed: sha256(state.seed + data), counter: 0 }
}

/// The `n`-th digest that a seed gives.
pub open spec fn nth_digest(seed: Seq<u8>, n: nat) -> Seq<u8> {
    sha256(seed + le_bytes(n, 8))
}

/// The field element that is drawn in a state, and the counter after the draw: the
/// first of the following digests that stands for a number below the modulus decides.
/// A coin whose counter is exhausted gives zero.
pub open spec fn draw_outcome(seed: Seq<u8>, counter: nat) -> (nat, nat)
    decreases u64::MAX - counter,
{
    if counter >= u64::MAX {
        (0, counter)
    } else {
        let value = candidate(nth_digest(seed, counter + 1));
        if value < modulus() {
            (value, counter + 1)
        } else {
            draw_outcome(seed, counter + 1)
        }
    }
}

/// The field element that is drawn in a state.
pub open spec fn drawn_value(state: CoinState) -> nat {
    draw_outcome(state.seed, state.counter).0
}

/// The state after a draw.
pub open spec fn after_draw(state: CoinState) -> CoinState {
    CoinState { seed: state.seed, counter: draw_outcome(state.seed, state.counter).1 }
}

/// A prover's view of the transcript: it absorbs the commitment to each layer and
/// gives the challenge by which the layer is folded. Each challenge depends on
/// nothing but the state in which it is drawn.
pub trait ProverChannel: View {
    /// The state after the root of a layer was absorbed.
    spec fn committed(state: Self::V, layer_root: Seq<u8>) -> Self::V;

    /// The challenge that is drawn in a state.
    spec fn challenge(state: Self::V) -> nat;

    /// The state after a challenge was drawn.
    spec fn advanced(state: Self::V) -> Self::V;

    /// Absorbs the root of a layer's Merkle tree.
    fn commit_fri_layer(&mut self, layer_root: &Vec<u8>)
        ensures
            final(self)@ == Self::committed(old(self)@, layer_root@),
    ;

    /// Draws the challenge for the layer that was absorbed last.
    fn draw_fri_alpha(&mut self) -> (alpha: Felt)
        ensures
            alpha@ == Self::challenge(old(self)@),
            final(self)@ == Self::advanced(old(self)@),
    ;
}

/// The eight bytes of `x`, least significant first.
pub fn u64_le_bytes(x: u64) -> (bytes: Vec<u8>)
    ensures
        bytes@ == le_bytes(x as nat, 8),
{
    let mut bytes: Vec<u8> = Vec::new();
    let mut rest: u64 = x;
    let mut i: usize = 0;
    while i < 8
        invariant
            i <= 8,
            bytes.len() == i,
            le_bytes(x as nat, 8) == bytes@ + le_bytes(rest as nat, (8 - i) as nat),
        decreases 8 - i,
    {
        let ghost before = bytes@;
        bytes.push((rest % 256) as u8);
        proof {
            assert(before + le_bytes(rest as nat, (8 - i) as nat) =~= bytes@ + le_bytes(
                (rest / 256) as nat,
                (8 - i - 1) as nat,
            ));
        }
        rest = rest / 256;
        i = i + 1;
    }
    proof {
        assert(bytes@ + le_bytes(rest as nat, 0) =~= bytes@);
    }
    bytes
}

/// The limb that the eight bytes from `start` on stand for, the last byte taken as
/// `last`.
fn limb_from_bytes(bytes: &Vec<u8>, start: usize, last: u8) -> (limb: u64)
    requires
        start + 8 <= bytes.len(),
    ensures
        limb == limb_of_bytes(bytes@.update(start + 7, last), start as int),
{
    let b0 = bytes[start] as u64;
    let b1 = bytes[start + 1] as u64;
    let b2 = bytes[start + 2] as u64;
    let b3 = bytes[start + 3] as u64;
    let b4 = bytes[start + 4] as u64;
    let b5 = bytes[start + 5] as u64;
    let b6 = bytes[start + 6] as u64;
    let b7 = last as u64;
    b0 + 0x100 * b1 + 0x1_0000 * b2 + 0x100_0000 * b3 + 0x1_0000_0000 * b4 + 0x100_0000_0000 * b5
        + 0x1_0000_0000_0000 * b6 + 0x100_0000_0000_0000 * b7
}

/// The field element that a digest stands for, if its number is below the modulus.
pub fn element_of_digest(digest: &Vec<u8>) -> (element: Option<Felt>)
    requires
        digest.len() == 32,
    ensures
        element.is_some() <==> candidate(digest@) < modulus(),
        element.is_some() ==> element.unwrap()@ == candidate(digest@),
{
    let l0 = limb_from_bytes(digest, 0, digest[7]);
    let l1 = limb_from_bytes(digest, 8, digest[15]);
    let l2 = limb_from_bytes(digest, 16, digest[23]);
    let l3 = limb_from_bytes(digest, 24, digest[31] % 128);
    proof {
        let low = digest@.update(31, (digest@[31] % 128) as u8);
        assert(digest@.update(7, digest@[7]) =~= digest@);
        assert(digest@.update(15, digest@[15]) =~= digest@);
        assert(digest@.update(23, digest@[23]) =~= digest@);
        assert(l0 == limb_of_bytes(low, 0));
        assert(l1 == limb_of_bytes(low, 8));
        assert(l2 == limb_of_bytes(low, 16));
        assert(l3 == limb_of_bytes(low, 24));
    }
    Felt::from_limbs(l0, l1, l2, l3)
}

/// A public coin: a hash chain that absorbs commitments and gives field elements.
#[derive(Debug)]
pub struct PublicCoin {
    seed: Vec<u8>,
    counter: u64,
}

impl View for PublicCoin {
    type V = CoinState;

    closed spec fn view(&self) -> CoinState {
        CoinState { seed: self.seed@, counter: self.counter as nat }
    }
}

impl PublicCoin {
    /// A coin seeded with the digest of `seed`.
    pub fn new(seed: &Vec<u8>) -> (coin: PublicCoin)
        ensures
            coin@ == (CoinState { seed: sha256(seed@), counter: 0 }),
    {
        PublicCoin { seed: sha256_digest(seed), counter: 0 }
    }

    /// Absorbs `data`: the new seed is the digest of the old seed followed by `data`.
    pub fn reseed(&mut self, data: &Vec<u8>)
        ensures
            final(self)@ == reseeded(old(self)@, data@),
    {
        let bytes = concat_bytes(&self.seed, data);
        self.seed = sha256_digest(&bytes);
        self.counter = 0;
    }

    /// Draws a field element: digests are taken from the seed until one stands for a
    /// number below the modulus.
    pub fn draw(&mut self) -> (element: Felt)
        ensures
            element@ == drawn_value(old(self)@),
            final(self)@ == after_draw(old(self)@),
    {
        while self.counter < u64::MAX
            invariant
                self.seed == old(self).seed,
                draw_outcome(self.seed@, self.counter as nat) == draw_outcome(
                    old(self).seed@,
                    old(self).counter as nat,
                ),
            decreases u64::MAX - self.counter,
        {
            self.counter = self.counter + 1;
            let bytes = concat_bytes(&self.seed, &u64_le_bytes(self.counter));
            let digest = sha256_digest(&bytes);
            match element_of_digest(&digest) {
                Some(element) => {
                    return element;
                },
                None => {},
            }
        }
        Felt::zero()
    }
}

impl ProverChannel for PublicCoin {
    open spec fn committed(state: CoinState, layer_root: Seq<u8>) -> CoinState {
        reseeded(state, layer_root)
    }

    open spec fn challenge(state: CoinState) -> nat {
        drawn_value(state)
    }

    open spec fn advanced(state: CoinState) -> CoinState {
        after_draw(state)
    }

    fn commit_fri_layer(&mut self, layer_root: &Vec<u8>) {
        self.reseed(layer_root);
    }

    fn draw_fri_alpha(&mut self) -> (alpha: Felt) {
        self.draw()
    }
}

} // verus!
