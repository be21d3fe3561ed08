//! The layout in which a layer stores its codeword: the values that are folded
//! together stand side by side.

use crate::field::values;
use crate::field::Felt;
use vstd::prelude::*;

verus! {

/// The interleaved layout of `s` in tuples of `k`: with `w = s.len() / k`, tuple `i`
/// holds the entries `i, i + w, i + 2w, ..` of `s`.
pub open spec fn interleaved<A>(s: Seq<A>, k: nat) -> Seq<A> {
    if k == 0 {
        Seq::empty()
    } else {
        let w = s.len() / k;
        Seq::new(w * k, |t: int| s[t / (k as int) + w * (t % (k as int))])
    }
}

/// The natural order of an interleaved `s`: with `w = s.len() / k`, entry
/// `i + w * j` is entry `i * k + j` of `s`.
pub open spec fn deinterleaved<A>(s: Seq<A>, k: nat) -> Seq<A> {
    if k == 0 {
        Seq::empty()
    } else {
        let w = s.len() / k;
        Seq::new(w * k, |t: int| s[(t % (w as int)) * k + t / (w as int)])
    }
}

/// `i + w * j` splits into `j` and `i` by division by `w`.
pub proof fn lemma_split_index(i: int, j: int, w: int)
    requires
        0 <= i < w,
        0 <= j,
    ensures
        (i + w * j) / w == j,
        (i + w * j) % w == i,
        (j * w + i) / w == j,
        (j * w + i) % w == i,
{
    assert(j * w == w * j) by (nonlinear_arith);
    vstd::arithmetic::div_mod::lemma_fundamental_div_mod_converse(i + w * j, w, j, i);
}

/// A position below `w * k` splits into a quotient below `w` and a remainder below
/// `k`.
pub proof fn lemma_index_parts(t: int, w: int, k: int)
    requires
        0 <= t < w * k,
        w > 0,
        k > 0,
    ensures
        0 <= t / k < w,
        0 <= t % k < k,
        t == (t / k) * k + t % k,
        0 <= t / w < k,
        0 <= t % w < w,
        t == (t / w) * w + t % w,
{
    vstd::arithmetic::div_mod::lemma_fundamental_div_mod(t, k);
    vstd::arithmetic::div_mod::lemma_fundamental_div_mod(t, w);
    assert(t / k < w) by (nonlinear_arith)
        requires
            0 <= t < w * k,
            k > 0,
            t == k * (t / k) + t % k,
            0 <= t % k < k,
    ;
    assert(t / k >= 0) by (nonlinear_arith)
        requires
            0 <= t,
            k > 0,
            t == k * (t / k) + t % k,
            0 <= t % k < k,
    ;
    assert(t / w < k) by (nonlinear_arith)
        requires
            0 <= t < w * k,
            w > 0,
            t == w * (t / w) + t % w,
            0 <= t % w < w,
    ;
    assert(t / w >= 0) by (nonlinear_arith)
        requires
            0 <= t,
            w > 0,
            t == w * (t / w) + t % w,
            0 <= t % w < w,
    ;
    assert((t / k) * k == k * (t / k)) by (nonlinear_arith);
    assert((t / w) * w == w * (t / w)) by (nonlinear_arith);
}

/// Interleaving and then restoring the natural order gives the sequence back.
pub proof fn lemma_deinterleave_interleave<A>(s: Seq<A>, k: nat)
    requires
        k > 0,
        s.len() % k == 0,
    ensures
        deinterleaved(interleaved(s, k), k) == s,
{
    let w = (s.len() / k) as int;
    let kk = k as int;
    vstd::arithmetic::div_mod::lemma_fundamental_div_mod(s.len() as int, kk);
    assert(w * kk == s.len()) by (nonlinear_arith)
        requires
            s.len() == kk * w + 0,
    ;
    let m = interleaved(s, k);
    assert(m.len() == w * kk);
    vstd::arithmetic::div_mod::lemma_fundamental_div_mod_converse(m.len() as int, kk, w, 0);
    let d = deinterleaved(m, k);
    assert(d.len() == s.len());
    assert forall|t: int| 0 <= t < s.len() implies d[t] == s[t] by {
        lemma_index_parts(t, w, kk);
        let i = t % w;
        let j = t / w;
        let u = i * kk + j;
        lemma_split_index(j, i, kk);
        assert(0 <= u < w * kk) by (nonlinear_arith)
            requires
                0 <= i < w,
                0 <= j < kk,
                u == i * kk + j,
        ;
        assert(u / kk == i);
        assert(u % kk == j);
        assert(d[t] == m[u]);
        assert(m[u] == s[i + w * j]);
        assert(w * j == j * w) by (nonlinear_arith);
    }
    assert(d =~= s);
}

/// Restoring the natural order and then interleaving gives the sequence back.
pub proof fn lemma_interleave_deinterleave<A>(s: Seq<A>, k: nat)
    requires
        k > 0,
        s.len() % k == 0,
    ensures
        interleaved(deinterleaved(s, k), k) == s,
{
    let w = (s.len() / k) as int;
    let kk = k as int;
    vstd::arithmetic::div_mod::lemma_fundamental_div_mod(s.len() as int, kk);
    assert(w * kk == s.len()) by (nonlinear_arith)
        requires
            s.len() == kk * w + 0,
    ;
    let d = deinterleaved(s, k);
    assert(d.len() == w * kk);
    vstd::arithmetic::div_mod::lemma_fundamental_div_mod_converse(d.len() as int, kk, w, 0);
    let m = interleaved(d, k);
    assert(m.len() == s.len());
    assert forall|t: int| 0 <= t < s.len() implies m[t] == s[t] by {
        lemma_index_parts(t, w, kk);
        let i = t / kk;
        let j = t % kk;
        let u = i + w * j;
        lemma_split_index(i, j, w);
        assert(0 <= u < w * kk) by (nonlinear_arith)
            requires
                0 <= i < w,
                0 <= j < kk,
                u == i + w * j,
        ;
        assert(m[t] == d[u]);
        assert(d[u] == s[i * kk + j]);
    }
    assert(m =~= s);
}

/// The values of an interleaved sequence of elements are the interleaved values.
pub proof fn lemma_values_interleaved(s: Seq<Felt>, k: nat)
    requires
        k > 0,
    ensures
        values(interleaved(s, k)) == interleaved(values(s), k),
{
    let w = (s.len() / k) as int;
    let kk = k as int;
    let a = values(interleaved(s, k));
    let b = interleaved(values(s), k);
    assert(a.len() == b.len());
    if w > 0 {
        assert forall|t: int| 0 <= t < a.len() implies a[t] == b[t] by {
            lemma_index_parts(t, w, kk);
            let u = t / kk + w * (t % kk);
            vstd::arithmetic::div_mod::lemma_fundamental_div_mod(s.len() as int, kk);
            assert(0 <= u < s.len()) by (nonlinear_arith)
                requires
                    0 <= t / kk < w,
                    0 <= t % kk < kk,
                    u == t / kk + w * (t % kk),
                    s.len() == kk * w + (s.len() as int) % kk,
                    0 <= (s.len() as int) % kk,
            ;
        }
    } else {
        assert(w * kk == 0) by (nonlinear_arith)
            requires
                w == 0,
        ;
    }
    assert(a =~= b);
}

/// The values of a sequence of elements brought back to natural order are the values
/// brought back to natural order.
pub proof fn lemma_values_deinterleaved(s: Seq<Felt>, k: nat)
    requires
        k > 0,
    ensures
        values(deinterleaved(s, k)) == deinterleaved(values(s), k),
{
    let w = (s.len() / k) as int;
    let kk = k as int;
    let a = values(deinterleaved(s, k));
    let b = deinterleaved(values(s), k);
    assert(a.len() == b.len());
    if w > 0 {
        assert forall|t: int| 0 <= t < a.len() implies a[t] == b[t] by {
            lemma_index_parts(t, w, kk);
            let u = (t % w) * kk + t / w;
            vstd::arithmetic::div_mod::lemma_fundamental_div_mod(s.len() as int, kk);
            assert(0 <= u < s.len()) by (nonlinear_arith)
                requires
                    0 <= t / w < kk,
                    0 <= t % w < w,
                    u == (t % w) * kk + t / w,
                    s.len() == kk * w + (s.len() as int) % kk,
                    0 <= (s.len() as int) % kk,
            ;
        }
    } else {
        assert(w * kk == 0) by (nonlinear_arith)
            requires
                w == 0,
        ;
    }
    assert(a =~= b);
}

/// The interleaved layout of a codeword in tuples of `k`.
pub fn interleave(source: &Vec<Felt>, k: usize) -> (res: Vec<Felt>)
    requires
        k > 0,
    ensures
        res@ == interleaved(source@, k as nat),
        values(res@) == interleaved(values(source@), k as nat),
        res.len() == (source.len() / k) * k,
{
    let w: usize = source.len() / k;
    proof {
        vstd::arithmetic::div_mod::lemma_fundamental_div_mod(source.len() as int, k as int);
        assert(w * k <= source.len()) by (nonlinear_arith)
            requires
                source.len() == k * w + (source.len() as int) % (k as int),
                0 <= (source.len() as int) % (k as int),
        ;
    }
    let mut res: Vec<Felt> = Vec::new();
    let mut i: usize = 0;
    while i < w
        invariant
            k > 0,
            w == source.len() / k,
            w * k <= source.len(),
            i <= w,
            res.len() == i * k,
            forall|t: int|
                0 <= t < i * k ==> #[trigger] res@[t] == source@[t / (k as int) + w * (t % (
                k as int))],
        decreases w - i,
    {
        let mut j: usize = 0;
        while j < k
            invariant
                k > 0,
                w == source.len() / k,
                w * k <= source.len(),
                i < w,
                j <= k,
                res.len() == i * k + j,
                forall|t: int|
                    0 <= t < i * k + j ==> #[trigger] res@[t] == source@[t / (k as int) + w * (t
                        % (k as int))],
            decreases k - j,
        {
            proof {
                assert(i + w * j < w * k) by (nonlinear_arith)
                    requires
                        i < w,
                        j < k,
                ;
                assert(i * k + j < w * k) by (nonlinear_arith)
                    requires
                        i < w,
                        j < k,
                ;
                lemma_split_index(j as int, i as int, k as int);
            }
            res.push(source[i + w * j]);
            j = j + 1;
        }
        proof {
            assert(i * k + k == (i + 1) * k) by (nonlinear_arith);
        }
        i = i + 1;
    }
    proof {
        assert(res@ =~= interleaved(source@, k as nat));
        lemma_values_interleaved(source@, k as nat);
    }
    res
}

/// The natural order of an interleaved codeword in tuples of `k`.
pub fn deinterleave(source: &Vec<Felt>, k: usize) -> (res: Vec<Felt>)
    requires
        k > 0,
    ensures
        res@ == deinterleaved(source@, k as nat),
        values(res@) == deinterleaved(values(source@), k as nat),
        res.len() == (source.len() / k) * k,
{
    let w: usize = source.len() / k;
    proof {
        vstd::arithmetic::div_mod::lemma_fundamental_div_mod(source.len() as int, k as int);
        assert(w * k <= source.len()) by (nonlinear_arith)
            requires
                source.len() == k * w + (source.len() as int) % (k as int),
                0 <= (source.len() as int) % (k as int),
        ;
    }
    let mut res: Vec<Felt> = Vec::new();
    let mut j: usize = 0;
    while j < k
        invariant
            k > 0,
            w == source.len() / k,
            w * k <= source.len(),
            j <= k,
            res.len() == j * w,
            forall|t: int|
                0 <= t < j * w ==> #[trigger] res@[t] == source@[(t % (w as int)) * k + t / (
                w as int)],
        decreases k - j,
    {
        let mut i: usize = 0;
        while i < w
            invariant
                k > 0,
                w == source.len() / k,
                w * k <= source.len(),
                j < k,
                i <= w,
                res.len() == j * w + i,
                forall|t: int|
                    0 <= t < j * w + i ==> #[trigger] res@[t] == source@[(t % (w as int)) * k + t
                        / (w as int)],
            decreases w - i,
        {
            proof {
                assert(i * k + j < w * k) by (nonlinear_arith)
                    requires
                        i < w,
                        j < k,
                ;
                assert(j * w + i < w * k) by (nonlinear_arith)
                    requires
                        i < w,
                        j < k,
                ;
                lemma_split_index(i as int, j as int, w as int);
            }
            res.push(source[i * k + j]);
            i = i + 1;
        }
        proof {
            assert(j * w + w == (j + 1) * w) by (nonlinear_arith);
        }
        j = j + 1;
    }
    proof {
        assert(k * w == w * k) by (nonlinear_arith);
        assert(res@ =~= deinterleaved(source@, k as nat));
        lemma_values_deinterleaved(source@, k as nat);
    }
    res
}

} // verus!
