//! Folding of query positions into the leaf space of a layer.

use vstd::prelude::*;

verus! {

/// Each entry is smaller than every later one.
pub open spec fn strictly_ascending(s: Seq<usize>) -> bool {
    forall|i: int, j: int| 0 <= i < j < s.len() ==> s[i] < s[j]
}

/// The residues modulo `m` of the positions `ps`.
pub open spec fn residues(ps: Seq<usize>, m: usize) -> Set<usize> {
    Set::new(|r: usize| exists|i: int| 0 <= i < ps.len() && #[trigger] (ps[i] % m) == r)
}

/// `r` lists the residues modulo `m` of `ps`, each once, in ascending order.
pub open spec fn is_folding(r: Seq<usize>, ps: Seq<usize>, m: usize) -> bool {
    &&& strictly_ascending(r)
    &&& forall|x: usize| r.contains(x) <==> residues(ps, m).contains(x)
}

/// The residues modulo `m` of `ps`, each once, in ascending order.
pub open spec fn folded_positions(ps: Seq<usize>, m: usize) -> Seq<usize> {
    choose|r: Seq<usize>| is_folding(r, ps, m)
}

/// Two ascending sequences with the same entries are the same sequence.
pub proof fn lemma_ascending_unique(a: Seq<usize>, b: Seq<usize>)
    requires
        strictly_ascending(a),
        strictly_ascending(b),
        forall|x: usize| a.contains(x) <==> b.contains(x),
    ensures
        a == b,
    decreases a.len(),
{
    if a.len() == 0 {
        if b.len() > 0 {
            assert(b.contains(b[0]));
            assert(a.contains(b[0]));
        }
        assert(a =~= b);
    } else {
        let x = a.last();
        assert(a.contains(x));
        assert(b.contains(x));
        let j = choose|j: int| 0 <= j < b.len() && b[j] == x;
        if j < b.len() - 1 {
            let y = b.last();
            assert(b.contains(y));
            assert(a.contains(y));
            let i = choose|i: int| 0 <= i < a.len() && a[i] == y;
            assert(a[i] <= x);
        }
        let a0 = a.drop_last();
        let b0 = b.drop_last();
        assert forall|y: usize| a0.contains(y) <==> b0.contains(y) by {
            if a0.contains(y) {
                let i = choose|i: int| 0 <= i < a0.len() && a0[i] == y;
                assert(a[i] == y);
                assert(a.contains(y));
                let t = choose|t: int| 0 <= t < b.len() && b[t] == y;
                assert(y < x);
                assert(b0[t] == y);
            }
            if b0.contains(y) {
                let i = choose|i: int| 0 <= i < b0.len() && b0[i] == y;
                assert(b[i] == y);
                assert(b.contains(y));
                let t = choose|t: int| 0 <= t < a.len() && a[t] == y;
                assert(y < x);
                assert(a0[t] == y);
            }
        }
        lemma_ascending_unique(a0, b0);
        assert(a =~= a0.push(x));
        assert(b =~= b0.push(x));
    }
}

/// A folding of `ps` modulo `m` is the folding of `ps` modulo `m`.
pub proof fn lemma_folding_unique(r: Seq<usize>, ps: Seq<usize>, m: usize)
    requires
        is_folding(r, ps, m),
    ensures
        r == folded_positions(ps, m),
{
    let c = folded_positions(ps, m);
    assert(is_folding(c, ps, m));
    lemma_ascending_unique(r, c);
}

/// Folding a list and one more position: the residue of the new position joins those
/// of the list.
proof fn lemma_residues_push(ps: Seq<usize>, p: usize, m: usize, x: usize)
    requires
        m > 0,
    ensures
        residues(ps.push(p), m).contains(x) <==> (residues(ps, m).contains(x) || x == p % m),
{
    let qs = ps.push(p);
    if residues(qs, m).contains(x) {
        let i = choose|i: int| 0 <= i < qs.len() && #[trigger] (qs[i] % m) == x;
        if i < ps.len() {
            assert(ps[i] % m == x);
        }
    }
    if residues(ps, m).contains(x) {
        let i = choose|i: int| 0 <= i < ps.len() && #[trigger] (ps[i] % m) == x;
        assert(qs[i] % m == x);
    }
    if x == p % m {
        assert(qs[ps.len() as int] % m == x);
    }
}

/// An ascending sequence and one more number: there is an ascending sequence of
/// just these.
proof fn lemma_insertion_exists(r: Seq<usize>, x: usize)
    requires
        strictly_ascending(r),
    ensures
        exists|s: Seq<usize>|
            strictly_ascending(s) && forall|y: usize|
                #[trigger] s.contains(y) <==> (r.contains(y) || y == x),
    decreases r.len(),
{
    if r.len() == 0 {
        let s = seq![x];
        assert(s[0] == x);
        assert(strictly_ascending(s) && forall|y: usize|
            #[trigger] s.contains(y) <==> (r.contains(y) || y == x));
    } else {
        let last = r.last();
        let rest = r.drop_last();
        assert(r =~= rest.push(last));
        if last < x {
            let s = r.push(x);
            assert forall|y: usize| #[trigger] s.contains(y) <==> (r.contains(y) || y == x) by {
                if s.contains(y) {
                    let i = choose|i: int| 0 <= i < s.len() && s[i] == y;
                    if i < r.len() {
                        assert(r[i] == y);
                    }
                }
                if r.contains(y) {
                    let i = choose|i: int| 0 <= i < r.len() && r[i] == y;
                    assert(s[i] == y);
                }
                if y == x {
                    assert(s[r.len() as int] == y);
                }
            }
            assert(strictly_ascending(s)) by {
                assert forall|i: int, j: int| 0 <= i < j < s.len() implies s[i] < s[j] by {
                    if j == r.len() {
                        assert(r[i] <= last);
                    }
                }
            }
            assert(strictly_ascending(s) && forall|y: usize|
                #[trigger] s.contains(y) <==> (r.contains(y) || y == x));
        } else if last == x {
            assert(r.contains(x));
            assert(strictly_ascending(r) && forall|y: usize|
                #[trigger] r.contains(y) <==> (r.contains(y) || y == x));
        } else {
            lemma_insertion_exists(rest, x);
            let s0 = choose|s: Seq<usize>|
                strictly_ascending(s) && forall|y: usize|
                    #[trigger] s.contains(y) <==> (rest.contains(y) || y == x);
            let s = s0.push(last);
            assert forall|i: int| 0 <= i < s0.len() implies s0[i] < last by {
                assert(s0.contains(s0[i]));
                if rest.contains(s0[i]) {
                    let t = choose|t: int| 0 <= t < rest.len() && rest[t] == s0[i];
                    assert(r[t] < r[r.len() - 1]);
                }
            }
            assert(strictly_ascending(s));
            assert forall|y: usize| #[trigger] s.contains(y) <==> (r.contains(y) || y == x) by {
                if s.contains(y) {
                    let i = choose|i: int| 0 <= i < s.len() && s[i] == y;
                    if i < s0.len() {
                        assert(s0.contains(y));
                        if rest.contains(y) {
                            let t = choose|t: int| 0 <= t < rest.len() && rest[t] == y;
                            assert(r[t] == y);
                        }
                    } else {
                        assert(r[r.len() - 1] == y);
                    }
                }
                if r.contains(y) {
                    let t = choose|t: int| 0 <= t < r.len() && r[t] == y;
                    if t < rest.len() {
                        assert(rest[t] == y);
                        assert(rest.contains(y));
                        assert(s0.contains(y));
                        let i = choose|i: int| 0 <= i < s0.len() && s0[i] == y;
                        assert(s[i] == y);
                    } else {
                        assert(s[s0.len() as int] == y);
                    }
                }
                if y == x {
                    assert(s0.contains(y));
                    let i = choose|i: int| 0 <= i < s0.len() && s0[i] == y;
                    assert(s[i] == y);
                }
            }
            assert(strictly_ascending(s) && forall|y: usize|
                #[trigger] s.contains(y) <==> (r.contains(y) || y == x));
        }
    }
}

/// Every list of positions has a folding for every modulus but zero.
proof fn lemma_folding_exists(ps: Seq<usize>, m: usize)
    requires
        m > 0,
    ensures
        exists|r: Seq<usize>| is_folding(r, ps, m),
    decreases ps.len(),
{
    if ps.len() == 0 {
        let r = Seq::<usize>::empty();
        assert forall|x: usize| r.contains(x) <==> residues(ps, m).contains(x) by {}
        assert(is_folding(r, ps, m));
    } else {
        let before = ps.drop_last();
        let p = ps.last();
        assert(ps =~= before.push(p));
        lemma_folding_exists(before, m);
        let r0 = choose|r: Seq<usize>| is_folding(r, before, m);
        lemma_insertion_exists(r0, (p % m) as usize);
        let r = choose|s: Seq<usize>|
            strictly_ascending(s) && forall|y: usize|
                #[trigger] s.contains(y) <==> (r0.contains(y) || y == (p % m) as usize);
        assert forall|x: usize| r.contains(x) <==> residues(ps, m).contains(x) by {
            lemma_residues_push(before, p, m, x);
        }
        assert(is_folding(r, ps, m));
    }
}

/// The folded positions are ascending, they are the residues of the positions, and
/// each is below the modulus.
pub proof fn lemma_folded_positions(ps: Seq<usize>, m: usize)
    requires
        m > 0,
    ensures
        is_folding(folded_positions(ps, m), ps, m),
        forall|j: int|
            0 <= j < folded_positions(ps, m).len() ==> #[trigger] folded_positions(ps, m)[j] < m,
{
    lemma_folding_exists(ps, m);
    let r = folded_positions(ps, m);
    assert forall|j: int| 0 <= j < r.len() implies #[trigger] r[j] < m by {
        assert(r.contains(r[j]));
        assert(residues(ps, m).contains(r[j]));
    }
}

/// The residues modulo `max` of the positions, each once, in ascending order.
pub fn fold_positions(positions: &[usize], max: usize) -> (res: Vec<usize>)
    requires
        max > 0,
    ensures
        strictly_ascending(res@),
        forall|i: int| 0 <= i < res.len() ==> res[i] < max,
        forall|x: usize| res@.contains(x) <==> residues(positions@, max).contains(x),
        res@ == folded_positions(positions@, max),
        res.len() <= positions.len(),
{
    let mut res: Vec<usize> = Vec::new();
    let mut n: usize = 0;
    while n < positions.len()
        invariant
            max > 0,
            n <= positions.len(),
            res.len() <= n,
            strictly_ascending(res@),
            forall|i: int| 0 <= i < res.len() ==> res[i] < max,
            forall|x: usize|
                res@.contains(x) <==> residues(positions@.take(n as int), max).contains(x),
        decreases positions.len() - n,
    {
        let r = positions[n] % max;
        let mut at: usize = 0;
        while at < res.len() && res[at] < r
            invariant
                at <= res.len(),
                forall|i: int| 0 <= i < at ==> res[i] < r,
            decreases res.len() - at,
        {
            at = at + 1;
        }
        let ghost before = res@;
        let ghost seen = positions@.take(n as int);
        proof {
            assert(positions@.take(n + 1) =~= seen.push(positions@[n as int]));
        }
        if at < res.len() && res[at] == r {
            proof {
                assert(before.contains(r));
            }
        } else {
            res.insert(at, r);
            proof {
                assert forall|x: usize| res@.contains(x) <==> (before.contains(x) || x == r) by {
                    if res@.contains(x) {
                        let i = choose|i: int| 0 <= i < res@.len() && res@[i] == x;
                        if i < at {
                            assert(before[i] == x);
                        } else if i > at {
                            assert(before[i - 1] == x);
                        }
                    }
                    if before.contains(x) {
                        let i = choose|i: int| 0 <= i < before.len() && before[i] == x;
                        if i < at {
                            assert(res@[i] == x);
                        } else {
                            assert(res@[i + 1] == x);
                        }
                    }
                    if x == r {
                        assert(res@[at as int] == x);
                    }
                }
            }
        }
        proof {
            let now = positions@.take(n + 1);
            assert(now == seen.push(positions@[n as int]));
            assert forall|x: usize| res@.contains(x) <==> residues(now, max).contains(x) by {
                lemma_residues_push(seen, positions@[n as int], max, x);
                assert(before.contains(x) <==> residues(seen, max).contains(x));
            }
        }
        n = n + 1;
    }
    proof {
        assert(positions@.take(n as int) =~= positions@);
        lemma_folding_unique(res@, positions@, max);
    }
    res
}

} // verus!
