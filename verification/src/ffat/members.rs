use vstd::prelude::*;
use crate::ffat::chains::disjoint;
use crate::ffat::payload::{lacking, lemma_in_concat};

verus! {

/// The chain that `c` becomes where it is to hold `n` sectors, with `f` as the free list.
pub open spec fn fitted(c: Seq<u64>, f: Seq<u64>, n: int) -> Seq<u64> {
    (c + f.take(lacking(c.len(), n as nat) as int)).take(n)
}

/// The free list that `f` becomes where the chain `c` is to hold `n` sectors.
pub open spec fn spared(c: Seq<u64>, f: Seq<u64>, n: int) -> Seq<u64> {
    (c + f.take(lacking(c.len(), n as nat) as int)).skip(n) + f.skip(
        lacking(c.len(), n as nat) as int,
    )
}

/// What is in the first part of a list is in the list.
pub proof fn lemma_in_take(s: Seq<u64>, k: int, x: u64)
    requires
        0 <= k <= s.len(),
        s.take(k).contains(x),
    ensures
        s.contains(x),
{
    let i = choose|i: int| 0 <= i < s.take(k).len() && s.take(k)[i] == x;
    assert(s[i] == x);
}

/// What is in the last part of a list is in the list.
pub proof fn lemma_in_skip(s: Seq<u64>, k: int, x: u64)
    requires
        0 <= k <= s.len(),
        s.skip(k).contains(x),
    ensures
        s.contains(x),
{
    let i = choose|i: int| 0 <= i < s.skip(k).len() && s.skip(k)[i] == x;
    assert(s[i + k] == x);
}

/// What is in a list is in its first or in its last part.
pub proof fn lemma_in_parts(s: Seq<u64>, k: int, x: u64)
    requires
        0 <= k <= s.len(),
        s.contains(x),
    ensures
        s.take(k).contains(x) || s.skip(k).contains(x),
{
    let i = choose|i: int| 0 <= i < s.len() && s[i] == x;
    if i < k {
        assert(s.take(k)[i] == x);
    } else {
        assert(s.skip(k)[i - k] == x);
    }
}

/// A chain that is fitted to a number of sectors, and the free list that is left, hold
/// between them what the chain and the free list held before.
pub proof fn lemma_members_kept(c: Seq<u64>, f: Seq<u64>, n: int, x: u64)
    requires
        1 <= n,
        c.len() >= 1,
        lacking(c.len(), n as nat) <= f.len(),
    ensures
        (fitted(c, f, n).contains(x) || spared(c, f, n).contains(x)) == (c.contains(x)
            || f.contains(x)),
        fitted(c, f, n).len() == n,
        fitted(c, f, n)[0] == c[0],
{
    let k = lacking(c.len(), n as nat) as int;
    let c2 = c + f.take(k);
    let c3 = c2.take(n);
    let rest = c2.skip(n);
    let f3 = rest + f.skip(k);
    lemma_in_concat(c, f.take(k), x);
    lemma_in_concat(rest, f.skip(k), x);
    if c3.contains(x) {
        lemma_in_take(c2, n, x);
        if f.take(k).contains(x) {
            lemma_in_take(f, k, x);
        }
    }
    if rest.contains(x) {
        lemma_in_skip(c2, n, x);
        if f.take(k).contains(x) {
            lemma_in_take(f, k, x);
        }
    }
    if f.skip(k).contains(x) {
        lemma_in_skip(f, k, x);
    }
    if c.contains(x) {
        assert(c2.contains(x));
        lemma_in_parts(c2, n, x);
    }
    if f.contains(x) {
        lemma_in_parts(f, k, x);
        if f.take(k).contains(x) {
            assert(c2.contains(x));
            lemma_in_parts(c2, n, x);
        }
    }
}

/// What a fitted chain holds, the chain or the front of the free list held before.
pub proof fn lemma_fitted_from(c: Seq<u64>, f: Seq<u64>, n: int, x: u64)
    requires
        1 <= n,
        c.len() >= 1,
        lacking(c.len(), n as nat) <= f.len(),
        fitted(c, f, n).contains(x),
    ensures
        c.contains(x) || f.take(lacking(c.len(), n as nat) as int).contains(x),
        c.contains(x) || f.contains(x),
{
    let k = lacking(c.len(), n as nat) as int;
    let c2 = c + f.take(k);
    lemma_in_take(c2, n, x);
    lemma_in_concat(c, f.take(k), x);
    if f.take(k).contains(x) {
        lemma_in_take(f, k, x);
    }
}

/// Lists that share no sector with two lists share none with what is made of the two.
pub proof fn lemma_disjoint_from(a: Seq<u64>, c: Seq<u64>, f: Seq<u64>, made: Seq<u64>)
    requires
        disjoint(a, c),
        disjoint(a, f),
        forall|x: u64| made.contains(x) ==> c.contains(x) || f.contains(x),
    ensures
        disjoint(a, made),
        disjoint(made, a),
{
    assert forall|i: int, j: int| 0 <= i < a.len() && 0 <= j < made.len() implies a[i]
        != made[j] by {
        let x = made[j];
        assert(made.contains(x));
        if c.contains(x) {
            let m = choose|m: int| 0 <= m < c.len() && c[m] == x;
            assert(a[i] != c[m]);
        } else {
            let m = choose|m: int| 0 <= m < f.len() && f[m] == x;
            assert(a[i] != f[m]);
        }
    }
    assert forall|i: int, j: int| 0 <= i < made.len() && 0 <= j < a.len() implies made[i]
        != a[j] by {
        assert(a[j] != made[i]);
    }
}

} // verus!
