//! Exact integer helpers the force model and the aggregation proofs rest on:
//! a floor square root, bounds for truncated division, and a sum of an
//! arbitrary integer weight over a multiset of indices.

use vstd::arithmetic::div_mod::lemma_div_by_multiple;
use vstd::arithmetic::div_mod::lemma_div_is_ordered;
use vstd::arithmetic::div_mod::lemma_div_is_ordered_by_denominator;
use vstd::multiset::Multiset;
use vstd::prelude::*;

verus! {

/// The floor of the square root: the largest `r` with `r * r <= n`.
pub open spec fn sqrt_floor(n: int) -> int
    decreases n,
{
    if n <= 0 {
        0
    } else {
        let r = sqrt_floor(n - 1);
        if (r + 1) * (r + 1) <= n {
            r + 1
        } else {
            r
        }
    }
}

pub proof fn lemma_sqrt_floor_bounds(n: int)
    requires
        n >= 0,
    ensures
        0 <= sqrt_floor(n),
        sqrt_floor(n) * sqrt_floor(n) <= n,
        n < (sqrt_floor(n) + 1) * (sqrt_floor(n) + 1),
        sqrt_floor(n) <= n,
    decreases n,
{
    if n > 0 {
        lemma_sqrt_floor_bounds(n - 1);
        let r = sqrt_floor(n - 1);
        assert((r + 1) * (r + 1) < (r + 2) * (r + 2)) by (nonlinear_arith)
            requires
                r >= 0,
        {
        }
        assert(r + 1 <= (r + 1) * (r + 1)) by (nonlinear_arith)
            requires
                r >= 0,
        {
        }
    }
}

pub proof fn lemma_sqrt_floor_unique(n: int, r: int)
    requires
        n >= 0,
        r >= 0,
        r * r <= n,
        n < (r + 1) * (r + 1),
    ensures
        r == sqrt_floor(n),
{
    lemma_sqrt_floor_bounds(n);
    let s = sqrt_floor(n);
    assert(r < s + 1 && s < r + 1) by (nonlinear_arith)
        requires
            r >= 0,
            s >= 0,
            r * r <= n,
            s * s <= n,
            n < (r + 1) * (r + 1),
            n < (s + 1) * (s + 1),
    {
    }
}

/// Binary search for the floor square root of a 128-bit value.
pub fn isqrt(n: u128) -> (r: u128)
    ensures
        r == sqrt_floor(n as int),
{
    let mut lo: u128 = 0;
    let mut hi: u128 = 18_446_744_073_709_551_616;  // 2^64: hi * hi > any u128
    proof {
        assert((hi as int) * (hi as int) > n as int) by (nonlinear_arith)
            requires
                hi == 18_446_744_073_709_551_616u128,
                n <= u128::MAX,
        {
        }
    }
    while lo + 1 < hi
        invariant
            0 <= lo < hi <= 18_446_744_073_709_551_616u128,
            (lo as int) * (lo as int) <= n as int,
            (n as int) < (hi as int) * (hi as int),
        decreases hi - lo,
    {
        let mid = lo + (hi - lo) / 2;
        assert(lo < mid < hi);
        proof {
            assert(mid * mid < 18_446_744_073_709_551_616u128 * 18_446_744_073_709_551_616u128)
                by (nonlinear_arith)
                requires
                    0 <= mid < 18_446_744_073_709_551_616u128,
            {
            }
        }
        if mid * mid <= n {
            lo = mid;
        } else {
            hi = mid;
        }
    }
    proof {
        lemma_sqrt_floor_unique(n as int, lo as int);
    }
    lo
}

/// Truncated division of non-negative operands never exceeds what replacing
/// the numerator by something larger, or the denominator by something
/// smaller, would give; and dividing `d * q` by `d` returns `q` exactly.
pub proof fn lemma_div_le(num: int, den: int, num_bound: int, den_low: int)
    requires
        0 <= num <= num_bound,
        0 < den_low <= den,
    ensures
        num / den <= num_bound / den_low,
        0 <= num / den,
{
    lemma_div_is_ordered(num, num_bound, den);
    lemma_div_is_ordered_by_denominator(num_bound, den_low, den);
    vstd::arithmetic::div_mod::lemma_div_pos_is_pos(num, den);
}

pub proof fn lemma_div_exact_multiple(q: int, d: int)
    requires
        0 <= q,
        0 < d,
    ensures
        (d * q) / d == q,
{
    assert(d * q == q * d);
    lemma_div_by_multiple(q, d);
}

/// The sum of `f` over a finite multiset of indices.
pub open spec fn msum(ms: Multiset<usize>, f: spec_fn(usize) -> int) -> int
    decreases ms.len(),
{
    if ms.len() == 0 {
        0
    } else {
        let e = ms.choose();
        f(e) + msum(ms.remove(e), f)
    }
}

pub proof fn lemma_msum_remove(ms: Multiset<usize>, f: spec_fn(usize) -> int, e: usize)
    requires
        ms.count(e) > 0,
    ensures
        msum(ms, f) == f(e) + msum(ms.remove(e), f),
    decreases ms.len(),
{
    let c = ms.choose();
    assert(ms.len() > 0);
    if c == e {
    } else {
        // Exchange: removing e first and c second reaches the same multiset.
        let m1 = ms.remove(c);
        let m2 = ms.remove(e);
        assert(m1.count(e) > 0);
        assert(m2.count(c) > 0);
        lemma_msum_remove(m1, f, e);
        lemma_msum_remove(m2, f, c);
        assert(m1.remove(e) =~= m2.remove(c));
    }
}

pub proof fn lemma_msum_insert(ms: Multiset<usize>, f: spec_fn(usize) -> int, e: usize)
    ensures
        msum(ms.insert(e), f) == msum(ms, f) + f(e),
{
    let big = ms.insert(e);
    assert(big.count(e) > 0);
    lemma_msum_remove(big, f, e);
    assert(big.remove(e) =~= ms);
}

pub proof fn lemma_msum_empty(f: spec_fn(usize) -> int)
    ensures
        msum(Multiset::empty(), f) == 0,
{
    assert(Multiset::<usize>::empty().len() == 0);
}

pub proof fn lemma_msum_add(a: Multiset<usize>, b: Multiset<usize>, f: spec_fn(usize) -> int)
    ensures
        msum(a.add(b), f) == msum(a, f) + msum(b, f),
    decreases b.len(),
{
    if b.len() == 0 {
        assert(b =~= Multiset::empty());
        assert(a.add(b) =~= a);
        lemma_msum_empty(f);
    } else {
        let e = b.choose();
        assert(b.count(e) > 0);
        lemma_msum_remove(b, f, e);
        let b1 = b.remove(e);
        lemma_msum_add(a, b1, f);
        assert(a.add(b) =~= a.add(b1).insert(e));
        lemma_msum_insert(a.add(b1), f, e);
    }
}

/// Every element small in `f` bounds the sum: if `0 <= f(e) <= m` on all of
/// `ms`, the sum lies between `0` and `ms.len() * m`.
pub proof fn lemma_msum_bound(ms: Multiset<usize>, f: spec_fn(usize) -> int, m: int)
    requires
        forall|e: usize| ms.count(e) > 0 ==> 0 <= #[trigger] f(e) <= m,
    ensures
        0 <= msum(ms, f) <= ms.len() * m,
    decreases ms.len(),
{
    if ms.len() == 0 {
    } else {
        let e = ms.choose();
        assert(ms.count(e) > 0);
        let rest = ms.remove(e);
        assert(forall|x: usize| rest.count(x) > 0 ==> ms.count(x) > 0);
        lemma_msum_bound(rest, f, m);
        assert(0 <= f(e) <= m);
        assert(ms.len() == rest.len() + 1);
        assert(rest.len() * m + m == (rest.len() + 1) * m) by (nonlinear_arith)
        {
        }
    }
}

/// A sum dominated elementwise by `c` times another sum is dominated by `c`
/// times that sum.
pub proof fn lemma_msum_pairwise_bound(
    ms: Multiset<usize>,
    f: spec_fn(usize) -> int,
    g: spec_fn(usize) -> int,
    c: int,
)
    requires
        c >= 0,
        forall|e: usize|
            ms.count(e) > 0 ==> 0 <= #[trigger] f(e) && f(e) <= c * g(e) && 0 <= g(e),
    ensures
        0 <= msum(ms, f) <= c * msum(ms, g),
    decreases ms.len(),
{
    if ms.len() == 0 {
    } else {
        let e = ms.choose();
        assert(ms.count(e) > 0);
        let rest = ms.remove(e);
        assert(forall|x: usize| rest.count(x) > 0 ==> ms.count(x) > 0);
        lemma_msum_pairwise_bound(rest, f, g, c);
        lemma_msum_remove(ms, f, e);
        lemma_msum_remove(ms, g, e);
        assert(0 <= f(e) && f(e) <= c * g(e) && 0 <= g(e));
        assert(c * (g(e) + msum(rest, g)) == c * g(e) + c * msum(rest, g)) by (nonlinear_arith)
        {
        }
    }
}

} // verus!
