//! Finite sums and counts over integer ranges, used to state the penalties.
use vstd::prelude::*;

verus! {

/// `f(0) + f(1) + ... + f(n - 1)`.
pub open spec fn sum_to(n: int, f: spec_fn(int) -> int) -> int
    decreases n,
{
    if n <= 0 {
        0
    } else {
        sum_to(n - 1, f) + f(n - 1)
    }
}

/// The number of `i` in `0..n` for which `p(i)` holds.
pub open spec fn count_to(n: int, p: spec_fn(int) -> bool) -> int {
    sum_to(n, |i: int| if p(i) { 1int } else { 0int })
}

/// A sum of terms in `0..=bound` lies in `0..=n * bound`.
pub proof fn lemma_sum_bounds(n: int, f: spec_fn(int) -> int, bound: int)
    requires
        0 <= n,
        forall|i: int| 0 <= i < n ==> 0 <= #[trigger] f(i) <= bound,
    ensures
        0 <= sum_to(n, f) <= n * bound,
    decreases n,
{
    if n > 0 {
        lemma_sum_bounds(n - 1, f, bound);
        assert(0 <= f(n - 1) <= bound);
        let s1 = sum_to(n - 1, f);
        let s = sum_to(n, f);
        let x = f(n - 1);
        assert(s == s1 + x);
        assert(s <= n * bound) by (nonlinear_arith)
            requires
                s1 <= (n - 1) * bound,
                s == s1 + x,
                x <= bound,
        ;
    } else {
        assert(n * bound == 0) by (nonlinear_arith)
            requires
                n == 0,
        ;
    }
}

/// A sum of non-negative terms grows with its range.
pub proof fn lemma_sum_monotone(m: int, n: int, f: spec_fn(int) -> int)
    requires
        0 <= m <= n,
        forall|i: int| 0 <= i < n ==> 0 <= #[trigger] f(i),
    ensures
        sum_to(m, f) <= sum_to(n, f),
    decreases n - m,
{
    if m < n {
        lemma_sum_monotone(m, n - 1, f);
    }
}

/// A sum depends only on the terms inside its range.
pub proof fn lemma_sum_ext(n: int, f: spec_fn(int) -> int, g: spec_fn(int) -> int)
    requires
        forall|i: int| 0 <= i < n ==> #[trigger] f(i) == g(i),
    ensures
        sum_to(n, f) == sum_to(n, g),
    decreases n,
{
    if n > 0 {
        lemma_sum_ext(n - 1, f, g);
    }
}

/// A count lies between 0 and the size of its range.
pub proof fn lemma_count_bounds(n: int, p: spec_fn(int) -> bool)
    requires
        0 <= n,
    ensures
        0 <= count_to(n, p) <= n,
{
    lemma_sum_bounds(n, |i: int| if p(i) { 1int } else { 0int }, 1);
}

/// A sum of terms that are all zero is zero.
pub proof fn lemma_sum_zero(n: int, f: spec_fn(int) -> int)
    requires
        forall|i: int| 0 <= i < n ==> #[trigger] f(i) == 0,
    ensures
        sum_to(n, f) == 0,
    decreases n,
{
    if n > 0 {
        lemma_sum_zero(n - 1, f);
    }
}

/// Changing one term of a sum by `delta` changes the sum by `delta`.
pub proof fn lemma_sum_update(n: int, f: spec_fn(int) -> int, g: spec_fn(int) -> int, b: int, delta: int)
    requires
        0 <= b < n,
        forall|i: int| 0 <= i < n && i != b ==> #[trigger] g(i) == f(i),
        g(b) == f(b) + delta,
    ensures
        sum_to(n, g) == sum_to(n, f) + delta,
    decreases n,
{
    if n - 1 == b {
        lemma_sum_ext(n - 1, f, g);
    } else {
        lemma_sum_update(n - 1, f, g, b, delta);
    }
}

/// A sum of terms each at most the matching term of another sum is at most that sum.
pub proof fn lemma_sum_le(n: int, f: spec_fn(int) -> int, g: spec_fn(int) -> int)
    requires
        forall|i: int| 0 <= i < n ==> #[trigger] f(i) <= g(i),
    ensures
        sum_to(n, f) <= sum_to(n, g),
    decreases n,
{
    if n > 0 {
        lemma_sum_le(n - 1, f, g);
    }
}

/// `count_to` grows by one term when its range grows by one.
pub proof fn lemma_count_step(n: int, p: spec_fn(int) -> bool)
    requires
        0 <= n,
    ensures
        count_to(n + 1, p) == count_to(n, p) + if p(n) { 1int } else { 0int },
{
}

/// A count of a predicate that holds nowhere in the range is zero.
pub proof fn lemma_count_none(n: int, p: spec_fn(int) -> bool)
    requires
        forall|i: int| 0 <= i < n ==> !#[trigger] p(i),
    ensures
        count_to(n, p) == 0,
    decreases n,
{
    if n > 0 {
        lemma_count_none(n - 1, p);
        lemma_count_step(n - 1, p);
    }
}

/// Counts over predicates that agree inside the range are equal.
pub proof fn lemma_count_ext(n: int, p: spec_fn(int) -> bool, q: spec_fn(int) -> bool)
    requires
        forall|i: int| 0 <= i < n ==> #[trigger] p(i) == q(i),
    ensures
        count_to(n, p) == count_to(n, q),
{
    lemma_sum_ext(
        n,
        |i: int| if p(i) { 1int } else { 0int },
        |i: int| if q(i) { 1int } else { 0int },
    );
}


/// A count of `p` is at most a sum of non-negative terms that are at least 1 wherever
/// `p` holds.
pub proof fn lemma_count_le_sum(n: int, p: spec_fn(int) -> bool, g: spec_fn(int) -> int)
    requires
        forall|i: int| 0 <= i < n ==> 0 <= #[trigger] g(i),
        forall|i: int| 0 <= i < n && #[trigger] p(i) ==> 1 <= g(i),
    ensures
        count_to(n, p) <= sum_to(n, g),
{
    let f = |i: int| if p(i) { 1int } else { 0int };
    assert forall|i: int| 0 <= i < n implies #[trigger] f(i) <= g(i) by {
        if p(i) {
            assert(1 <= g(i));
        } else {
            assert(0 <= g(i));
        }
    }
    lemma_sum_le(n, f, g);
}

/// Distinct values in `0..n` that all satisfy `p` are at most as many as the values of
/// `0..n` that satisfy `p`.
pub proof fn lemma_distinct_le_count(s: Seq<int>, n: int, p: spec_fn(int) -> bool)
    requires
        forall|i: int| 0 <= i < s.len() ==> 0 <= #[trigger] s[i] < n && p(s[i]),
        forall|i: int, j: int| 0 <= i < j < s.len() ==> s[i] != s[j],
    ensures
        s.len() <= count_to(n, p),
    decreases n,
{
    if n <= 0 {
        if s.len() > 0 {
            assert(0 <= s[0] < n);
        }
    } else {
        lemma_count_step(n - 1, p);
        if exists|i: int| 0 <= i < s.len() && s[i] == n - 1 {
            let i = choose|i: int| 0 <= i < s.len() && s[i] == n - 1;
            let s2 = s.remove(i);
            assert forall|a: int| 0 <= a < s2.len() implies 0 <= #[trigger] s2[a] < n - 1 && p(s2[a]) by {
                if a < i {
                    assert(s2[a] == s[a]);
                } else {
                    assert(s2[a] == s[a + 1]);
                }
            }
            assert forall|a: int, b: int| 0 <= a < b < s2.len() implies s2[a] != s2[b] by {
                let a1 = if a < i { a } else { a + 1 };
                let b1 = if b < i { b } else { b + 1 };
                assert(s2[a] == s[a1]);
                assert(s2[b] == s[b1]);
            }
            lemma_distinct_le_count(s2, n - 1, p);
            assert(p(s[i]));
        } else {
            assert forall|a: int| 0 <= a < s.len() implies 0 <= #[trigger] s[a] < n - 1 && p(s[a]) by {
            }
            lemma_distinct_le_count(s, n - 1, p);
        }
    }
}


/// A sum of non-negative terms is non-negative.
pub proof fn lemma_sum_nonneg(n: int, f: spec_fn(int) -> int)
    requires
        forall|i: int| 0 <= i < n ==> 0 <= #[trigger] f(i),
    ensures
        0 <= sum_to(n, f),
    decreases n,
{
    if n > 0 {
        lemma_sum_nonneg(n - 1, f);
    }
}

/// A count is never negative.
pub broadcast proof fn lemma_count_nonneg(n: int, p: spec_fn(int) -> bool)
    ensures
        0 <= #[trigger] count_to(n, p),
{
    if n > 0 {
        lemma_count_bounds(n, p);
    }
}

/// A non-negative term is at most the sum of non-negative terms it belongs to.
pub proof fn lemma_term_le_sum(n: int, f: spec_fn(int) -> int, i: int)
    requires
        0 <= i < n,
        forall|j: int| 0 <= j < n ==> 0 <= #[trigger] f(j),
    ensures
        f(i) <= sum_to(n, f),
    decreases n,
{
    if i < n - 1 {
        lemma_term_le_sum(n - 1, f, i);
    } else {
        lemma_sum_nonneg(n - 1, f);
    }
}

/// A constant factor comes out of a sum.
pub proof fn lemma_sum_scale(n: int, f: spec_fn(int) -> int, c: int)
    ensures
        sum_to(n, |i: int| c * f(i)) == c * sum_to(n, f),
    decreases n,
{
    if n > 0 {
        lemma_sum_scale(n - 1, f, c);
        let a = sum_to(n - 1, f);
        let x = f(n - 1);
        assert(c * a + c * x == c * (a + x)) by (nonlinear_arith);
    }
}

/// A sum over `0..n + m` is the sum over `0..n` plus the sum of the next `m` terms.
pub proof fn lemma_sum_split(n: int, m: int, f: spec_fn(int) -> int)
    requires
        0 <= n,
        0 <= m,
    ensures
        sum_to(n + m, f) == sum_to(n, f) + sum_to(m, |j: int| f(n + j)),
    decreases m,
{
    if m > 0 {
        lemma_sum_split(n, m - 1, f);
    }
}

/// A sum over `0..a * b` is the sum over `a` blocks of `b` consecutive terms.
pub proof fn lemma_sum_blocks(a: int, b: int, f: spec_fn(int) -> int)
    requires
        0 <= a,
        0 <= b,
    ensures
        sum_to(a * b, f) == sum_to(a, |i: int| sum_to(b, |j: int| f(i * b + j))),
    decreases a,
{
    if a > 0 {
        lemma_sum_blocks(a - 1, b, f);
        assert((a - 1) * b + b == a * b) by (nonlinear_arith);
        assert(0 <= (a - 1) * b) by (nonlinear_arith)
            requires
                a >= 1,
                b >= 0,
        ;
        lemma_sum_split((a - 1) * b, b, f);
        let g = |i: int| sum_to(b, |j: int| f(i * b + j));
        lemma_sum_ext(b, |j: int| f((a - 1) * b + j), |j: int| f((a - 1) * b + j));
        assert(g(a - 1) == sum_to(b, |j: int| f((a - 1) * b + j)));
        assert(sum_to(a, g) == sum_to(a - 1, g) + g(a - 1));
    } else {
        assert(a * b == 0) by (nonlinear_arith)
            requires
                a == 0,
        ;
    }
}

} // verus!
