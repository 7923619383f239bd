use vstd::prelude::*;
use vstd::arithmetic::power::*;
use vstd::arithmetic::power2::*;
use vstd::arithmetic::div_mod::*;
use vstd::arithmetic::mul::*;

verus! {

/// One step of square-and-multiply exponentiation keeps
/// `acc * base^exp (mod m)` unchanged.
pub proof fn lemma_square_multiply_step(acc: int, base: int, exp: nat, m: int)
    requires
        m > 0,
        exp > 0,
    ensures
        ({
            let acc2 = if exp % 2 == 1 { (acc * base) % m } else { acc };
            let base2 = (base * base) % m;
            (acc2 * pow(base2, exp / 2)) % m == (acc * pow(base, exp)) % m
        }),
{
    let e2 = exp / 2;
    let base2 = (base * base) % m;
    assert(exp == 2 * e2 + exp % 2);
    lemma_pow_multiplies(base, 2, e2);
    lemma_square_is_pow2(base);
    // pow(base*base, e2) == pow(base, 2*e2)
    assert(pow(base * base, e2) == pow(base, 2 * e2));
    lemma_pow_mod_noop(base * base, e2, m);
    // pow(base2, e2) % m == pow(base, 2*e2) % m
    if exp % 2 == 1 {
        lemma_pow_adds(base, 2 * e2, 1);
        lemma_pow1(base);
        assert(pow(base, exp) == pow(base, 2 * e2) * base);
        let acc2 = (acc * base) % m;
        // (acc2 * pow(base2,e2)) % m
        lemma_mul_mod_noop_general(acc * base, pow(base2, e2), m);
        lemma_mul_mod_noop_general(acc * base, pow(base, 2 * e2), m);
        lemma_mul_is_associative(acc, base, pow(base, 2 * e2));
        lemma_mul_is_commutative(base, pow(base, 2 * e2));
        lemma_mul_is_associative(acc, pow(base, 2 * e2), base);
    } else {
        assert(exp == 2 * e2);
        lemma_mul_mod_noop_general(acc, pow(base2, e2), m);
        lemma_mul_mod_noop_general(acc, pow(base, 2 * e2), m);
    }
}

/// `pow(b, e) % m` is unchanged when `b` is first reduced mod `m`; stated
/// together with the bounds that exponentiation loops need.
pub proof fn lemma_pow_mod_range(b: int, e: nat, m: int)
    requires
        m > 0,
    ensures
        0 <= pow(b, e) % m < m,
{
    lemma_mod_bound(pow(b, e), m);
}

} // verus!

verus! {

/// Sum of the values of `s`, accumulated modulo `m` from the front.
pub open spec fn sum_mod(s: Seq<int>, m: int) -> int
    decreases s.len(),
{
    if s.len() == 0 {
        0
    } else {
        (sum_mod(s.drop_last(), m) + s.last()) % m
    }
}

/// The accumulated sum lies in `[0, m)`.
pub proof fn lemma_sum_mod_bound(s: Seq<int>, m: int)
    requires
        m > 0,
    ensures
        0 <= sum_mod(s, m) < m,
    decreases s.len(),
{
    if s.len() > 0 {
        vstd::arithmetic::div_mod::lemma_mod_bound(sum_mod(s.drop_last(), m) + s.last(), m);
    }
}

/// Accumulating modulo `m` gives the plain sum reduced modulo `m`.
pub proof fn lemma_sum_mod_is_sum(s: Seq<int>, m: int)
    requires
        m > 0,
    ensures
        sum_mod(s, m) == plain_sum(s) % m,
    decreases s.len(),
{
    if s.len() > 0 {
        lemma_sum_mod_is_sum(s.drop_last(), m);
        vstd::arithmetic::div_mod::lemma_add_mod_noop(plain_sum(s.drop_last()), s.last(), m);
        vstd::arithmetic::div_mod::lemma_add_mod_noop(sum_mod(s.drop_last(), m), s.last(), m);
        vstd::arithmetic::div_mod::lemma_mod_twice(plain_sum(s.drop_last()), m);
    } else {
        vstd::arithmetic::div_mod::lemma_small_mod(0, m as nat);
    }
}

/// Sum of the values of `s` over the integers.
pub open spec fn plain_sum(s: Seq<int>) -> int
    decreases s.len(),
{
    if s.len() == 0 {
        0
    } else {
        plain_sum(s.drop_last()) + s.last()
    }
}

/// Sums of sequences that agree modulo `m` term by term agree modulo `m`.
pub proof fn lemma_plain_sum_congruent(a: Seq<int>, b: Seq<int>, m: int)
    requires
        m > 0,
        a.len() == b.len(),
        forall|i: int| 0 <= i < a.len() ==> #[trigger] a[i] % m == b[i] % m,
    ensures
        plain_sum(a) % m == plain_sum(b) % m,
    decreases a.len(),
{
    if a.len() > 0 {
        assert forall|i: int| 0 <= i < a.drop_last().len() implies #[trigger] a.drop_last()[i] % m
            == b.drop_last()[i] % m by {
            assert(a.drop_last()[i] == a[i] && b.drop_last()[i] == b[i]);
        }
        lemma_plain_sum_congruent(a.drop_last(), b.drop_last(), m);
        assert(a.last() % m == b.last() % m);
        lemma_add_mod_noop(plain_sum(a.drop_last()), a.last(), m);
        lemma_add_mod_noop(plain_sum(b.drop_last()), b.last(), m);
    }
}

/// The sum of term-by-term sums is the sum of the two sums.
pub proof fn lemma_plain_sum_add(a: Seq<int>, b: Seq<int>, c: Seq<int>)
    requires
        a.len() == b.len(),
        c.len() == a.len(),
        forall|i: int| 0 <= i < c.len() ==> #[trigger] c[i] == a[i] + b[i],
    ensures
        plain_sum(c) == plain_sum(a) + plain_sum(b),
    decreases c.len(),
{
    if c.len() > 0 {
        assert forall|i: int| 0 <= i < c.drop_last().len() implies #[trigger] c.drop_last()[i]
            == a.drop_last()[i] + b.drop_last()[i] by {
            assert(c.drop_last()[i] == c[i]);
        }
        lemma_plain_sum_add(a.drop_last(), b.drop_last(), c.drop_last());
    }
}

/// The sum of term-by-term differences is the difference of the two sums.
pub proof fn lemma_plain_sum_sub(a: Seq<int>, b: Seq<int>, c: Seq<int>)
    requires
        a.len() == b.len(),
        c.len() == a.len(),
        forall|i: int| 0 <= i < c.len() ==> #[trigger] c[i] == a[i] - b[i],
    ensures
        plain_sum(c) == plain_sum(a) - plain_sum(b),
    decreases c.len(),
{
    if c.len() > 0 {
        assert forall|i: int| 0 <= i < c.drop_last().len() implies #[trigger] c.drop_last()[i]
            == a.drop_last()[i] - b.drop_last()[i] by {
            assert(c.drop_last()[i] == c[i]);
        }
        lemma_plain_sum_sub(a.drop_last(), b.drop_last(), c.drop_last());
    }
}

/// A sequence that is zero except for the value `x` at index `i0` sums to `x`.
pub proof fn lemma_plain_sum_single(s: Seq<int>, i0: int, x: int)
    requires
        0 <= i0 < s.len(),
        forall|i: int| 0 <= i < s.len() ==> #[trigger] s[i] == if i == i0 {
            x
        } else {
            0
        },
    ensures
        plain_sum(s) == x,
    decreases s.len(),
{
    if s.len() > 0 {
        let t = s.drop_last();
        if i0 == s.len() - 1 {
            assert forall|i: int| 0 <= i < t.len() implies #[trigger] t[i] == 0 by {
                assert(t[i] == s[i]);
            }
            lemma_plain_sum_zero(t);
        } else {
            assert forall|i: int| 0 <= i < t.len() implies #[trigger] t[i] == if i == i0 {
                x
            } else {
                0
            } by {
                assert(t[i] == s[i]);
            }
            lemma_plain_sum_single(t, i0, x);
        }
    }
}

/// An all-zero sequence sums to zero.
pub proof fn lemma_plain_sum_zero(s: Seq<int>)
    requires
        forall|i: int| 0 <= i < s.len() ==> #[trigger] s[i] == 0,
    ensures
        plain_sum(s) == 0,
    decreases s.len(),
{
    if s.len() > 0 {
        assert forall|i: int| 0 <= i < s.drop_last().len() implies #[trigger] s.drop_last()[i] == 0 by {
            assert(s.drop_last()[i] == s[i]);
        }
        lemma_plain_sum_zero(s.drop_last());
    }
}

/// `(a mod m + m - b mod m) mod m` is `(a - b) mod m`.
pub proof fn lemma_sub_mod(a: int, b: int, m: int)
    requires
        m > 0,
    ensures
        (a % m + m - b % m) % m == (a - b) % m,
{
    lemma_mod_add_multiples_vanish(a % m - b % m, m);
    lemma_sub_mod_noop(a, b, m);
}

/// `m * t` reduced modulo `p * m` is `m * (t mod p)`.
pub proof fn lemma_mul_mod_scaled(m: int, t: int, p: int)
    requires
        m > 0,
        p > 0,
    ensures
        (m * t) % (p * m) == m * (t % p),
{
    lemma_fundamental_div_mod(t, p);
    let qt = t / p;
    let rt = t % p;
    lemma_mod_bound(t, p);
    assert(m * t == (p * m) * qt + m * rt) by (nonlinear_arith)
        requires
            t == p * qt + rt,
    ;
    assert(0 <= m * rt < p * m) by (nonlinear_arith)
        requires
            0 <= rt < p,
            m > 0,
    ;
    lemma_fundamental_div_mod_converse(m * t, p * m, qt, m * rt);
}

/// A sum of nonnegative terms is nonnegative.
pub proof fn lemma_plain_sum_nonneg(s: Seq<int>)
    requires
        forall|i: int| 0 <= i < s.len() ==> #[trigger] s[i] >= 0,
    ensures
        plain_sum(s) >= 0,
    decreases s.len(),
{
    if s.len() > 0 {
        assert forall|i: int| 0 <= i < s.drop_last().len() implies #[trigger] s.drop_last()[i] >= 0 by {
            assert(s.drop_last()[i] == s[i]);
        }
        lemma_plain_sum_nonneg(s.drop_last());
    }
}

/// Scaling every term scales the sum.
pub proof fn lemma_plain_sum_scale(s: Seq<int>, x: int, t: Seq<int>)
    requires
        t.len() == s.len(),
        forall|i: int| 0 <= i < s.len() ==> #[trigger] t[i] == x * s[i],
    ensures
        plain_sum(t) == x * plain_sum(s),
    decreases s.len(),
{
    if s.len() > 0 {
        assert forall|i: int| 0 <= i < s.drop_last().len() implies #[trigger] t.drop_last()[i] == x
            * s.drop_last()[i] by {
            assert(t.drop_last()[i] == t[i]);
        }
        lemma_plain_sum_scale(s.drop_last(), x, t.drop_last());
        lemma_mul_is_distributive_add(x, plain_sum(s.drop_last()), s.last());
    }
}


/// `sum_{lo <= i < hi} f(i)`.
pub open spec fn range_sum(f: spec_fn(int) -> int, lo: int, hi: int) -> int
    decreases hi - lo,
{
    if hi <= lo {
        0
    } else {
        range_sum(f, lo, hi - 1) + f(hi - 1)
    }
}

/// A range sum splits at any point inside the range.
pub proof fn lemma_range_sum_split(f: spec_fn(int) -> int, lo: int, mid: int, hi: int)
    requires
        lo <= mid <= hi,
    ensures
        range_sum(f, lo, hi) == range_sum(f, lo, mid) + range_sum(f, mid, hi),
    decreases hi - mid,
{
    if hi > mid {
        lemma_range_sum_split(f, lo, mid, hi - 1);
    }
}

/// Two functions that agree on a range have the same sum over it.
pub proof fn lemma_range_sum_ext(f: spec_fn(int) -> int, g: spec_fn(int) -> int, lo: int, hi: int)
    requires
        forall|i: int| lo <= i < hi ==> #[trigger] f(i) == g(i),
    ensures
        range_sum(f, lo, hi) == range_sum(g, lo, hi),
    decreases hi - lo,
{
    if hi > lo {
        lemma_range_sum_ext(f, g, lo, hi - 1);
    }
}

/// Shifting the range by `d` is shifting the argument.
pub proof fn lemma_range_sum_shift(f: spec_fn(int) -> int, lo: int, hi: int, d: int)
    ensures
        range_sum(f, lo + d, hi + d) == range_sum(|i: int| f(i + d), lo, hi),
    decreases hi - lo,
{
    if hi > lo {
        lemma_range_sum_shift(f, lo, hi - 1, d);
    }
}

/// Summing a range backwards gives the same sum.
pub proof fn lemma_range_sum_reverse(f: spec_fn(int) -> int, lo: int, hi: int)
    ensures
        range_sum(f, lo, hi) == range_sum(|i: int| f(lo + hi - 1 - i), lo, hi),
    decreases hi - lo,
{
    let g = |i: int| f(lo + hi - 1 - i);
    if hi > lo {
        lemma_range_sum_split(f, lo, lo + 1, hi);
        lemma_range_sum_reverse(f, lo + 1, hi);
        let h = |i: int| f(lo + 1 + hi - 1 - i);
        lemma_range_sum_shift(h, lo, hi - 1, 1);
        lemma_range_sum_ext(|i: int| h(i + 1), g, lo, hi - 1);
        assert(range_sum(f, lo, lo) == 0);
        assert(range_sum(f, lo, lo + 1) == f(lo));
    }
}

} // verus!
