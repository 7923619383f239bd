//! Number theory of the field modulus: `q` is prime, and by Fermat's little
//! theorem `a^(q-2)` is the inverse of every `a` that `q` does not divide.
use vstd::prelude::*;
use vstd::arithmetic::power::*;
use vstd::arithmetic::div_mod::*;
use vstd::arithmetic::mul::*;
use crate::params::field_q;

verus! {

/// `p` is prime: above one, with no divisor strictly between one and `p`.
pub open spec fn is_prime(p: int) -> bool {
    p > 1 && forall|d: int| 1 < d < p ==> #[trigger] (p % d) != 0
}

/// No product of two integers above one, the first at most `26224`, is `q`.
#[verifier::rlimit(100)]
proof fn lemma_q_no_small_factor(a: u16, b: u32)
    by (bit_vector)
    requires
        2 <= a <= 26224,
        2 <= b <= 687659009,
    ensures
        (a as u64) * (b as u64) != 687659009u64,
{
}

/// The field modulus is prime.
pub proof fn lemma_q_prime()
    ensures
        is_prime(field_q()),
{
    let q = field_q();
    assert(q == 687659009);
    assert forall|d: int| 1 < d < q implies #[trigger] (q % d) != 0 by {
        if q % d == 0 {
            let e = q / d;
            lemma_fundamental_div_mod(q, d);
            assert(q == d * e);
            assert(e >= 2) by (nonlinear_arith)
                requires
                    q == d * e,
                    1 < d < q,
            ;
            assert(e <= q) by (nonlinear_arith)
                requires
                    q == d * e,
                    d >= 1,
                    e >= 1,
            ;
            if d <= 26224 {
                lemma_q_no_small_factor(d as u16, e as u32);
            } else if e <= 26224 {
                lemma_q_no_small_factor(e as u16, d as u32);
                assert(e * d == d * e) by (nonlinear_arith);
            } else {
                assert(d * e > 687659009) by (nonlinear_arith)
                    requires
                        d > 26224,
                        e > 26224,
                ;
            }
        }
    }
}

/// Euclid's lemma: a prime that divides `a b`, with `0 < a < p`, divides `b`.
pub proof fn lemma_euclid(p: int, a: int, b: int)
    requires
        is_prime(p),
        0 < a < p,
        (a * b) % p == 0,
    ensures
        b % p == 0,
    decreases a,
{
    if a > 1 {
        let r = p % a;
        let k = p / a;
        lemma_fundamental_div_mod(p, a);
        lemma_mod_bound(p, a);
        assert(r != 0);
        assert(r * b == p * b - k * (a * b)) by (nonlinear_arith)
            requires
                p == a * k + r,
        ;
        lemma_mod_multiples_basic(b, p);
        lemma_mul_is_commutative(b, p);
        lemma_mul_mod_noop_right(k, a * b, p);
        lemma_small_mod(0, p as nat);
        assert((k * (a * b)) % p == 0);
        assert((p * b) % p == 0);
        lemma_sub_mod_noop(p * b, k * (a * b), p);
        assert((r * b) % p == 0);
        lemma_euclid(p, r, b);
    } else {
        assert(a * b == b) by (nonlinear_arith)
            requires
                a == 1,
        ;
    }
}

/// A prime divides no product of two factors it does not divide.
pub proof fn lemma_prime_product_nonzero(p: int, x: int, y: int)
    requires
        is_prime(p),
        x % p != 0,
        y % p != 0,
    ensures
        (x * y) % p != 0,
{
    lemma_mod_bound(x, p);
    lemma_mul_mod_noop_left(x, y, p);
    if (x * y) % p == 0 {
        lemma_euclid(p, x % p, y);
    }
}

/// The binomial coefficient `n choose k`, by Pascal's rule.
pub open spec fn binom(n: nat, k: nat) -> nat
    decreases n,
{
    if k == 0 {
        1
    } else if n == 0 {
        0
    } else {
        binom((n - 1) as nat, (k - 1) as nat) + binom((n - 1) as nat, k)
    }
}

proof fn lemma_binom_above(n: nat, k: nat)
    requires
        k > n,
    ensures
        binom(n, k) == 0,
    decreases n,
{
    if n > 0 {
        lemma_binom_above((n - 1) as nat, (k - 1) as nat);
        lemma_binom_above((n - 1) as nat, k);
    }
}

proof fn lemma_binom_diag(n: nat)
    ensures
        binom(n, n) == 1,
    decreases n,
{
    if n > 0 {
        lemma_binom_diag((n - 1) as nat);
        lemma_binom_above((n - 1) as nat, n);
    }
}

/// `k C(n, k) = n C(n-1, k-1)`.
proof fn lemma_binom_absorb(n: nat, k: nat)
    requires
        n >= 1,
        k >= 1,
    ensures
        k * binom(n, k) == n * binom((n - 1) as nat, (k - 1) as nat),
    decreases n,
{
    if n == 1 {
        if k > 1 {
            lemma_binom_above(0, (k - 1) as nat);
            lemma_binom_above(0, k);
            assert(binom(1, k) == 0);
        } else {
            assert(binom(0, 1) == 0);
            assert(binom(0, 0) == 1);
            assert(binom(1, 1) == binom(0, 0) + binom(0, 1));
        }
    } else {
        let n1 = (n - 1) as nat;
        lemma_binom_absorb(n1, k);
        if k == 1 {
            assert(binom(n1, 0) == 1);
            assert(binom((n1 - 1) as nat, 0) == 1);
            assert(binom(n, 1) == 1 + binom(n1, 1));
            assert(binom(n1, 1) == n1) by (nonlinear_arith)
                requires
                    1 * binom(n1, 1) == n1 * binom((n1 - 1) as nat, 0),
                    binom((n1 - 1) as nat, 0) == 1,
            ;
            assert(binom(n, 1) == n);
        } else {
            let k1 = (k - 1) as nat;
            lemma_binom_absorb(n1, k1);
            let a = binom((n1 - 1) as nat, (k1 - 1) as nat);
            let b = binom((n1 - 1) as nat, k1);
            let c = binom(n1, k1);
            let e = binom(n1, k);
            assert(c == a + b);
            assert(k * (c + e) == n * c) by (nonlinear_arith)
                requires
                    c == a + b,
                    k * e == n1 * b,
                    k1 * c == n1 * a,
                    k1 == k - 1,
                    n1 == n - 1,
            ;
        }
    }
}

/// A prime `p` divides `C(p, k)` for `0 < k < p`.
proof fn lemma_prime_divides_binom(p: nat, k: nat)
    requires
        is_prime(p as int),
        0 < k < p,
    ensures
        (binom(p, k) as int) % (p as int) == 0,
{
    let c = binom((p - 1) as nat, (k - 1) as nat) as int;
    lemma_binom_absorb(p, k);
    lemma_mod_multiples_basic(c, p as int);
    lemma_mul_is_commutative(c, p as int);
    lemma_euclid(p as int, k as int, binom(p, k) as int);
}

/// `f(0) + ... + f(n-1)`.
pub open spec fn fsum(f: spec_fn(int) -> int, n: nat) -> int
    decreases n,
{
    if n == 0 {
        0
    } else {
        fsum(f, (n - 1) as nat) + f(n - 1)
    }
}

pub proof fn lemma_fsum_ext(f: spec_fn(int) -> int, g: spec_fn(int) -> int, n: nat)
    requires
        forall|k: int| 0 <= k < n ==> #[trigger] f(k) == g(k),
    ensures
        fsum(f, n) == fsum(g, n),
    decreases n,
{
    if n > 0 {
        lemma_fsum_ext(f, g, (n - 1) as nat);
    }
}

pub proof fn lemma_fsum_first(f: spec_fn(int) -> int, n: nat)
    ensures
        fsum(f, n + 1) == f(0) + fsum(|k: int| f(k + 1), n),
    decreases n,
{
    let g = |k: int| f(k + 1);
    if n > 0 {
        lemma_fsum_first(f, (n - 1) as nat);
        assert(fsum(f, n + 1) == fsum(f, n) + f(n as int));
        assert(fsum(g, n) == fsum(g, (n - 1) as nat) + g(n - 1));
    } else {
        assert(fsum(f, 0) == 0);
        assert(fsum(f, 1) == f(0));
        assert(fsum(g, 0) == 0);
    }
}

pub proof fn lemma_fsum_add(f: spec_fn(int) -> int, g: spec_fn(int) -> int, h: spec_fn(int) -> int, n: nat)
    requires
        forall|k: int| 0 <= k < n ==> #[trigger] h(k) == f(k) + g(k),
    ensures
        fsum(h, n) == fsum(f, n) + fsum(g, n),
    decreases n,
{
    if n > 0 {
        lemma_fsum_add(f, g, h, (n - 1) as nat);
    }
}

pub proof fn lemma_fsum_scale(f: spec_fn(int) -> int, g: spec_fn(int) -> int, c: int, n: nat)
    requires
        forall|k: int| 0 <= k < n ==> #[trigger] g(k) == c * f(k),
    ensures
        fsum(g, n) == c * fsum(f, n),
    decreases n,
{
    if n > 0 {
        lemma_fsum_scale(f, g, c, (n - 1) as nat);
        lemma_mul_is_distributive_add(c, fsum(f, (n - 1) as nat), f(n - 1));
    }
}

pub proof fn lemma_fsum_divisible(f: spec_fn(int) -> int, n: nat, p: int)
    requires
        p > 0,
        forall|k: int| 0 <= k < n ==> #[trigger] f(k) % p == 0,
    ensures
        fsum(f, n) % p == 0,
    decreases n,
{
    if n > 0 {
        lemma_fsum_divisible(f, (n - 1) as nat, p);
        lemma_add_mod_noop(fsum(f, (n - 1) as nat), f(n - 1), p);
        lemma_small_mod(0, p as nat);
    } else {
        lemma_small_mod(0, p as nat);
    }
}

/// The terms `C(n, k) x^k` of the binomial expansion of `(x + 1)^n`.
pub open spec fn binom_term(n: nat, x: int) -> spec_fn(int) -> int {
    |k: int| binom(n, k as nat) * pow(x, k as nat)
}

/// The binomial theorem: `(x + 1)^n = sum_{k <= n} C(n, k) x^k`.
#[verifier::spinoff_prover]
pub proof fn lemma_binomial(n: nat, x: int)
    ensures
        fsum(binom_term(n, x), n + 1) == pow(x + 1, n),
    decreases n,
{
    if n == 0 {
        lemma_pow0(x);
        lemma_pow0(x + 1);
        assert(binom(0, 0) == 1);
        assert(binom_term(0, x)(0) == 1);
        assert(fsum(binom_term(0, x), 0) == 0);
        assert(fsum(binom_term(0, x), 1) == binom_term(0, x)(0));
    } else {
        let m = (n - 1) as nat;
        let f = binom_term(n, x);
        let fp = binom_term(m, x);
        let sf = |j: int| f(j + 1);
        let sfp = |j: int| fp(j + 1);
        let xfp = |j: int| x * fp(j);
        lemma_binomial(m, x);
        let pp = pow(x + 1, m);
        lemma_fsum_first(f, n);
        assert forall|j: int| 0 <= j < n implies #[trigger] sf(j) == xfp(j) + sfp(j) by {
            assert(binom(n, (j + 1) as nat) == binom(m, j as nat) + binom(m, (j + 1) as nat));
            lemma_pow_adds(x, j as nat, 1);
            lemma_pow1(x);
            assert(pow(x, (j + 1) as nat) == pow(x, j as nat) * x);
            assert(binom(n, (j + 1) as nat) * pow(x, (j + 1) as nat) == x * (binom(m, j as nat) * pow(
                x,
                j as nat,
            )) + binom(m, (j + 1) as nat) * pow(x, (j + 1) as nat)) by (nonlinear_arith)
                requires
                    binom(n, (j + 1) as nat) == binom(m, j as nat) + binom(m, (j + 1) as nat),
                    pow(x, (j + 1) as nat) == pow(x, j as nat) * x,
            ;
        }
        lemma_fsum_add(xfp, sfp, sf, n);
        lemma_fsum_scale(fp, xfp, x, n);
        lemma_fsum_first(fp, n);
        lemma_binom_above(m, n);
        assert(fsum(fp, n + 1) == fsum(fp, n) + fp(n as int));
        assert(fp(n as int) == 0);
        lemma_pow0(x);
        assert(f(0) == 1);
        assert(fp(0) == 1);
        assert(fsum(f, n + 1) == 1 + x * pp + (pp - 1));
        lemma_pow_adds(x + 1, m, 1);
        lemma_pow1(x + 1);
        assert(pow(x + 1, n) == pp * (x + 1));
        assert(1 + x * pp + (pp - 1) == pp * (x + 1)) by (nonlinear_arith);
    }
}

/// `x^p = x (mod p)` for a prime `p` and `x >= 0`.
proof fn lemma_pow_prime_self(p: nat, x: nat)
    requires
        is_prime(p as int),
    ensures
        pow(x as int, p) % (p as int) == (x as int) % (p as int),
    decreases x,
{
    let pi = p as int;
    if x == 0 {
        reveal(pow);
        assert(pow(0, p) == 0 * pow(0, (p - 1) as nat));
    } else {
        let y = (x - 1) as nat;
        lemma_pow_prime_self(p, y);
        let f = binom_term(p, y as int);
        let sf = |j: int| f(j + 1);
        lemma_binomial(p, y as int);
        assert(fsum(f, p + 1) == fsum(f, p) + f(p as int));
        lemma_binom_diag(p);
        assert(f(p as int) == pow(y as int, p));
        lemma_fsum_first(f, (p - 1) as nat);
        assert forall|j: int| 0 <= j < p - 1 implies #[trigger] sf(j) % pi == 0 by {
            lemma_prime_divides_binom(p, (j + 1) as nat);
            lemma_mul_mod_noop_left(binom(p, (j + 1) as nat) as int, pow(y as int, (j + 1) as nat), pi);
            lemma_small_mod(0, p);
            assert(sf(j) == binom(p, (j + 1) as nat) * pow(y as int, (j + 1) as nat));
        }
        lemma_fsum_divisible(sf, (p - 1) as nat, pi);
        reveal(pow);
        assert(f(0) == 1);
        let d = fsum(sf, (p - 1) as nat);
        assert(pow(x as int, p) == 1 + d + pow(y as int, p));
        lemma_add_mod_noop(1 + d, pow(y as int, p), pi);
        lemma_add_mod_noop(1, d, pi);
        lemma_add_mod_noop(1, y as int, pi);
        lemma_mod_twice(1, pi);
        lemma_add_mod_noop(1int % pi, y as int, pi);
    }
}

/// Fermat's little theorem: `x^(p-1) = 1 (mod p)` for a prime `p` that does
/// not divide `x`.
pub proof fn lemma_fermat(p: int, x: int)
    requires
        is_prime(p),
        x % p != 0,
    ensures
        pow(x, (p - 1) as nat) % p == 1,
{
    let r = x % p;
    let e = (p - 1) as nat;
    lemma_mod_bound(x, p);
    lemma_pow_mod_noop(x, e, p);
    lemma_pow_prime_self(p as nat, r as nat);
    reveal(pow);
    assert(pow(r, p as nat) == r * pow(r, e));
    lemma_small_mod(r as nat, p as nat);
    let w = pow(r, e);
    assert(r * (w - 1) == r * w - r) by (nonlinear_arith);
    lemma_sub_mod_noop(r * w, r, p);
    lemma_small_mod(0, p as nat);
    assert((r * w) % p == r);
    assert((r * (w - 1)) % p == 0);
    lemma_euclid(p, r, w - 1);
    lemma_mod_bound(w, p);
    lemma_sub_mod_noop(w, 1, p);
    lemma_small_mod(1, p as nat);
    let v = w % p;
    assert((v - 1) % p == 0);
    if v == 0 {
        lemma_mod_add_multiples_vanish(-1, p);
        lemma_small_mod((p - 1) as nat, p as nat);
    } else if v > 1 {
        lemma_small_mod((v - 1) as nat, p as nat);
    }
}

/// `a a^(q-2) = 1 (mod q)` for every `a` that `q` does not divide.
pub proof fn lemma_fermat_inverse(a: int)
    requires
        a % field_q() != 0,
    ensures
        (a * pow(a, (field_q() - 2) as nat)) % field_q() == 1,
{
    lemma_q_prime();
    lemma_fermat(field_q(), a);
    lemma_pow_adds(a, 1, (field_q() - 2) as nat);
    lemma_pow1(a);
}

} // verus!
