//! Arithmetic modulo an odd 64-bit modulus `q` with Montgomery reduction
//! (`R = 2^64`): a value `x` is held in Montgomery form as `x R mod q`, and
//! one reduction turns a product `T < q R` into `T R^-1 mod q` with a
//! wrapping multiplication, a 128-bit fused multiply-add and a shift.
use vstd::prelude::*;
use vstd::arithmetic::power::*;
use vstd::arithmetic::power2::*;
use vstd::arithmetic::div_mod::*;
use vstd::arithmetic::mul::*;
use crate::arith::lemma_square_multiply_step;

verus! {

/// `R = 2^64`, the Montgomery radix.
pub open spec fn mont_r() -> int {
    0x1_0000_0000_0000_0000
}

/// `qinv` is `-q^-1 mod 2^64`: `q * qinv = -1 (mod 2^64)`.
pub open spec fn is_neg_inverse(q: u64, qinv: u64) -> bool {
    (q * qinv) % mont_r() == mont_r() - 1
}

/// `(a * b) mod q`, through a 128-bit product.
pub fn mulmod(a: u64, b: u64, q: u64) -> (r: u64)
    requires
        q > 0,
    ensures
        r == (a * b) % (q as int),
{
    assert(a * b <= 0xffff_ffff_ffff_ffff * 0xffff_ffff_ffff_ffff) by (nonlinear_arith)
        requires
            a <= 0xffff_ffff_ffff_ffff,
            b <= 0xffff_ffff_ffff_ffff,
    ;
    let p: u128 = a as u128 * b as u128;
    let r: u128 = p % q as u128;
    proof {
        lemma_mod_bound(p as int, q as int);
    }
    r as u64
}

/// `base^exp mod q` by square-and-multiply; `1` when `exp` is zero.
pub fn powmod(base: u64, exp: u64, q: u64) -> (r: u64)
    requires
        q > 0,
    ensures
        r == (if exp == 0 {
            1
        } else {
            pow(base as int, exp as nat) % (q as int)
        }),
{
    let ghost b0 = base as int;
    let ghost e0 = exp as nat;
    let mut base = base;
    let mut exp = exp;
    let mut r: u64 = 1;
    base = base % q;
    proof {
        lemma_pow0(base as int);
        lemma_pow_mod_noop(b0, e0, q as int);
    }
    while exp > 0
        invariant
            q > 0,
            (r * pow(base as int, exp as nat)) % (q as int) == pow(b0, e0) % (q as int),
            exp > 0 || e0 == 0 || r < q,
            e0 == 0 ==> exp == 0 && r == 1,
        decreases exp,
    {
        proof {
            lemma_square_multiply_step(r as int, base as int, exp as nat, q as int);
        }
        let bit = exp & 1;
        assert(bit == exp % 2) by (bit_vector)
            requires
                bit == exp & 1,
        ;
        if bit == 1 {
            r = mulmod(r, base, q);
        }
        base = mulmod(base, base, q);
        let e2 = exp >> 1;
        assert(e2 == exp / 2) by (bit_vector)
            requires
                e2 == exp >> 1,
        ;
        exp = e2;
    }
    proof {
        lemma_pow0(base as int);
        if e0 > 0 {
            lemma_small_mod(r as nat, q as nat);
        }
    }
    r
}

/// `2^128 mod q`, which turns a value into Montgomery form by one
/// Montgomery multiplication.
pub fn mont_r2(q: u64) -> (r: u64)
    requires
        q > 0,
    ensures
        r == (pow2(128) as int) % (q as int),
{
    let big: u128 = 1u128 << 64u128;
    assert(big == 0x1_0000_0000_0000_0000) by (bit_vector)
        requires
            big == 1u128 << 64u128,
    ;
    let r1: u128 = big % q as u128;
    proof {
        lemma_mod_bound(big as int, q as int);
    }
    let r1 = r1 as u64;
    assert(r1 * r1 <= 0xffff_ffff_ffff_ffff * 0xffff_ffff_ffff_ffff) by (nonlinear_arith)
        requires
            r1 <= 0xffff_ffff_ffff_ffff,
    ;
    let p: u128 = r1 as u128 * r1 as u128;
    let r: u128 = p % q as u128;
    proof {
        lemma_mod_bound(p as int, q as int);
        lemma2_to64();
        lemma_pow2_adds(64, 64);
        lemma_mul_mod_noop_general(big as int, big as int, q as int);
    }
    r as u64
}


/// `t + (t q' mod R) q` is a multiple of `R` when `q q' = -1 (mod R)`.
proof fn lemma_redc_divisible(t: int, q: int, qinv: int, tl: int, m: int)
    requires
        t >= 0,
        q > 0,
        qinv >= 0,
        (q * qinv) % mont_r() == mont_r() - 1,
        tl == t % mont_r(),
        m == (tl * qinv) % mont_r(),
    ensures
        (t + m * q) % mont_r() == 0,
{
    let r = mont_r();
    // m q = tl qinv q = -tl (mod R)
    lemma_mul_mod_noop_left(tl * qinv, q, r);
    lemma_mul_is_associative(tl, qinv, q);
    lemma_mul_is_commutative(qinv, q);
    lemma_mul_mod_noop_right(tl, q * qinv, r);
    assert((m * q) % r == (tl * (r - 1)) % r);
    assert(tl * (r - 1) == tl * r - tl) by (nonlinear_arith);
    lemma_mod_multiples_vanish(tl, -tl, r);
    lemma_add_mod_noop(t, m * q, r);
    lemma_mod_twice(t, r);
    lemma_add_mod_noop(tl, -tl, r);
    lemma_mod_add_multiples_vanish(0, r);
    assert((-tl + tl * r) % r == (-tl) % r) by {
        lemma_mod_multiples_vanish(tl, -tl, r);
    }
    assert((tl % r + (-tl) % r) % r == (tl + -tl) % r);
    lemma_small_mod(0, r as nat);
}

/// Montgomery reduction: for `t < q 2^64`, the value `t 2^-64 mod q` in
/// `[0, q)`, given `qinv = -q^-1 mod 2^64`.
pub fn mont_redc(t: u128, q: u64, q_neg_inv: u64) -> (r: u64)
    requires
        0 < q < 0x8000_0000_0000_0000,
        is_neg_inverse(q, q_neg_inv),
        t < q * mont_r(),
    ensures
        r < q,
        (r * mont_r()) % (q as int) == (t as int) % (q as int),
{
    let tl = t as u64;
    assert(tl == t % 0x1_0000_0000_0000_0000) by (bit_vector)
        requires
            tl == t as u64,
    ;
    let m: u64 = tl.wrapping_mul(q_neg_inv);
    assert(m * q < 0x1_0000_0000_0000_0000 * 0x8000_0000_0000_0000) by (nonlinear_arith)
        requires
            m < 0x1_0000_0000_0000_0000,
            q < 0x8000_0000_0000_0000,
    ;
    let mq: u128 = (m as u128).wrapping_mul(q as u128);
    assert(mq == m * q) by {
        lemma_small_mod((m * q) as nat, 0x1_0000_0000_0000_0000_0000_0000_0000_0000nat);
    }
    assert(t + m * q < 2 * q * mont_r()) by (nonlinear_arith)
        requires
            t < q * mont_r(),
            m < mont_r(),
            mont_r() == 0x1_0000_0000_0000_0000,
    ;
    assert(2 * q * mont_r() <= 0x1_0000_0000_0000_0000_0000_0000_0000_0000int) by (nonlinear_arith)
        requires
            q < 0x8000_0000_0000_0000,
            mont_r() == 0x1_0000_0000_0000_0000,
    ;
    let t2: u128 = t.wrapping_add(mq);
    assert(t2 == t + m * q);
    proof {
        lemma_redc_divisible(t as int, q as int, q_neg_inv as int, tl as int, m as int);
    }
    let r0 = t2 >> 64u128;
    assert(r0 == t2 / 0x1_0000_0000_0000_0000) by (bit_vector)
        requires
            r0 == t2 >> 64u128,
    ;
    proof {
        lemma_fundamental_div_mod(t2 as int, mont_r());
        assert(r0 * mont_r() == t2);
        lemma_div_by_multiple_is_strongly_ordered(t2 as int, 2 * q * mont_r(), 2 * q as int, mont_r());
        assert(r0 < 2 * q);
        lemma_mod_multiples_vanish(m as int, t as int, q as int);
        lemma_mul_is_commutative(m as int, q as int);
    }
    let r0 = r0 as u64;
    if r0 >= q {
        proof {
            assert((r0 - q) * mont_r() == r0 * mont_r() + (-mont_r()) * q) by (nonlinear_arith);
            lemma_mod_multiples_vanish(-mont_r(), r0 * mont_r(), q as int);
        }
        r0 - q
    } else {
        r0
    }
}

/// Montgomery multiplication of `a, b < q`: `a b 2^-64 mod q` in `[0, q)`.
/// With both factors in Montgomery form, so is the product.
pub fn mont_mul(a: u64, b: u64, q: u64, q_neg_inv: u64) -> (r: u64)
    requires
        1 < q < 0x8000_0000_0000_0000,
        is_neg_inverse(q, q_neg_inv),
        b < q,
    ensures
        r < q,
        (r * mont_r()) % (q as int) == (a * b) % (q as int),
        r == (a * b * r_inverse(q, q_neg_inv)) % (q as int),
{
    assert(a * b < q * mont_r()) by (nonlinear_arith)
        requires
            a < mont_r(),
            b < q,
    ;
    let r = mont_redc((a as u128) * (b as u128), q, q_neg_inv);
    proof {
        lemma_redc_value(q, q_neg_inv, r as int, a * b);
    }
    r
}

/// The value of a reduction: `r R = t (mod q)` with `r < q` makes `r` the
/// residue of `t R^-1`.
pub proof fn lemma_redc_value(q: u64, qinv: u64, r: int, t: int)
    requires
        q > 1,
        is_neg_inverse(q, qinv),
        0 <= r < q,
        (r * mont_r()) % (q as int) == t % (q as int),
    ensures
        r == (t * r_inverse(q, qinv)) % (q as int),
{
    let j = r_inverse(q, qinv);
    let qi = q as int;
    lemma_r_inverse(q, qinv);
    // r = r (R j) = (r R) j = t j (mod q)
    lemma_mul_mod_noop_general(r, j * mont_r(), qi);
    lemma_mul_basics(r);
    lemma_small_mod(r as nat, q as nat);
    assert(r * (j * mont_r()) == (r * mont_r()) * j) by (nonlinear_arith);
    lemma_mul_mod_noop_general(r * mont_r(), j, qi);
    lemma_mul_mod_noop_general(t, j, qi);
}


/// Congruence modulo `R` carries over to every power of two `m` dividing `R`.
proof fn lemma_mod_down(a: int, b: int, m: int, c: int)
    requires
        m > 0,
        c > 0,
        m * c == mont_r(),
        a % mont_r() == b % mont_r(),
    ensures
        a % m == b % m,
{
    lemma_mod_mod(a, m, c);
    lemma_mod_mod(b, m, c);
}

/// One Newton step `x' = x (2 - q x) mod R` doubles the number of low bits
/// in which `x` inverts `q` (up to the 64 bits of `R`).
proof fn lemma_newton_step(q: int, x: int, k: nat, x2: int)
    requires
        1 <= k <= 64,
        (q * x) % (pow2(k) as int) == 1,
        x2 == (x * ((2 - (q * x) % mont_r()) % mont_r())) % mont_r(),
    ensures
        (q * x2) % (pow2(if 2 * k < 64 { 2 * k } else { 64 }) as int) == 1,
{
    let r = mont_r();
    let k2: nat = if 2 * k < 64 { 2 * k } else { 64 };
    let m = pow2(k) as int;
    let m2 = pow2(k2) as int;
    lemma2_to64();
    lemma_pow2_pos(k);
    lemma_pow2_pos(k2);
    lemma_pow2_adds(k2, (64 - k2) as nat);
    lemma_pow2_pos((64 - k2) as nat);
    lemma_pow2_adds(k, (64 - k) as nat);
    lemma_pow2_pos((64 - k) as nat);
    let c2 = pow2((64 - k2) as nat) as int;
    let c1 = pow2((64 - k) as nat) as int;
    assert(m2 * c2 == r);
    assert(m * c1 == r);
    let y = (q * x) % r;
    let z = (2 - y) % r;
    // q x2 = q x z = y z = y (2 - y) (mod R)
    lemma_mul_mod_noop_general(x, z, r);
    assert((q * x2) % r == (q * (x * z)) % r) by {
        lemma_mul_mod_noop_general(q, x * z, r);
    }
    lemma_mul_is_associative(q, x, z);
    assert((q * x * z) % r == (y * z) % r) by {
        lemma_mul_mod_noop_general(q * x, z, r);
    }
    assert((y * z) % r == (y * (2 - y)) % r) by {
        lemma_mul_mod_noop_general(y, 2 - y, r);
    }
    // y = 1 + j m
    lemma_mod_down(q * x, y, m, c1);
    lemma_mod_twice(q * x, r);
    assert(y % m == 1);
    let j = y / m;
    lemma_fundamental_div_mod(y, m);
    assert(y == m * j + 1);
    assert(y * (2 - y) == 1 - (j * j) * (m * m)) by (nonlinear_arith)
        requires
            y == m * j + 1,
    ;
    // m2 divides m * m
    lemma_pow2_adds(k, k);
    lemma_pow2_adds(k2, (2 * k - k2) as nat);
    lemma_pow2_pos((2 * k - k2) as nat);
    let c3 = pow2((2 * k - k2) as nat) as int;
    assert(m * m == m2 * c3);
    assert(1 - (j * j) * (m * m) == m2 * (-(j * j) * c3) + 1) by (nonlinear_arith)
        requires
            m * m == m2 * c3,
    ;
    lemma_mod_multiples_vanish(-(j * j) * c3, 1, m2);
    lemma_pow2_strictly_increases(1, k2);
    lemma_small_mod(1, m2 as nat);
    assert((q * x2) % r == (1 - (j * j) * (m * m)) % r);
    lemma_mod_down(q * x2, 1 - (j * j) * (m * m), m2, c2);
}

/// `-q^-1 mod 2^64` for odd `q`, by six Newton steps from `1` (each doubles
/// the number of correct low bits: 1, 2, 4, ..., 64).
pub fn mont_q_neg_inv(q: u64) -> (r: u64)
    requires
        q % 2 == 1,
    ensures
        is_neg_inverse(q, r),
{
    let mut x: u64 = 1;
    let mut i: u32 = 0;
    proof {
        lemma2_to64();
        assert(pow2(1) == 2);
    }
    while i < 6
        invariant
            i <= 6,
            q % 2 == 1,
            (q * x) % (pow2(pow2(i as nat)) as int) == 1,
        decreases 6 - i,
    {
        let ghost k = pow2(i as nat);
        proof {
            lemma2_to64();
            lemma_pow2_adds(i as nat, 1);
            assert(pow2(5) == 32 && pow2(6) == 64);
            if i < 5 {
                lemma_pow2_strictly_increases(i as nat, 5);
            }
        }
        let y = q.wrapping_mul(x);
        let z = 2u64.wrapping_sub(y);
        proof {
            assert(z == (2 - y) % mont_r()) by {
                if 2 - y < 0 {
                    lemma_mod_multiples_vanish(1, 2 - y, mont_r());
                    lemma_small_mod((2 - y + mont_r()) as nat, mont_r() as nat);
                } else {
                    lemma_small_mod((2 - y) as nat, mont_r() as nat);
                }
            }
        }
        let x2 = x.wrapping_mul(z);
        proof {
            lemma_newton_step(q as int, x as int, k, x2 as int);
        }
        x = x2;
        i = i + 1;
    }
    proof {
        lemma2_to64();
        assert(pow2(6) == 64);
    }
    let r = 0u64.wrapping_sub(x);
    proof {
        let big = mont_r();
        assert((q * x) % big == 1);
        if x == 0 {
            assert(q * x == 0);
        }
        assert(r == big - x);
        assert(q * r == q * big - q * x) by (nonlinear_arith)
            requires
                r == big - x,
        ;
        lemma_mod_multiples_vanish(q as int, -(q * x), big);
        assert((q * r) % big == (-(q * x)) % big) by {
            lemma_mul_is_commutative(q as int, big);
        }
        lemma_fundamental_div_mod(q * x, big);
        let j = (q * x) / big;
        assert(-(q * x) == big * (-j) + (-1)) by (nonlinear_arith)
            requires
                q * x == big * j + 1,
        ;
        lemma_mod_multiples_vanish(-j, -1, big);
        assert((-1) % big == big - 1) by {
            lemma_mod_multiples_vanish(1, -1, big);
            lemma_small_mod((big - 1) as nat, big as nat);
        }
    }
    r
}


/// The twelve bases of the primality test, the primes up to 37.
pub open spec fn small_primes() -> Seq<int> {
    seq![2, 3, 5, 7, 11, 13, 17, 19, 23, 29, 31, 37]
}

/// The odd part `d` of `n = d 2^s` (`0` for `0`).
pub open spec fn odd_part(n: nat) -> nat
    decreases n,
{
    if n == 0 || n % 2 == 1 {
        n
    } else {
        odd_part(n / 2)
    }
}

/// The exponent `s` of two in `n = d 2^s` with `d` odd (`0` for `0`).
pub open spec fn two_adic(n: nat) -> nat
    decreases n,
{
    if n == 0 || n % 2 == 1 {
        0
    } else {
        1 + two_adic(n / 2)
    }
}

/// `n` is a strong probable prime to base `a`: with `n - 1 = d 2^s`, `d`
/// odd, either `a^d = 1` or `a^(d 2^i) = -1 (mod n)` for some `i < s`.
pub open spec fn strong_probable_prime(n: int, a: int) -> bool {
    let d = odd_part((n - 1) as nat);
    let s = two_adic((n - 1) as nat);
    pow(a, d) % n == 1 || exists|i: nat| i < s && #[trigger] (pow(a, d * pow2(i)) % n) == n - 1
}

/// `n` passes the Miller-Rabin test with the twelve bases up to 37: it is one
/// of them, or none of them divides it and it is a strong probable prime to
/// each (which holds exactly of the primes below `3.3 * 10^24`).
pub open spec fn passes_miller_rabin(n: int) -> bool {
    n >= 2 && (small_primes().contains(n) || forall|i: int|
        0 <= i < 12 ==> n % #[trigger] small_primes()[i] != 0 && strong_probable_prime(n, small_primes()[i]))
}

proof fn lemma_odd_part_step(n: nat)
    requires
        n > 0,
        n % 2 == 0,
    ensures
        odd_part(n) == odd_part(n / 2),
        two_adic(n) == 1 + two_adic(n / 2),
{
}

proof fn lemma_square_pow(a: int, e: nat, n: int)
    requires
        n > 0,
    ensures
        ((pow(a, e) % n) * (pow(a, e) % n)) % n == pow(a, e * 2) % n,
{
    lemma_mul_mod_noop_general(pow(a, e), pow(a, e), n);
    lemma_pow_adds(a, e, e);
    assert(e + e == e * 2);
}

/// The strong probable prime test of `n` to base `a`, for odd `n > 2` with
/// `n - 1 = d 2^s`.
fn strong_probable_prime_exec(n: u64, a: u64, d: u64, s: u32) -> (b: bool)
    requires
        n > 2,
        d == odd_part((n - 1) as nat),
        s == two_adic((n - 1) as nat),
        s >= 1,
    ensures
        b == strong_probable_prime(n as int, a as int),
{
    let ghost dn: nat = odd_part((n - 1) as nat);
    let mut x = powmod(a, d, n);
    proof {
        assert(d > 0) by {
            lemma_odd_part_pos((n - 1) as nat);
        }
        lemma2_to64();
        assert(dn * pow2(0) == dn);
    }
    if x == 1 || x == n - 1 {
        proof {
            if x == n - 1 {
                assert(pow(a as int, dn * pow2(0)) % (n as int) == n - 1);
            }
        }
        return true;
    }
    let mut i: u32 = 1;
    while i < s
        invariant
            n > 2,
            1 <= i <= s,
            dn == d,
            s == two_adic((n - 1) as nat),
            dn == odd_part((n - 1) as nat),
            x == pow(a as int, dn * pow2((i - 1) as nat)) % (n as int),
            forall|j: nat| j < i ==> #[trigger] (pow(a as int, dn * pow2(j)) % (n as int)) != n - 1,
            pow(a as int, dn) % (n as int) != 1,
        decreases s - i,
    {
        proof {
            lemma_square_pow(a as int, dn * pow2((i - 1) as nat), n as int);
            lemma_pow2_adds((i - 1) as nat, 1);
            lemma_pow2_unfold(1);
            lemma2_to64();
            assert((dn * pow2((i - 1) as nat)) * 2 == dn * pow2(i as nat)) by (nonlinear_arith)
                requires
                    pow2(i as nat) == pow2((i - 1) as nat) * 2,
            ;
        }
        x = mulmod(x, x, n);
        if x == n - 1 {
            proof {
                assert(pow(a as int, dn * pow2(i as nat)) % (n as int) == n - 1);
            }
            return true;
        }
        i = i + 1;
    }
    proof {
        assert forall|j: nat| j < s implies #[trigger] (pow(a as int, dn * pow2(j)) % (n as int)) != n - 1 by {}
    }
    false
}

proof fn lemma_odd_part_pos(n: nat)
    requires
        n > 0,
    ensures
        odd_part(n) > 0,
        odd_part(n) % 2 == 1,
    decreases n,
{
    if n % 2 == 0 {
        lemma_odd_part_pos(n / 2);
    }
}

/// Deterministic Miller-Rabin with the twelve bases up to 37, exact for
/// every `u64`.
pub fn is_prime(n: u64) -> (b: bool)
    ensures
        b == passes_miller_rabin(n as int),
{
    if n < 2 {
        return false;
    }
    let w: [u64; 12] = [2, 3, 5, 7, 11, 13, 17, 19, 23, 29, 31, 37];
    proof {
        assert(w@.map_values(|v: u64| v as int) =~= small_primes());
    }
    let mut k: usize = 0;
    while k < 12
        invariant
            k <= 12,
            n >= 2,
            w@.map_values(|v: u64| v as int) == small_primes(),
            forall|i: int| 0 <= i < k ==> n != #[trigger] small_primes()[i] && (n as int) % small_primes()[i] != 0,
        decreases 12 - k,
    {
        let p = w[k];
        assert(p == small_primes()[k as int]);
        if n == p {
            proof {
                assert(small_primes()[k as int] == n);
            }
            return true;
        }
        if n % p == 0 {
            return false;
        }
        k = k + 1;
    }
    proof {
        assert(!small_primes().contains(n as int)) by {
            if small_primes().contains(n as int) {
                let i = choose|i: int| 0 <= i < 12 && small_primes()[i] == n;
                assert(n != small_primes()[i]);
            }
        }
        assert(n % 2 != 0 && n > 2) by {
            assert(small_primes()[0] == 2);
        }
    }
    let mut d = n - 1;
    let mut r: u32 = 0;
    proof {
        lemma_odd_part_pos((n - 1) as nat);
        lemma2_to64();
    }
    while d & 1 == 0
        invariant
            d > 0,
            odd_part(d as nat) == odd_part((n - 1) as nat),
            r + two_adic(d as nat) == two_adic((n - 1) as nat),
            r <= 64,
            d * pow2(r as nat) == n - 1,
        decreases d,
    {
        let bit = d & 1;
        assert(bit == d % 2) by (bit_vector)
            requires
                bit == d & 1,
        ;
        proof {
            lemma_odd_part_step(d as nat);
            lemma_pow2_adds(r as nat, 1);
            lemma_pow2_unfold(1);
            lemma2_to64();
            assert(d * pow2(r as nat) == (d / 2) * pow2((r + 1) as nat)) by (nonlinear_arith)
                requires
                    d % 2 == 0,
                    pow2((r + 1) as nat) == pow2(r as nat) * 2,
            ;
            assert(r < 64) by {
                if r >= 64 {
                    lemma_pow2_strictly_increases(63, r as nat);
                    lemma2_to64();
                    assert(d * pow2(r as nat) >= pow2(r as nat)) by (nonlinear_arith)
                        requires
                            d > 0,
                            pow2(r as nat) > 0,
                    ;
                }
            }
        }
        let d2 = d >> 1;
        assert(d2 == d / 2) by (bit_vector)
            requires
                d2 == d >> 1,
        ;
        d = d2;
        r = r + 1;
    }
    let bit = d & 1;
    assert(bit == d % 2) by (bit_vector)
        requires
            bit == d & 1,
    ;
    proof {
        assert(two_adic(d as nat) == 0 && odd_part(d as nat) == d);
        assert(r >= 1) by {
            if r == 0 {
                lemma2_to64();
                assert(d == n - 1);
            }
        }
    }
    let mut k: usize = 0;
    while k < 12
        invariant
            k <= 12,
            n > 2,
            !small_primes().contains(n as int),
            w@.map_values(|v: u64| v as int) == small_primes(),
            forall|i: int| 0 <= i < 12 ==> (n as int) % #[trigger] small_primes()[i] != 0,
            d == odd_part((n - 1) as nat),
            r == two_adic((n - 1) as nat),
            r >= 1,
            forall|i: int| 0 <= i < k ==> strong_probable_prime(n as int, #[trigger] small_primes()[i]),
        decreases 12 - k,
    {
        let a = w[k];
        assert(a == small_primes()[k as int]);
        if !strong_probable_prime_exec(n, a, d, r) {
            return false;
        }
        k = k + 1;
    }
    true
}


/// `R^-1 mod q` up to a multiple of `q`: `(q qinv + 1) / R`, which
/// `qinv = -q^-1 mod R` makes an exact quotient.
pub open spec fn r_inverse(q: u64, qinv: u64) -> int {
    (q * qinv + 1) / mont_r()
}

/// `R` times `r_inverse` is one modulo `q`.
pub proof fn lemma_r_inverse(q: u64, qinv: u64)
    requires
        q > 1,
        is_neg_inverse(q, qinv),
    ensures
        (r_inverse(q, qinv) * mont_r()) % (q as int) == 1,
        r_inverse(q, qinv) * mont_r() == q * qinv + 1,
{
    let r = mont_r();
    lemma_fundamental_div_mod(q * qinv, r);
    let f = (q * qinv) / r;
    assert(q * qinv + 1 == r * (f + 1));
    lemma_div_multiples_vanish(f + 1, r);
    lemma_mul_is_commutative(r, f + 1);
    assert(r_inverse(q, qinv) == f + 1);
    lemma_mod_multiples_vanish(qinv as int, 1, q as int);
    lemma_small_mod(1, q as nat);
}

/// Multiplication by `R` can be cancelled modulo an odd `q`.
pub proof fn lemma_mont_cancel(q: u64, qinv: u64, a: int, b: int)
    requires
        q > 1,
        is_neg_inverse(q, qinv),
        (a * mont_r()) % (q as int) == (b * mont_r()) % (q as int),
    ensures
        a % (q as int) == b % (q as int),
{
    let j = r_inverse(q, qinv);
    let r = mont_r();
    let qi = q as int;
    lemma_r_inverse(q, qinv);
    assert(a * (j * r) == (a * r) * j) by (nonlinear_arith);
    assert(b * (j * r) == (b * r) * j) by (nonlinear_arith);
    lemma_mul_mod_noop_general(a * r, j, qi);
    lemma_mul_mod_noop_general(b * r, j, qi);
    lemma_mul_mod_noop_general(a, j * r, qi);
    lemma_mul_mod_noop_general(b, j * r, qi);
    lemma_mul_basics(a);
    lemma_mul_basics(b);
}

} // verus!
