//! Shamir secret sharing primitives over the prime field `F_q`.
//!
//! Field elements are `u32` values; products are formed in `u64` and reduced
//! modulo `q`. Party `j` is assigned the nonzero evaluation point `x_j = j`.
//! A degree-`t` polynomial `f` with `f(0) = secret` is stored as its
//! coefficient list `[a_0, a_1, ..., a_t]`, so `f(x) = sum a_i x^i`.
use vstd::prelude::*;
use vstd::arithmetic::power::*;
use vstd::arithmetic::div_mod::*;
use vstd::arithmetic::mul::*;
use crate::params::{Q, Q64, field_q};
use crate::arith::lemma_square_multiply_step;
use crate::crypt::{new_rng, rng_below_u32};
use rand::rngs::StdRng;

verus! {

/// `sum_i coeffs[i] * x^i` over the integers.
pub open spec fn poly_value(coeffs: Seq<u32>, x: int) -> int
    decreases coeffs.len(),
{
    if coeffs.len() == 0 {
        0
    } else {
        coeffs[0] + x * poly_value(coeffs.drop_first(), x)
    }
}

/// Product, modulo `q`, of the evaluation points in `ids` other than `j`.
pub open spec fn lagrange_num(ids: Seq<u32>, j: u32) -> int
    decreases ids.len(),
{
    if ids.len() == 0 {
        1
    } else if ids.last() == j {
        lagrange_num(ids.drop_last(), j)
    } else {
        (lagrange_num(ids.drop_last(), j) * ids.last()) % field_q()
    }
}

/// Product, modulo `q`, of the differences `(m - j) mod q` over the points
/// `m` in `ids` other than `j`.
pub open spec fn lagrange_den(ids: Seq<u32>, j: u32) -> int
    decreases ids.len(),
{
    if ids.len() == 0 {
        1
    } else if ids.last() == j {
        lagrange_den(ids.drop_last(), j)
    } else {
        (lagrange_den(ids.drop_last(), j) * ((ids.last() + field_q() - j) % field_q()))
            % field_q()
    }
}

/// The Lagrange coefficient at zero of the point `j` for the point set `ids`:
/// `prod m / prod (m - j)`, the division being multiplication by the
/// Fermat inverse `den^(q-2)`.
pub open spec fn lagrange_coeff(ids: Seq<u32>, j: u32) -> int {
    (lagrange_num(ids, j) * (pow(lagrange_den(ids, j), (field_q() - 2) as nat) % field_q()))
        % field_q()
}

/// A single Shamir share: the value `y = f(x)` at the evaluation point `x`.
#[derive(Clone, Copy, Debug, PartialEq, Eq, Structural)]
pub struct Share {
    pub x: u32,
    pub y: u32,
}

/// The evaluation points of a list of shares.
pub open spec fn share_points(shares: Seq<Share>) -> Seq<u32> {
    shares.map_values(|s: Share| s.x)
}

/// `sum_k lambda_k * y_k (mod q)` with the Lagrange coefficients computed
/// over the point set `ids`.
pub open spec fn lagrange_sum(shares: Seq<Share>, ids: Seq<u32>) -> int
    decreases shares.len(),
{
    if shares.len() == 0 {
        0
    } else {
        (lagrange_sum(shares.drop_last(), ids) + (lagrange_coeff(ids, shares.last().x)
            * shares.last().y) % field_q()) % field_q()
    }
}

/// The points of `ids` all admit a Lagrange coefficient: the denominator of
/// each is invertible modulo `q`.
pub open spec fn lagrange_defined(ids: Seq<u32>) -> bool {
    forall|k: int|
        0 <= k < ids.len() ==> ids[k] <= field_q() && #[trigger] lagrange_den(ids, ids[k])
            % field_q() != 0
}

/// Field addition mod q.
pub fn add(a: u32, b: u32) -> (r: u32)
    ensures
        r == (a + b) % field_q(),
{
    ((a as u64 + b as u64) % Q64) as u32
}

/// Field subtraction mod q (`a + q - b`, reduced).
pub fn sub(a: u32, b: u32) -> (r: u32)
    requires
        b <= a + field_q(),
    ensures
        r == (a + field_q() - b) % field_q(),
{
    ((a as u64 + Q64 - b as u64) % Q64) as u32
}

/// Field multiplication mod q.
pub fn mul(a: u32, b: u32) -> (r: u32)
    ensures
        r == (a * b) % field_q(),
{
    proof {
        lemma_mul_upper_bound(a as int, 0xffff_ffff, b as int, 0xffff_ffff);
    }
    ((a as u64 * b as u64) % Q64) as u32
}

/// Square-and-multiply for an arbitrary `u64` exponent, mod q.
pub fn mod_pow(base: u32, exp: u64) -> (r: u32)
    ensures
        r == pow(base as int, exp as nat) % field_q(),
{
    let mut b: u64 = base as u64 % Q64;
    let mut e: u64 = exp;
    let mut result: u64 = 1;
    proof {
        lemma_pow0(b as int);
        lemma_pow_mod_noop(base as int, exp as nat, field_q());
    }
    while e > 0
        invariant
            result < Q64,
            b < Q64,
            (result * pow(b as int, e as nat)) % field_q() == pow(base as int, exp as nat)
                % field_q(),
        decreases e,
    {
        proof {
            lemma_square_multiply_step(result as int, b as int, e as nat, field_q());
        }
        if e & 1 == 1 {
            assert(e % 2 == 1) by (bit_vector) requires e & 1 == 1;
            proof {
                lemma_mul_upper_bound(result as int, Q64 as int, b as int, Q64 as int);
            }
            result = (result * b) % Q64;
        } else {
            assert(e % 2 == 0) by (bit_vector) requires e & 1 != 1;
        }
        let e2 = e >> 1;
        assert(e2 == e / 2) by (bit_vector) requires e2 == e >> 1;
        e = e2;
        proof {
            lemma_mul_upper_bound(b as int, Q64 as int, b as int, Q64 as int);
        }
        b = (b * b) % Q64;
    }
    proof {
        lemma_pow0(b as int);
        lemma_small_mod(result as nat, Q64 as nat);
    }
    result as u32
}

/// Modular inverse via Fermat's little theorem: `a^(q-2) mod q`.
/// There is no inverse of a multiple of q.
pub fn inverse(a: u32) -> (r: u32)
    requires
        a as int % field_q() != 0,
    ensures
        r == pow(a as int, (field_q() - 2) as nat) % field_q(),
        (a * r) % field_q() == 1,
{
    let r = mod_pow(a, Q64 - 2);
    proof {
        crate::field_laws::lemma_fermat_inverse(a as int);
        lemma_mul_mod_noop_right(a as int, pow(a as int, (field_q() - 2) as nat), field_q());
    }
    r
}

proof fn lemma_horner_step(acc: int, p: int, x: int, c: int, m: int)
    requires
        m > 0,
        acc == p % m,
    ensures
        (((acc * x) % m) + c) % m == (c + x * p) % m,
{
    lemma_mul_mod_noop_left(p, x, m);
    lemma_mul_is_commutative(p, x);
    lemma_add_mod_noop(x * p, c, m);
    lemma_mod_twice(x * p, m);
    lemma_add_mod_noop((x * p) % m, c, m);
}

/// Evaluate `f(x) = sum_i coeffs[i] * x^i` over F_q (Horner's method).
pub fn eval_poly_at(coeffs: &[u32], x: u32) -> (r: u32)
    ensures
        r == poly_value(coeffs@, x as int) % field_q(),
{
    let mut acc: u32 = 0;
    let mut i: usize = coeffs.len();
    proof {
        assert(coeffs@.subrange(i as int, coeffs@.len() as int) =~= Seq::<u32>::empty());
    }
    while i > 0
        invariant
            i <= coeffs.len(),
            acc == poly_value(coeffs@.subrange(i as int, coeffs@.len() as int), x as int)
                % field_q(),
        decreases i,
    {
        let c = coeffs[i - 1];
        let ghost tail = coeffs@.subrange(i as int, coeffs@.len() as int);
        let ghost ext = coeffs@.subrange(i - 1, coeffs@.len() as int);
        proof {
            assert(ext.drop_first() =~= tail);
            assert(ext[0] == c);
            lemma_horner_step(acc as int, poly_value(tail, x as int), x as int, c as int, field_q());
        }
        acc = self::add(self::mul(acc, x), c);
        i = i - 1;
    }
    proof {
        assert(coeffs@.subrange(0, coeffs@.len() as int) =~= coeffs@);
    }
    acc
}

/// Lagrange coefficient `lambda_j` at zero for the points `active_ids`:
/// `prod_{m != j} m / (m - j)` modulo q.
pub fn lagrange_coeff_at_zero(active_ids: &[u32], j: u32) -> (r: u32)
    requires
        j <= field_q(),
        lagrange_den(active_ids@, j) % field_q() != 0,
    ensures
        r == lagrange_coeff(active_ids@, j),
{
    let mut num: u32 = 1;
    let mut den: u32 = 1;
    let mut i: usize = 0;
    proof {
        assert(active_ids@.subrange(0, 0) =~= Seq::<u32>::empty());
    }
    while i < active_ids.len()
        invariant
            i <= active_ids.len(),
            j <= field_q(),
            num == lagrange_num(active_ids@.subrange(0, i as int), j),
            den == lagrange_den(active_ids@.subrange(0, i as int), j),
            num < field_q() || num == 1,
            den < field_q() || den == 1,
        decreases active_ids.len() - i,
    {
        let m = active_ids[i];
        proof {
            let pre = active_ids@.subrange(0, i as int);
            let ext = active_ids@.subrange(0, i + 1);
            assert(ext.drop_last() =~= pre);
            assert(ext.last() == m);
        }
        if m != j {
            num = self::mul(num, m);
            den = self::mul(den, self::sub(m, j));
        }
        i = i + 1;
    }
    proof {
        assert(active_ids@.subrange(0, active_ids@.len() as int) =~= active_ids@);
        lemma_small_mod(1, field_q() as nat);
    }
    let inv = inverse(den);
    self::mul(num, inv)
}

/// Sample one uniform field element in `[0, q)` from the given generator.
pub fn random_field_element(rng: &mut StdRng) -> (r: u32)
    ensures
        r < field_q(),
{
    rng_below_u32(rng, Q)
}

/// Shamir Share(x): a degree-`t` sharing of `secret` over F_q, using a
/// generator seeded from the system's entropy.
pub fn share(secret: u32, t: usize, n: usize) -> (shares: Vec<Share>)
    requires
        t < n,
        n < field_q(),
    ensures
        is_shamir_sharing(shares@, secret, t, n),
{
    let mut rng = new_rng();
    share_with_rng(secret, t, n, &mut rng)
}

/// `shares` are the evaluations at `x = 1..=n` of a polynomial of degree at
/// most `t` with coefficients in `[0, q)` whose constant term is `secret mod q`.
pub open spec fn is_shamir_sharing(shares: Seq<Share>, secret: u32, t: usize, n: usize) -> bool {
    &&& shares.len() == n
    &&& exists|coeffs: Seq<u32>|
        {
            &&& coeffs.len() == t + 1
            &&& coeffs[0] == secret as int % field_q()
            &&& forall|i: int| 0 <= i < coeffs.len() ==> coeffs[i] < field_q()
            &&& forall|i: int|
                0 <= i < n ==> #[trigger] shares[i] == (Share {
                    x: (i + 1) as u32,
                    y: (poly_value(coeffs, i + 1) % field_q()) as u32,
                })
        }
}

/// Shamir Share(x) using a caller-provided generator: samples
/// `f(X) = secret + a_1 X + ... + a_t X^t` with uniform `a_i`, then evaluates
/// it at `x = 1, ..., n`.
pub fn share_with_rng(secret: u32, t: usize, n: usize, rng: &mut StdRng) -> (shares: Vec<Share>)
    requires
        t < n,
        n < field_q(),
    ensures
        is_shamir_sharing(shares@, secret, t, n),
{
    let mut coeffs: Vec<u32> = Vec::with_capacity(t + 1);
    coeffs.push(secret % Q);
    let mut k: usize = 0;
    while k < t
        invariant
            k <= t,
            coeffs@.len() == k + 1,
            coeffs@[0] == secret as int % field_q(),
            forall|i: int| 0 <= i < coeffs@.len() ==> coeffs@[i] < field_q(),
        decreases t - k,
    {
        let c = random_field_element(rng);
        coeffs.push(c);
        k = k + 1;
    }
    let mut shares: Vec<Share> = Vec::with_capacity(n);
    let mut x: u32 = 1;
    while (x as usize) <= n
        invariant
            1 <= x,
            x as int <= n + 1,
            n < field_q(),
            shares@.len() == x - 1,
            coeffs@.len() == t + 1,
            forall|i: int|
                0 <= i < shares@.len() ==> #[trigger] shares@[i] == (Share {
                    x: (i + 1) as u32,
                    y: (poly_value(coeffs@, i + 1) % field_q()) as u32,
                }),
        decreases n + 1 - x,
    {
        let y = eval_poly_at(coeffs.as_slice(), x);
        shares.push(Share { x, y });
        x = x + 1;
    }
    proof {
        assert(coeffs@.len() == t + 1);
    }
    shares
}

/// Reconstruct `f(0)` by Lagrange interpolation at zero over the points of
/// the given shares.
pub fn reconstruct(shares: &[Share]) -> (secret: u32)
    requires
        lagrange_defined(share_points(shares@)),
    ensures
        secret == lagrange_sum(shares@, share_points(shares@)),
{
    let mut active_ids: Vec<u32> = Vec::with_capacity(shares.len());
    let mut i: usize = 0;
    while i < shares.len()
        invariant
            i <= shares.len(),
            active_ids@ == share_points(shares@.subrange(0, i as int)),
        decreases shares.len() - i,
    {
        active_ids.push(shares[i].x);
        proof {
            assert(share_points(shares@.subrange(0, i + 1)) =~= share_points(
                shares@.subrange(0, i as int),
            ).push(shares@[i as int].x));
        }
        i = i + 1;
    }
    proof {
        assert(shares@.subrange(0, shares@.len() as int) =~= shares@);
    }
    let ghost ids = share_points(shares@);
    let mut secret: u32 = 0;
    let mut k: usize = 0;
    proof {
        assert(shares@.subrange(0, 0) =~= Seq::<Share>::empty());
    }
    while k < shares.len()
        invariant
            k <= shares.len(),
            active_ids@ == ids,
            ids == share_points(shares@),
            lagrange_defined(ids),
            secret == lagrange_sum(shares@.subrange(0, k as int), ids),
        decreases shares.len() - k,
    {
        let s = shares[k];
        proof {
            assert(ids[k as int] == s.x);
            assert(lagrange_den(ids, ids[k as int]) % field_q() != 0);
            let ext = shares@.subrange(0, k + 1);
            assert(ext.drop_last() =~= shares@.subrange(0, k as int));
        }
        let lambda = lagrange_coeff_at_zero(active_ids.as_slice(), s.x);
        secret = self::add(secret, self::mul(lambda, s.y));
        k = k + 1;
    }
    proof {
        assert(shares@.subrange(0, shares@.len() as int) =~= shares@);
    }
    secret
}

} // verus!
