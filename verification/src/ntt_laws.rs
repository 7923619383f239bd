//! The inverse NTT of an NTT context undoes its forward NTT, and the facts
//! about a built context that this rests on: the two twiddle tables are
//! inverse to each other and `n_inv_mont` inverts `d`.
use vstd::prelude::*;
use vstd::arithmetic::power::*;
use vstd::arithmetic::power2::*;
use vstd::arithmetic::div_mod::*;
use vstd::arithmetic::mul::*;
use crate::montgomery::{
    mont_r,
    r_inverse,
    lemma_r_inverse,
    strong_probable_prime,
    odd_part,
    two_adic,
    small_primes,
    passes_miller_rabin,
};
use crate::ntt_ctx::Ctx;

verus! {

/// A power of a value congruent to one is congruent to one.
proof fn lemma_pow_of_one(b: int, e: nat, q: int)
    requires
        q > 1,
        b % q == 1,
    ensures
        pow(b, e) % q == 1,
{
    lemma_pow_mod_noop(b, e, q);
    lemma1_pow(e);
    lemma_small_mod(1, q as nat);
}

/// `x * y * z mod q` depends on the factors modulo `q` only.
proof fn lemma_mul3_mod(x: int, y: int, z: int, q: int)
    requires
        q > 0,
    ensures
        (x * y * z) % q == ((x % q) * (y % q) * (z % q)) % q,
{
    lemma_mul_mod_noop_general(x * y, z, q);
    lemma_mul_mod_noop_general(x, y, q);
    lemma_mul_mod_noop_general((x % q) * (y % q), z % q, q);
    lemma_mul_mod_noop_general((x % q) * (y % q), z, q);
}

/// `psi^(q-2)` inverts `psi` when `psi^d = -1` and `2d` divides `q - 1`.
pub proof fn lemma_root_inverse(psi: int, d: nat, q: int)
    requires
        q > 2,
        d >= 1,
        pow(psi, d) % q == q - 1,
        (q - 1) % (2 * d as int) == 0,
    ensures
        (psi * (pow(psi, (q - 2) as nat) % q)) % q == 1,
{
    // psi^(2d) = (psi^d)^2 = (q - 1)^2 = 1 (mod q)
    lemma_pow_multiplies(psi, d, 2);
    lemma_pow_mod_noop(pow(psi, d), 2, q);
    lemma_square_is_pow2(q - 1);
    assert((q - 1) * (q - 1) == q * (q - 2) + 1) by (nonlinear_arith);
    lemma_mod_multiples_vanish(q - 2, 1, q);
    lemma_small_mod(1, q as nat);
    assert(pow(psi, d * 2) % q == 1);
    // psi^(q-1) = (psi^(2d))^m = 1 (mod q)
    let m = (q - 1) / (2 * d as int);
    lemma_fundamental_div_mod(q - 1, 2 * d as int);
    assert(q - 1 == (2 * d) * m);
    assert(m >= 0) by {
        lemma_div_pos_is_pos(q - 1, 2 * d as int);
    }
    lemma_pow_multiplies(psi, d * 2, m as nat);
    lemma_pow_of_one(pow(psi, d * 2), m as nat, q);
    assert((d * 2) * m == q - 1) by (nonlinear_arith)
        requires
            q - 1 == (2 * d) * m,
    ;
    // psi * psi^(q-2) = psi^(q-1)
    lemma_pow_adds(psi, 1, (q - 2) as nat);
    lemma_pow1(psi);
    lemma_mul_mod_noop_general(psi, pow(psi, (q - 2) as nat), q);
}

/// `n = d 2^s` with `d` odd: the odd part times the power of two is `n`.
proof fn lemma_odd_part_product(n: nat)
    requires
        n > 0,
    ensures
        odd_part(n) * pow2(two_adic(n)) == n,
    decreases n,
{
    lemma2_to64();
    if n % 2 == 0 {
        lemma_odd_part_product(n / 2);
        let t = two_adic(n / 2);
        assert(two_adic(n) == t + 1);
        lemma_pow2_unfold(t + 1);
        let o = odd_part(n / 2);
        assert(odd_part(n) == o);
        assert(o * pow2(t + 1) == 2 * (o * pow2(t))) by (nonlinear_arith)
            requires
                pow2(t + 1) == 2 * pow2(t),
        ;
    } else {
        assert(odd_part(n) == n && two_adic(n) == 0);
        assert(n * pow2(0) == n);
    }
}

/// A strong probable prime to base 2 is a Fermat probable prime to base 2:
/// `2^(q-1) = 1 (mod q)`.
pub proof fn lemma_strong_probable_prime_fermat(q: int)
    requires
        q > 2,
        strong_probable_prime(q, 2),
    ensures
        pow(2, (q - 1) as nat) % q == 1,
{
    let n = (q - 1) as nat;
    let dd = odd_part(n);
    let s = two_adic(n);
    lemma_odd_part_product(n);
    lemma_pow2(s);
    lemma_pow_multiplies(2, dd, pow2(s));
    assert(dd * pow2(s) == n);
    if pow(2, dd) % q == 1 {
        lemma_pow_of_one(pow(2, dd), pow2(s), q);
    } else {
        let i = choose|i: nat| i < s && #[trigger] (pow(2, dd * pow2(i)) % q) == q - 1;
        let x = pow(2, dd * pow2(i));
        // x^2 = 1, then x^(2^(s-i)) = 1
        lemma_pow_mod_noop(x, 2, q);
        lemma_square_is_pow2(q - 1);
        assert((q - 1) * (q - 1) == q * (q - 2) + 1) by (nonlinear_arith);
        lemma_mod_multiples_vanish(q - 2, 1, q);
        lemma_small_mod(1, q as nat);
        assert(pow(x, 2) % q == 1);
        lemma_pow_of_one(pow(x, 2), pow2((s - i - 1) as nat), q);
        lemma_pow_multiplies(x, 2, pow2((s - i - 1) as nat));
        lemma_pow_multiplies(2, dd * pow2(i), 2 * pow2((s - i - 1) as nat));
        lemma_pow2_adds(i, (s - i) as nat);
        lemma_pow2_unfold((s - i) as nat);
        assert((dd * pow2(i)) * (2 * pow2((s - i - 1) as nat)) == dd * pow2(s)) by (nonlinear_arith)
            requires
                pow2(s) == pow2(i) * pow2((s - i) as nat),
                pow2((s - i) as nat) == 2 * pow2((s - i - 1) as nat),
        ;
    }
}

/// `2^l` to the power `q - 1` is one modulo `q` when two is.
proof fn lemma_power_of_two_fermat(l: nat, q: int)
    requires
        q > 1,
        pow(2, (q - 1) as nat) % q == 1,
    ensures
        pow(pow2(l) as int, (q - 1) as nat) % q == 1,
{
    lemma_pow2(l);
    lemma_pow_multiplies(2, l, (q - 1) as nat);
    lemma_pow_multiplies(2, (q - 1) as nat, l);
    assert(l * ((q - 1) as nat) == ((q - 1) as nat) * l) by (nonlinear_arith);
    lemma_pow_of_one(pow(2, (q - 1) as nat), l, q);
}

/// A number above 37 that passes the Miller-Rabin test is a strong probable
/// prime to base 2.
pub proof fn lemma_passes_base_two(n: int)
    requires
        passes_miller_rabin(n),
        n > 37,
    ensures
        strong_probable_prime(n, 2),
{
    if small_primes().contains(n) {
        let i = choose|i: int| 0 <= i < small_primes().len() && small_primes()[i] == n;
        assert(small_primes()[i] <= 37) by {
            if i == 0 {
                assert(small_primes()[0] == 2);
            } else if i == 1 {
                assert(small_primes()[1] == 3);
            } else if i == 2 {
                assert(small_primes()[2] == 5);
            } else if i == 3 {
                assert(small_primes()[3] == 7);
            } else if i == 4 {
                assert(small_primes()[4] == 11);
            } else if i == 5 {
                assert(small_primes()[5] == 13);
            } else if i == 6 {
                assert(small_primes()[6] == 17);
            } else if i == 7 {
                assert(small_primes()[7] == 19);
            } else if i == 8 {
                assert(small_primes()[8] == 23);
            } else if i == 9 {
                assert(small_primes()[9] == 29);
            } else if i == 10 {
                assert(small_primes()[10] == 31);
            } else if i == 11 {
                assert(small_primes()[11] == 37);
            }
        }
    }
    assert(small_primes()[0] == 2);
}

impl Ctx {
    /// Each twiddle factor times its inverse, with the two factors `R^-1`
    /// of two Montgomery products, is one modulo `q`.
    pub open spec fn twiddles_inverse(&self) -> bool {
        let j = r_inverse(self.q, self.q_neg_inv);
        forall|k: int|
            0 <= k < self.d ==> (#[trigger] self.psi_pow_mont@[k] * self.psi_inv_pow_mont@[k] * (j * j)) % (
            self.q as int) == 1
    }

    /// `d` times `n_inv_mont` times `R^-1` is one modulo `q`.
    pub open spec fn n_inv_ok(&self) -> bool {
        (self.d * self.n_inv_mont * r_inverse(self.q, self.q_neg_inv)) % (self.q as int) == 1
    }
}

/// Tables built from `psi` with `psi psi^(q-2) = 1` are inverse to each other.
pub proof fn lemma_twiddles_inverse(c: Ctx, psi: int)
    requires
        c.wf(),
        c.tables_from(psi),
        (psi * (pow(psi, (c.q - 2) as nat) % (c.q as int))) % (c.q as int) == 1,
    ensures
        c.twiddles_inverse(),
{
    let q = c.q as int;
    let r = mont_r();
    let j = r_inverse(c.q, c.q_neg_inv);
    let pinv = pow(psi, (c.q - 2) as nat) % q;
    lemma_r_inverse(c.q, c.q_neg_inv);
    assert forall|k: int| 0 <= k < c.d implies (#[trigger] c.psi_pow_mont@[k] * c.psi_inv_pow_mont@[k] * (j * j)) % q
        == 1 by {
        let e = crate::util::bit_reverse_spec(k as nat, c.log_d as nat);
        let a = pow(psi, e);
        let b = pow(pinv, e);
        let s = c.psi_pow_mont@[k] as int;
        let t = c.psi_inv_pow_mont@[k] as int;
        assert(s == (a * r) % q);
        assert(t == (b * r) % q);
        lemma_mul3_mod(a * r, b * r, j * j, q);
        lemma_mul3_mod(s, t, j * j, q);
        lemma_mod_twice(a * r, q);
        lemma_mod_twice(b * r, q);
        assert((a * r) * (b * r) * (j * j) == (a * b) * ((r * j) * (r * j))) by (nonlinear_arith);
        lemma_pow_distributes(psi, pinv, e);
        lemma_pow_of_one(psi * pinv, e, q);
        lemma_mul_mod_noop_general(a * b, (r * j) * (r * j), q);
        lemma_mul_is_commutative(j, r);
        lemma_mul_mod_noop_general(r * j, r * j, q);
        lemma_small_mod(1, q as nat);
    }
}

/// `n_inv_mont = d^(q-2) R mod q` inverts `d` when `d^(q-1) = 1`.
pub proof fn lemma_n_inv(c: Ctx, psi: int)
    requires
        c.wf(),
        c.tables_from(psi),
        pow(c.d as int, (c.q - 1) as nat) % (c.q as int) == 1,
    ensures
        c.n_inv_ok(),
{
    let q = c.q as int;
    let r = mont_r();
    let j = r_inverse(c.q, c.q_neg_inv);
    let dd = c.d as int;
    let p = pow(dd, (c.q - 2) as nat);
    lemma_r_inverse(c.q, c.q_neg_inv);
    assert(c.n_inv_mont == ((p % q) * r) % q);
    lemma_mul_mod_noop_general(p, r, q);
    lemma_mul3_mod(dd, c.n_inv_mont as int, j, q);
    lemma_mul3_mod(dd, p * r, j, q);
    lemma_mod_twice(p * r, q);
    assert(dd * (p * r) * j == (dd * p) * (r * j)) by (nonlinear_arith);
    lemma_pow_adds(dd, 1, (c.q - 2) as nat);
    lemma_pow1(dd);
    lemma_mul_mod_noop_general(dd * p, r * j, q);
    lemma_mul_is_commutative(j, r);
    lemma_small_mod(1, q as nat);
}

/// The facts of a built context: its root has `psi^d = -1`, `2d` divides
/// `q - 1` and `q` is a strong probable prime to base 2; then its twiddle
/// tables are mutually inverse and `n_inv_mont` inverts `d`.
pub proof fn lemma_built_context(c: Ctx, psi: int)
    requires
        c.wf(),
        c.q > 2,
        c.tables_from(psi),
        pow(psi, c.d as nat) % (c.q as int) == c.q - 1,
        (c.q - 1) % (2 * c.d) == 0,
        strong_probable_prime(c.q as int, 2),
    ensures
        c.twiddles_inverse(),
        c.n_inv_ok(),
{
    lemma_pow2_pos(c.log_d as nat);
    lemma_root_inverse(psi, c.d as nat, c.q as int);
    lemma_twiddles_inverse(c, psi);
    lemma_strong_probable_prime_fermat(c.q as int);
    lemma_power_of_two_fermat(c.log_d as nat, c.q as int);
    lemma_n_inv(c, psi);
}


impl Ctx {
    /// Every value multiplied by `k`, modulo `q`.
    pub open spec fn scale_vals(&self, x: Seq<u64>, k: int) -> Seq<u64> {
        Seq::new(x.len(), |p: int| ((k * x[p]) % (self.q as int)) as u64)
    }
}

proof fn lemma_block_of(p: int, t: int)
    requires
        t >= 1,
        p >= 0,
    ensures
        p == 2 * t * (p / (2 * t)) + p % (2 * t),
        0 <= p % (2 * t) < 2 * t,
        p / (2 * t) >= 0,
{
    lemma_fundamental_div_mod(p, 2 * t);
    lemma_mod_bound(p, 2 * t);
    lemma_div_pos_is_pos(p, 2 * t);
}

proof fn lemma_same_block(p: int, t: int, b: int, off: int)
    requires
        t >= 1,
        b >= 0,
        0 <= off < 2 * t,
        p == 2 * t * b + off,
    ensures
        p / (2 * t) == b,
        p % (2 * t) == off,
{
    lemma_mul_is_commutative(2 * t, b);
    lemma_fundamental_div_mod_converse(p, 2 * t, b, off);
}

/// A forward layer leaves values reduced modulo `q`.
pub(crate) proof fn lemma_fwd_layer_reduced(c: Ctx, x: Seq<u64>, m: int, t: int)
    requires
        c.wf(),
        m >= 1,
        t >= 1,
        m * (2 * t) == c.d,
        x.len() == c.d,
    ensures
        c.fwd_layer(x, m, t).len() == c.d,
        c.reduced(c.fwd_layer(x, m, t)),
{
    let q = c.q as int;
    assert forall|p: int| 0 <= p < c.d implies #[trigger] c.fwd_layer(x, m, t)[p] < c.q by {
        let s = c.psi_pow_mont@[m + p / (2 * t)] as int;
        if p % (2 * t) < t {
            lemma_mod_bound(x[p] + c.mprod(x[p + t] as int, s), q);
        } else {
            lemma_mod_bound(x[p - t] - c.mprod(x[p] as int, s), q);
        }
    }
}

/// An inverse layer undoes the forward layer of the same shape, up to a
/// factor of two.
pub proof fn lemma_layer_inverse(c: Ctx, x: Seq<u64>, m: int, t: int)
    requires
        c.wf(),
        c.twiddles_inverse(),
        m >= 1,
        t >= 1,
        m * (2 * t) == c.d,
        x.len() == c.d,
        c.reduced(x),
    ensures
        c.inv_layer(c.fwd_layer(x, m, t), m, t) =~= c.scale_vals(x, 2),
{
    let q = c.q as int;
    let j = r_inverse(c.q, c.q_neg_inv);
    let f = c.fwd_layer(x, m, t);
    lemma_fwd_layer_reduced(c, x, m, t);
    assert forall|p: int| 0 <= p < c.d implies #[trigger] c.inv_layer(f, m, t)[p] == c.scale_vals(x, 2)[p] by {
        lemma_block_of(p, t);
        let b = p / (2 * t);
        let off = p % (2 * t);
        assert(m + b < c.d) by (nonlinear_arith)
            requires
                p == 2 * t * b + off,
                0 <= off,
                p < c.d,
                m * (2 * t) == c.d,
                t >= 1,
                m >= 1,
                b >= 0,
        ;
        assert(2 * t * b + 2 * t <= c.d) by (nonlinear_arith)
            requires
                p == 2 * t * b + off,
                0 <= off,
                p < c.d,
                m * (2 * t) == c.d,
                t >= 1,
        ;
        let s = c.psi_pow_mont@[m + b] as int;
        let si = c.psi_inv_pow_mont@[m + b] as int;
        if off < t {
            lemma_same_block(p + t, t, b, off + t);
            let u = x[p] as int;
            let v = c.mprod(x[p + t] as int, s);
            assert(f[p] == (u + v) % q);
            assert(f[p + t] == (u - v) % q);
            lemma_add_mod_noop(u + v, u - v, q);
            lemma_mod_bound(2 * u, q);
        } else {
            lemma_same_block(p - t, t, b, off - t);
            let u = x[p - t] as int;
            let v = c.mprod(x[p] as int, s);
            let w = x[p] as int;
            assert(f[p - t] == (u + v) % q);
            assert(f[p] == (u - v) % q);
            lemma_sub_mod_noop(u + v, u - v, q);
            assert((u + v) - (u - v) == 2 * v);
            let dd = ((u + v) % q - (u - v) % q) % q;
            assert(dd == (2 * v) % q);
            // mprod(dd, si) = 2 v si j = 2 w s j si j = 2 w (s si j j) = 2 w
            lemma_mul3_mod(dd, si, j, q);
            lemma_mul3_mod(2 * v, si, j, q);
            lemma_mod_twice(2 * v, q);
            lemma_mul_mod_noop_general(2, w * s * j, q);
            assert(v == (w * s * j) % q);
            assert((2 * v) % q == (2 * (w * s * j)) % q);
            lemma_mul3_mod(2 * (w * s * j), si, j, q);
            assert((2 * (w * s * j)) * si * j == (2 * w) * (s * si * (j * j))) by (nonlinear_arith);
            lemma_mul_mod_noop_general(2 * w, s * si * (j * j), q);
            assert((s * si * (j * j)) % q == 1);
            lemma_mod_bound(2 * w, q);
            lemma_mod_twice(2 * w, q);
        }
    }
}

/// An inverse layer commutes with scaling by a constant.
proof fn lemma_inv_layer_scale(c: Ctx, x: Seq<u64>, k: int, h: int, t: int)
    requires
        c.wf(),
        k >= 0,
        h >= 1,
        t >= 1,
        h * (2 * t) == c.d,
        x.len() == c.d,
    ensures
        c.inv_layer(c.scale_vals(x, k), h, t) =~= c.scale_vals(c.inv_layer(x, h, t), k),
{
    let q = c.q as int;
    let j = r_inverse(c.q, c.q_neg_inv);
    let sx = c.scale_vals(x, k);
    assert forall|p: int| 0 <= p < c.d implies #[trigger] c.inv_layer(sx, h, t)[p] == c.scale_vals(
        c.inv_layer(x, h, t),
        k,
    )[p] by {
        lemma_block_of(p, t);
        let b = p / (2 * t);
        let off = p % (2 * t);
        let si = c.psi_inv_pow_mont@[h + b] as int;
        assert(2 * t * b + 2 * t <= c.d) by (nonlinear_arith)
            requires
                p == 2 * t * b + off,
                0 <= off,
                p < c.d,
                h * (2 * t) == c.d,
                t >= 1,
        ;
        if off < t {
            let u = x[p] as int;
            let v = x[p + t] as int;
            lemma_add_mod_noop(k * u, k * v, q);
            lemma_mod_bound(u + v, q);
            lemma_mul_mod_noop_general(k, u + v, q);
            assert(k * u + k * v == k * (u + v)) by (nonlinear_arith);
            lemma_mod_bound(k * (u + v), q);
        } else {
            let u = x[p - t] as int;
            let v = x[p] as int;
            lemma_sub_mod_noop(k * u, k * v, q);
            assert(k * u - k * v == k * (u - v)) by (nonlinear_arith);
            let e1 = ((k * u) % q - (k * v) % q) % q;
            let e2 = (u - v) % q;
            lemma_mul_mod_noop_general(k, u - v, q);
            assert(e1 == (k * e2) % q);
            lemma_mul3_mod(e1, si, j, q);
            lemma_mul3_mod(k * e2, si, j, q);
            lemma_mod_twice(k * e2, q);
            assert((k * e2) * si * j == k * (e2 * si * j)) by (nonlinear_arith);
            lemma_mul_mod_noop_general(k, e2 * si * j, q);
            lemma_mod_bound(e2 * si * j, q);
            lemma_mod_bound(k * ((e2 * si * j) % q), q);
        }
    }
}

/// Scaling twice is scaling by the product.
proof fn lemma_scale_scale(c: Ctx, x: Seq<u64>, a: int, b: int)
    requires
        c.wf(),
        a >= 0,
        b >= 0,
    ensures
        c.scale_vals(c.scale_vals(x, a), b) =~= c.scale_vals(x, a * b),
{
    let q = c.q as int;
    assert forall|p: int| 0 <= p < x.len() implies #[trigger] c.scale_vals(c.scale_vals(x, a), b)[p] == c.scale_vals(
        x,
        a * b,
    )[p] by {
        lemma_mod_bound(a * x[p], q);
        lemma_mul_mod_noop_general(b, a * x[p], q);
        assert(b * (a * x[p]) == (a * b) * x[p]) by (nonlinear_arith);
        lemma_mod_bound((a * b) * x[p], q);
    }
}

/// The inverse layers from `d/2` blocks down, after the forward layers from
/// `m = 2^i` blocks up, amount to scaling by `d / m` and then the inverse
/// layers from `m / 2` blocks down.
proof fn lemma_layers_compose(c: Ctx, a: Seq<u64>, i: nat)
    requires
        c.wf(),
        c.twiddles_inverse(),
        i <= c.log_d,
        a.len() == c.d,
        c.reduced(a),
    ensures
        c.inv_layers(c.fwd_layers(a, pow2(i) as int), (c.d / 2) as int) == c.inv_layers(
            c.scale_vals(a, pow2((c.log_d - i) as nat) as int),
            (pow2(i) / 2) as int,
        ),
    decreases c.log_d - i,
{
    let q = c.q as int;
    let m = pow2(i) as int;
    lemma_pow2_pos(i);
    lemma2_to64();
    lemma_pow2_adds(i, (c.log_d - i) as nat);
    if i == c.log_d {
        assert(c.fwd_layers(a, m) == a);
        assert(c.scale_vals(a, 1) =~= a) by {
            assert forall|p: int| 0 <= p < a.len() implies #[trigger] c.scale_vals(a, 1)[p] == a[p] by {
                lemma_small_mod(a[p] as nat, c.q as nat);
            }
        }
    } else {
        let t = pow2((c.log_d - i - 1) as nat) as int;
        lemma_pow2_unfold((c.log_d - i) as nat);
        lemma_pow2_pos((c.log_d - i - 1) as nat);
        lemma_pow2_unfold(i + 1);
        assert(m * (2 * t) == c.d) by (nonlinear_arith)
            requires
                m * pow2((c.log_d - i) as nat) == c.d,
                pow2((c.log_d - i) as nat) == 2 * t,
        ;
        assert((c.d as int) / (2 * m) == t) by {
            assert(c.d == t * (2 * m)) by (nonlinear_arith)
                requires
                    m * (2 * t) == c.d,
            ;
            lemma_div_multiples_vanish(t, 2 * m);
        }
        assert(2 * m <= c.d) by (nonlinear_arith)
            requires
                m * (2 * t) == c.d,
                t >= 1,
        ;
        let e = c.fwd_layer(a, m, t);
        assert(c.fwd_layers(a, m) == c.fwd_layers(e, 2 * m));
        lemma_fwd_layer_reduced(c, a, m, t);
        lemma_layers_compose(c, e, i + 1);
        assert(pow2(i + 1) == 2 * m);
        assert(pow2(i + 1) / 2 == m);
        assert(pow2((c.log_d - (i + 1)) as nat) == t);
        let se = c.scale_vals(e, t);
        assert(m <= c.d);
        assert(c.inv_layers(se, m) == c.inv_layers(c.inv_layer(se, m, t), m / 2)) by {
            assert((c.d as int) / (2 * m) == t);
        }
        lemma_inv_layer_scale(c, e, t, m, t);
        lemma_layer_inverse(c, a, m, t);
        lemma_scale_scale(c, a, 2, t);
        assert(2 * t == pow2((c.log_d - i) as nat));
    }
}

/// The inverse NTT undoes the forward NTT on `d` reduced values, for a
/// context whose twiddle tables are mutually inverse and whose `n_inv_mont`
/// inverts `d` (as every built context's are).
pub proof fn lemma_intt_ntt_inverse(c: Ctx, a: Seq<u64>)
    requires
        c.wf(),
        c.twiddles_inverse(),
        c.n_inv_ok(),
        a.len() == c.d,
        c.reduced(a),
    ensures
        c.intt_spec(c.ntt_spec(a)) == a,
{
    let q = c.q as int;
    let j = r_inverse(c.q, c.q_neg_inv);
    lemma_layers_compose(c, a, 0);
    lemma2_to64();
    let sa = c.scale_vals(a, c.d as int);
    assert(c.inv_layers(sa, 0) == sa);
    let y = c.ntt_spec(a);
    assert(pow2(0) == 1) by {
        lemma_pow2(0);
        reveal(pow);
    }
    assert(c.fwd_layers(a, pow2(0) as int) == y);
    assert((pow2(0) / 2) as int == 0);
    assert(pow2((c.log_d - 0) as nat) == c.d);
    let b = c.inv_layers(y, (c.d / 2) as int);
    assert(b == sa);
    assert(c.ntt_spec(a).len() == a.len()) by {
        lemma_fwd_layers_len(c, a, 1);
    }
    assert forall|p: int| 0 <= p < a.len() implies #[trigger] c.intt_spec(y)[p] == a[p] by {
        assert(c.intt_spec(y)[p] == c.mprod(b[p] as int, c.n_inv_mont as int) as u64);
        let v = a[p] as int;
        assert(sa[p] as int == (c.d * v) % q);
        lemma_mul3_mod(sa[p] as int, c.n_inv_mont as int, j, q);
        lemma_mul3_mod(c.d * v, c.n_inv_mont as int, j, q);
        lemma_mod_twice(c.d * v, q);
        assert((c.d * v) * c.n_inv_mont * j == v * (c.d * c.n_inv_mont * j)) by (nonlinear_arith);
        lemma_mul_mod_noop_general(v, c.d * c.n_inv_mont * j, q);
        lemma_small_mod(v as nat, c.q as nat);
        lemma_mod_bound((c.d * v) * c.n_inv_mont * j, q);
    }
    assert(c.intt_spec(y) =~= a);
}

proof fn lemma_fwd_layers_len(c: Ctx, a: Seq<u64>, m: int)
    ensures
        c.fwd_layers(a, m).len() == a.len(),
    decreases c.d - m,
{
    if !(m < 1 || 2 * m > c.d) {
        lemma_fwd_layers_len(c, c.fwd_layer(a, m, (c.d as int) / (2 * m)), 2 * m);
    }
}

} // verus!
