//! `Ctx::poly_mul` computes the negacyclic product: after the forward layers
//! every value is the evaluation of the polynomial at a root `w` of
//! `X^d + 1`, evaluations multiply, and the inverse transform brings the
//! product back (times `R^-1`, the Montgomery factor of the pointwise
//! products).
use vstd::prelude::*;
use vstd::arithmetic::power::*;
use vstd::arithmetic::power2::*;
use vstd::arithmetic::div_mod::*;
use vstd::arithmetic::mul::*;
use crate::arith::{range_sum, lemma_range_sum_split, lemma_range_sum_shift, lemma_range_sum_ext};
use crate::field_laws::{fsum, lemma_fsum_ext, lemma_fsum_add, lemma_fsum_scale};
use crate::lagrange_laws::{lemma_fsum_congr, lemma_mul_congr};
use crate::kpke_laws::lemma_fsum_swap;
use crate::nega_laws::lemma_range_fsum;
use crate::ntt_ctx::{Ctx, conv_term, conv_coeff};
use crate::util::bit_reverse_spec;
use crate::montgomery::{mont_r, r_inverse, lemma_r_inverse};
use crate::ring_mult_laws::{lemma_bit_reverse_double, lemma_fsum_even_odd};

verus! {

/// Coefficient `e` of the antiperiodic extension, of period `d`, of `y`.
pub open spec fn extd(y: Seq<int>, d: int, e: int) -> int {
    if (e / d) % 2 == 0 {
        y[e % d]
    } else {
        -y[e % d]
    }
}

proof fn lemma_extd_anti(y: Seq<int>, d: int, e: int)
    requires
        d > 0,
    ensures
        extd(y, d, e + d) == -extd(y, d, e),
{
    lemma_fundamental_div_mod(e, d);
    lemma_mod_bound(e, d);
    assert(e + d == (e / d + 1) * d + e % d) by (nonlinear_arith)
        requires
            e == d * (e / d) + e % d,
    ;
    lemma_fundamental_div_mod_converse(e + d, d, e / d + 1, e % d);
    let k = e / d;
    if k % 2 == 0 {
        lemma_fundamental_div_mod_converse(k + 1, 2, k / 2, 1);
    } else {
        lemma_fundamental_div_mod(k, 2);
        lemma_fundamental_div_mod_converse(k + 1, 2, k / 2 + 1, 0);
    }
}

proof fn lemma_extd_base(y: Seq<int>, d: int, e: int)
    requires
        0 <= e < d,
    ensures
        extd(y, d, e) == y[e],
{
    lemma_fundamental_div_mod_converse(e, d, 0, e);
}

proof fn lemma_extd_below(y: Seq<int>, d: int, e: int)
    requires
        -d <= e < 0,
    ensures
        extd(y, d, e) == -y[e + d],
{
    lemma_extd_anti(y, d, e);
    lemma_extd_base(y, d, e + d);
}

/// The values as integers.
pub open spec fn ints64(s: Seq<u64>) -> Seq<int> {
    Seq::new(s.len(), |i: int| s[i] as int)
}

/// Coefficient `k` of the negacyclic product modulo `X^d + 1`, over the
/// integers.
pub open spec fn nconvd(x: Seq<int>, y: Seq<int>, d: int, k: int) -> int {
    range_sum(|i: int| x[i] * extd(y, d, k - i), 0, d)
}

proof fn lemma_range_sum_sub(f: spec_fn(int) -> int, g: spec_fn(int) -> int, lo: int, hi: int)
    ensures
        range_sum(f, lo, hi) - range_sum(g, lo, hi) == range_sum(|i: int| f(i) - g(i), lo, hi),
    decreases hi - lo,
{
    if hi > lo {
        lemma_range_sum_sub(f, g, lo, hi - 1);
    }
}

/// The schoolbook coefficient (plain product minus its wrapped part) is the
/// negacyclic product coefficient.
pub proof fn lemma_schoolbook_nconv(a: Seq<u64>, b: Seq<u64>, d: int, k: int)
    requires
        d > 0,
        a.len() == d,
        b.len() == d,
        0 <= k < d,
    ensures
        conv_coeff(a, b, d, k) - conv_coeff(a, b, d, k + d) == nconvd(ints64(a), ints64(b), d, k),
{
    let f = |i: int| conv_term(a, b, d, k, i);
    let g = |i: int| conv_term(a, b, d, k + d, i);
    lemma_range_sum_sub(f, g, 0, d);
    assert forall|i: int| 0 <= i < d implies #[trigger] (f(i) - g(i)) == ints64(a)[i] * extd(ints64(b), d, k - i) by {
        if i <= k {
            lemma_extd_base(ints64(b), d, k - i);
        } else {
            lemma_extd_below(ints64(b), d, k - i);
            assert(k - i + d == k + d - i);
            let x = a[i] as int;
            let y = b[k + d - i] as int;
            assert(0 - x * y == x * (-y)) by (nonlinear_arith);
        }
    }
    lemma_range_sum_ext(|i: int| f(i) - g(i), |i: int| ints64(a)[i] * extd(ints64(b), d, k - i), 0, d);
}

/// `p(w) = sum_t x[t] w^t` over `d` terms.
pub open spec fn evalp(x: Seq<int>, d: int, w: int) -> int {
    fsum(|t: int| x[t] * pow(w, t as nat), d as nat)
}

proof fn lemma_range_congr_m(f: spec_fn(int) -> int, g: spec_fn(int) -> int, lo: int, hi: int, m: int)
    requires
        m > 0,
        forall|i: int| lo <= i < hi ==> #[trigger] f(i) % m == g(i) % m,
    ensures
        range_sum(f, lo, hi) % m == range_sum(g, lo, hi) % m,
    decreases hi - lo,
{
    if hi > lo {
        lemma_range_congr_m(f, g, lo, hi - 1, m);
        lemma_add_mod_noop(range_sum(f, lo, hi - 1), f(hi - 1), m);
        lemma_add_mod_noop(range_sum(g, lo, hi - 1), g(hi - 1), m);
    }
}

proof fn lemma_range_scale_c(f: spec_fn(int) -> int, c: int, lo: int, hi: int)
    ensures
        range_sum(|i: int| c * f(i), lo, hi) == c * range_sum(f, lo, hi),
    decreases hi - lo,
{
    if hi > lo {
        lemma_range_scale_c(f, c, lo, hi - 1);
        lemma_mul_is_distributive_add(c, range_sum(f, lo, hi - 1), f(hi - 1));
    }
}

/// Rotating the index by `i` multiplies the evaluation by `w^i` when
/// `w^d = -1`.
proof fn lemma_rotate_d(b: Seq<int>, d: int, w: int, i: int, m: int)
    requires
        d > 0,
        m > 0,
        0 <= i < d,
        pow(w, d as nat) % m == (-1int) % m,
    ensures
        fsum(|t: int| extd(b, d, t - i) * pow(w, t as nat), d as nat) % m == (pow(w, i as nat) * evalp(b, d, w))
            % m,
{
    let tt = |t: int| extd(b, d, t - i) * pow(w, t as nat);
    let h = |s: int| extd(b, d, s) * pow(w, s as nat);
    let wi = pow(w, i as nat);
    lemma_range_fsum(tt, d as nat);
    lemma_range_fsum(h, d as nat);
    assert forall|s: int| 0 <= s < d implies #[trigger] h(s) == b[s] * pow(w, s as nat) by {
        lemma_extd_base(b, d, s);
    }
    lemma_fsum_ext(h, |t: int| b[t] * pow(w, t as nat), d as nat);
    lemma_range_sum_split(tt, 0, i, d);
    lemma_range_sum_split(h, 0, d - i, d);
    lemma_range_sum_shift(tt, 0, d - i, i);
    assert forall|s: int| 0 <= s < d - i implies #[trigger] tt(s + i) == wi * h(s) by {
        lemma_pow_adds(w, s as nat, i as nat);
        assert((s + i) as nat == s as nat + i as nat);
        let e = extd(b, d, s);
        assert(s + i - i == s);
        assert(e * (pow(w, s as nat) * wi) == wi * (e * pow(w, s as nat))) by (nonlinear_arith);
    }
    lemma_range_sum_ext(|s: int| tt(s + i), |s: int| wi * h(s), 0, d - i);
    lemma_range_scale_c(h, wi, 0, d - i);
    lemma_range_sum_shift(tt, d - i, d, i - d);
    assert((d - i) + (i - d) == 0 && d + (i - d) == i);
    assert forall|s: int| d - i <= s < d implies #[trigger] tt(s + (i - d)) % m == (wi * h(s)) % m by {
        let t = s + (i - d);
        let e = extd(b, d, s);
        lemma_extd_anti(b, d, s - d);
        assert(s - d + d == s);
        assert(t - i == s - d);
        let ep = extd(b, d, s - d);
        assert(e == -ep);
        lemma_pow_adds(w, s as nat, i as nat);
        lemma_pow_adds(w, t as nat, d as nat);
        assert((t as nat + d as nat) as nat == s as nat + i as nat);
        let pt = pow(w, t as nat);
        let pd = pow(w, d as nat);
        assert(wi * h(s) == (-ep) * (pt * pd)) by (nonlinear_arith)
            requires
                h(s) == e * pow(w, s as nat),
                pow(w, (s + i) as nat) == pow(w, s as nat) * wi,
                pow(w, (s + i) as nat) == pt * pd,
                (s + i) as nat == s as nat + i as nat,
                e == -ep,
        ;
        assert((-ep) * (pt * pd) == (-(ep * pt)) * pd) by (nonlinear_arith);
        lemma_mul_congr(-(ep * pt), -(ep * pt), pd, -1, m);
        assert((-(ep * pt)) * -1 == ep * pt) by (nonlinear_arith);
    }
    lemma_range_congr_m(|s: int| tt(s + (i - d)), |s: int| wi * h(s), d - i, d, m);
    lemma_range_scale_c(h, wi, d - i, d);
    let lo_part = range_sum(tt, 0, i);
    let hi_part = range_sum(tt, i, d);
    let h1 = range_sum(h, 0, d - i);
    let h2 = range_sum(h, d - i, d);
    assert(hi_part == wi * h1);
    assert(lo_part % m == (wi * h2) % m);
    lemma_add_mod_noop(lo_part, hi_part, m);
    lemma_add_mod_noop(wi * h2, wi * h1, m);
    lemma_mod_twice(wi * h1, m);
    lemma_mul_is_distributive_add(wi, h2, h1);
}

/// The negacyclic product as a sequence of `d` coefficients.
pub open spec fn nprodd(x: Seq<int>, y: Seq<int>, d: int) -> Seq<int> {
    Seq::new(d as nat, |k: int| nconvd(x, y, d, k))
}

/// Evaluation at a root of `X^d + 1` is multiplicative.
pub proof fn lemma_eval_mult(aa: Seq<int>, bb: Seq<int>, d: int, w: int, m: int)
    requires
        d > 0,
        m > 0,
        pow(w, d as nat) % m == (-1int) % m,
    ensures
        evalp(nprodd(aa, bb, d), d, w) % m == (evalp(aa, d, w) * evalp(bb, d, w)) % m,
{
    let c = nprodd(aa, bb, d);
    let f = |t: int, i: int| aa[i] * (extd(bb, d, t - i) * pow(w, t as nat));
    let outer = |t: int| c[t] * pow(w, t as nat);
    assert forall|t: int| 0 <= t < d implies #[trigger] outer(t) == fsum(|i: int| f(t, i), d as nat) by {
        let inner = |i: int| aa[i] * extd(bb, d, t - i);
        lemma_range_fsum(inner, d as nat);
        let pw = pow(w, t as nat);
        lemma_fsum_scale(inner, |i: int| pw * inner(i), pw, d as nat);
        assert forall|i: int| 0 <= i < d implies #[trigger] (pw * inner(i)) == f(t, i) by {
            let x = aa[i];
            let e = extd(bb, d, t - i);
            assert(pw * (x * e) == x * (e * pw)) by (nonlinear_arith);
        }
        lemma_fsum_ext(|i: int| pw * inner(i), |i: int| f(t, i), d as nat);
        lemma_mul_is_commutative(c[t], pw);
    }
    lemma_fsum_ext(outer, |t: int| fsum(|i: int| f(t, i), d as nat), d as nat);
    lemma_fsum_swap(f, d as nat, d as nat);
    let eb = evalp(bb, d, w);
    let jj = |i: int| fsum(|t: int| extd(bb, d, t - i) * pow(w, t as nat), d as nat);
    let gg = |i: int| aa[i] * jj(i);
    let tg = |i: int| eb * (aa[i] * pow(w, i as nat));
    assert forall|i: int| 0 <= i < d implies fsum(|t: int| f(t, i), d as nat) == #[trigger] gg(i) by {
        lemma_fsum_scale(|t: int| extd(bb, d, t - i) * pow(w, t as nat), |t: int| f(t, i), aa[i], d as nat);
    }
    lemma_fsum_ext(|i: int| fsum(|t: int| f(t, i), d as nat), gg, d as nat);
    assert forall|i: int| 0 <= i < d implies #[trigger] gg(i) % m == tg(i) % m by {
        lemma_rotate_d(bb, d, w, i, m);
        let pi = pow(w, i as nat);
        lemma_mul_congr(aa[i], aa[i], jj(i), pi * eb, m);
        assert(aa[i] * (pi * eb) == eb * (aa[i] * pi)) by (nonlinear_arith);
    }
    lemma_fsum_congr(gg, tg, d as nat, m);
    lemma_fsum_scale(|i: int| aa[i] * pow(w, i as nat), tg, eb, d as nat);
    lemma_mul_is_commutative(eb, evalp(aa, d, w));
}


/// `2 br_l(k) = br_l(k / 2) + 2^l (k mod 2)` for `k < 2^l`.
proof fn lemma_bit_reverse_twice_l(k: nat, l: nat)
    requires
        l >= 1,
        k < pow2(l),
    ensures
        2 * bit_reverse_spec(k, l) == bit_reverse_spec(k / 2, l) + pow2(l) * (k % 2),
{
    let l1 = (l - 1) as nat;
    assert(bit_reverse_spec(k, l) == (k % 2) * pow2(l1) + bit_reverse_spec(k / 2, l1));
    lemma_pow2_unfold(l);
    lemma_fundamental_div_mod(k as int, 2);
    assert(k / 2 < pow2(l1));
    lemma_bit_reverse_double(k / 2, l1);
    assert((l1 + 1) as nat == l);
    let p = pow2(l1);
    let b = k % 2;
    assert(2 * (b * p) == (2 * p) * b) by (nonlinear_arith);
}

/// Reversing `l` bits of `2^(l-1) + j` gives an odd number.
proof fn lemma_bit_reverse_top_odd(j: nat, l: nat)
    requires
        l >= 1,
        j < pow2((l - 1) as nat),
    ensures
        bit_reverse_spec(pow2((l - 1) as nat) + j, l) % 2 == 1,
{
    let l1 = (l - 1) as nat;
    crate::util::lemma_bit_reverse_split(1, j, l1, l);
    assert((l - l1) as nat == 1);
    assert(pow2(1) == 2) by {
        lemma2_to64();
    }
    assert(bit_reverse_spec(1, 1) == 1) by {
        lemma2_to64();
        assert(bit_reverse_spec(1, 1) == (1nat % 2) * pow2(0) + bit_reverse_spec(1nat / 2, 0));
    }
    assert(pow2(l1) * 1 == pow2(l1));
}

/// The root `w` of block `beta` when the forward layers have cut the `d`
/// values into `m` blocks: the block holds the residue modulo
/// `X^(d/m) - w`. The single block has `w = -1`; below, blocks `2i` and
/// `2i + 1` have `+z` and `-z` with `z = psi^bitrev_l(m/2 + i)`.
pub open spec fn ctx_root(psi: int, l: nat, m: int, beta: int) -> int {
    if m <= 1 {
        -1
    } else {
        let z = pow(psi, bit_reverse_spec((m / 2 + beta / 2) as nat, l));
        if beta % 2 == 0 {
            z
        } else {
            -z
        }
    }
}

/// The residue of the `d` coefficients `a` modulo `X^n - w` at coefficient
/// `r < n`: `sum_t a[r + t n] w^t` over `d / n` terms.
pub open spec fn cres(a: Seq<int>, d: int, n: int, w: int, r: int) -> int {
    fsum(|t: int| a[r + t * n] * pow(w, t as nat), (d / n) as nat)
}

/// `res(t, z)[p] = res(2t, z^2)[p] + z res(2t, z^2)[p + t]`.
proof fn lemma_cres_split(a: Seq<int>, d: int, t: int, n: nat, z: int, p: int)
    requires
        t >= 1,
        d == 2 * t * n,
    ensures
        cres(a, d, t, z, p) == cres(a, d, 2 * t, z * z, p) + z * cres(a, d, 2 * t, z * z, p + t),
{
    let n2 = 2 * (n as int);
    assert(d == n2 * t && d == (n as int) * (2 * t)) by (nonlinear_arith)
        requires
            d == 2 * t * n,
            n2 == 2 * (n as int),
    ;
    lemma_fundamental_div_mod_converse(d, t, n2, 0);
    lemma_fundamental_div_mod_converse(d, 2 * t, n as int, 0);
    let f = |s: int| a[p + s * t] * pow(z, s as nat);
    lemma_fsum_even_odd(f, n);
    let ev = |s: int| a[p + s * (2 * t)] * pow(z * z, s as nat);
    let od = |s: int| a[p + t + s * (2 * t)] * pow(z * z, s as nat);
    assert(pow(z, 2) == z * z) by {
        lemma_pow_adds(z, 1, 1);
        lemma_pow1(z);
    }
    assert forall|s: int| 0 <= s < n implies #[trigger] f(2 * s) == ev(s) by {
        assert(p + (2 * s) * t == p + s * (2 * t)) by (nonlinear_arith);
        assert((2 * s) as nat == 2 * (s as nat));
        lemma_pow_multiplies(z, 2, s as nat);
    }
    assert forall|s: int| 0 <= s < n implies #[trigger] f(2 * s + 1) == z * od(s) by {
        assert(p + (2 * s + 1) * t == p + t + s * (2 * t)) by (nonlinear_arith);
        lemma_pow_adds(z, (2 * s) as nat, 1);
        lemma_pow1(z);
        assert((2 * s) as nat == 2 * (s as nat));
        lemma_pow_multiplies(z, 2, s as nat);
        assert((2 * s + 1) as nat == (2 * s) as nat + 1);
        let x = a[p + t + s * (2 * t)];
        let w = pow(z * z, s as nat);
        assert(x * (w * z) == z * (x * w)) by (nonlinear_arith);
    }
    lemma_fsum_ext(|s: int| f(2 * s), ev, n);
    lemma_fsum_scale(od, |s: int| f(2 * s + 1), z, n);
}

/// Congruent roots give congruent residues.
proof fn lemma_cres_congr_root(a: Seq<int>, d: int, n: int, w: int, w2: int, r: int, q: int)
    requires
        q > 0,
        w % q == w2 % q,
    ensures
        cres(a, d, n, w, r) % q == cres(a, d, n, w2, r) % q,
{
    let f = |t: int| a[r + t * n] * pow(w, t as nat);
    let g = |t: int| a[r + t * n] * pow(w2, t as nat);
    assert forall|t: int| 0 <= t < (d / n) as nat implies #[trigger] f(t) % q == g(t) % q by {
        lemma_pow_mod_noop(w, t as nat, q);
        lemma_pow_mod_noop(w2, t as nat, q);
        lemma_mul_congr(a[r + t * n], a[r + t * n], pow(w, t as nat), pow(w2, t as nat), q);
    }
    lemma_fsum_congr(f, g, (d / n) as nat, q);
}

/// The twiddle `z = psi^bitrev_l(m + i)` of block `i` of the layer with
/// `m = 2^j` blocks squares to the block's root, and gives the roots of
/// the two halves.
proof fn lemma_ctx_roots(psi: int, l: nat, q: int, j: nat, i: int)
    requires
        q > 1,
        j < l,
        0 <= i < pow2(j),
        pow(psi, pow2(l)) % q == (-1int) % q,
    ensures
        ({
            let m = pow2(j) as int;
            let z = pow(psi, bit_reverse_spec((m + i) as nat, l));
            &&& (z * z) % q == ctx_root(psi, l, m, i) % q
            &&& ctx_root(psi, l, 2 * m, 2 * i) == z
            &&& ctx_root(psi, l, 2 * m, 2 * i + 1) == -z
        }),
{
    let m = pow2(j) as int;
    let k = (m + i) as nat;
    let e = bit_reverse_spec(k, l);
    let z = pow(psi, e);
    lemma_pow2_pos(j);
    lemma_pow2_strictly_increases(j, l);
    lemma_pow2_adds(j, 1);
    assert(pow2(1) == 2) by {
        lemma2_to64();
    }
    assert(2 * m <= pow2(l)) by {
        if j + 1 < l {
            lemma_pow2_strictly_increases(j + 1, l);
        }
    }
    assert((2 * m) / 2 == m);
    assert((2 * i) / 2 == i && (2 * i) % 2 == 0);
    assert((2 * i + 1) / 2 == i && (2 * i + 1) % 2 == 1);
    assert(ctx_root(psi, l, 2 * m, 2 * i) == z);
    assert(ctx_root(psi, l, 2 * m, 2 * i + 1) == -z);
    // the square
    lemma_bit_reverse_twice_l(k, l);
    let e2 = bit_reverse_spec(k / 2, l);
    let pw = pow2(l);
    assert(k % 2 == 0 ==> pw * (k % 2) == 0) by (nonlinear_arith);
    assert(k % 2 == 1 ==> pw * (k % 2) == pw) by (nonlinear_arith);
    lemma_pow_adds(psi, e, e);
    assert(z * z == pow(psi, e + e));
    let p2 = pow(psi, e2);
    let pl = pow(psi, pow2(l));
    if j == 0 {
        lemma_pow2(0);
        assert(pow2(0) == 1) by {
            reveal(pow);
        }
        assert(m == 1 && i == 0 && k == 1);
        assert(k / 2 == 0 && k % 2 == 1);
        crate::util::lemma_bit_reverse_of_zero(l);
        assert(e + e == pow2(l));
        assert(ctx_root(psi, l, m, i) == -1);
    } else {
        lemma_pow2_unfold(j);
        assert(m % 2 == 0);
        lemma_fundamental_div_mod(i, 2);
        assert(k / 2 == m / 2 + i / 2 && k % 2 == i % 2);
        if i % 2 == 0 {
            assert(e + e == e2);
            assert(ctx_root(psi, l, m, i) == p2);
        } else {
            assert(e + e == e2 + pow2(l));
            lemma_pow_adds(psi, e2, pow2(l));
            lemma_mul_mod_noop_right(p2, pl, q);
            lemma_mul_mod_noop_right(p2, -1, q);
            assert(p2 * -1 == -p2);
            assert(ctx_root(psi, l, m, i) == -p2);
        }
    }
}


/// A Montgomery product with the table entry `(z R) mod q` multiplies by `z`.
proof fn lemma_mprod_twiddle(c: Ctx, x: int, z: int, s: int)
    requires
        c.wf(),
        s == (z * mont_r()) % (c.q as int),
    ensures
        c.mprod(x, s) == (x * z) % (c.q as int),
{
    let q = c.q as int;
    let j = r_inverse(c.q, c.q_neg_inv);
    let r = mont_r();
    lemma_r_inverse(c.q, c.q_neg_inv);
    assert(x * s * j == (x * j) * s) by (nonlinear_arith);
    lemma_mul_mod_noop_right(x * j, z * r, q);
    assert((x * j) * (z * r) == (x * z) * (j * r)) by (nonlinear_arith);
    lemma_mul_mod_noop_right(x * z, j * r, q);
}

/// After the forward layers have cut the `d` values into `m` blocks, block
/// `beta` holds the residue of `a` modulo `X^(d/m) - ctx_root(m, beta)`.
pub open spec fn ctx_blocks(c: Ctx, x: Seq<u64>, a: Seq<int>, psi: int, m: int) -> bool {
    let n = (c.d as int) / m;
    forall|beta: int, p: int|
        0 <= beta < m && 0 <= p < n ==> #[trigger] ((x[n * beta + p] as int) % (c.q as int)) == cres(
            a,
            c.d as int,
            n,
            ctx_root(psi, c.log_d as nat, m, beta),
            p,
        ) % (c.q as int)
}

/// A forward layer with `m = 2^j` blocks turns the residues of `m` blocks
/// into those of `2m` blocks.
proof fn lemma_ctx_layer(c: Ctx, x: Seq<u64>, a: Seq<int>, psi: int, j: nat)
    requires
        c.wf(),
        c.tables_from(psi),
        pow(psi, c.d as nat) % (c.q as int) == (-1int) % (c.q as int),
        x.len() == c.d,
        j < c.log_d,
        ctx_blocks(c, x, a, psi, pow2(j) as int),
    ensures
        ctx_blocks(c, c.fwd_layer(x, pow2(j) as int, (c.d as int) / (2 * (pow2(j) as int))), a, psi, 2 * (pow2(j) as int)),
{
    let q = c.q as int;
    let l = c.log_d as nat;
    let d = c.d as int;
    let m = pow2(j) as int;
    let tt = pow2((l - j - 1) as nat) as int;
    lemma_pow2_adds(j, (l - j) as nat);
    assert((j + (l - j) as nat) as nat == l);
    lemma_pow2_unfold((l - j) as nat);
    assert(((l - j) as nat - 1) as nat == (l - j - 1) as nat);
    lemma_pow2_pos(j);
    lemma_pow2_pos((l - j - 1) as nat);
    assert(d == (2 * m) * tt && d == (2 * tt) * m && d == 2 * tt * m) by (nonlinear_arith)
        requires
            d == m * pow2((l - j) as nat),
            pow2((l - j) as nat) == 2 * tt,
    ;
    lemma_fundamental_div_mod_converse(d, 2 * m, tt, 0);
    lemma_fundamental_div_mod_converse(d, m, 2 * tt, 0);
    assert(d / (2 * m) == tt);
    assert(d / m == 2 * tt);
    let y = c.fwd_layer(x, m, tt);
    assert forall|beta: int, p: int| 0 <= beta < 2 * m && 0 <= p < tt implies #[trigger] ((y[tt * beta + p] as int)
        % q) == cres(a, d, tt, ctx_root(psi, l, 2 * m, beta), p) % q by {
        let i = beta / 2;
        let h = beta % 2;
        lemma_fundamental_div_mod(beta, 2);
        let o = h * tt + p;
        let pos = tt * beta + p;
        assert(pos == i * (2 * tt) + o && pos == 2 * tt * i + o) by (nonlinear_arith)
            requires
                beta == 2 * i + h,
                o == h * tt + p,
                pos == tt * beta + p,
        ;
        assert(0 <= o < 2 * tt && (h == 0 ==> o == p) && (h == 1 ==> o == tt + p)) by (nonlinear_arith)
            requires
                0 <= h <= 1,
                o == h * tt + p,
                0 <= p < tt,
        ;
        assert(0 <= i < m);
        lemma_fundamental_div_mod_converse(pos, 2 * tt, i, o);
        assert(2 * tt * i + p + tt < d && 2 * m <= d) by (nonlinear_arith)
            requires
                0 <= p < tt,
                0 <= i < m,
                d == 2 * tt * m,
                tt >= 1,
        ;
        lemma_ctx_roots(psi, l, q, j, i);
        let z = pow(psi, bit_reverse_spec((m + i) as nat, l));
        let s = c.psi_pow_mont@[m + i] as int;
        assert(m + i < d);
        assert(s == (z * mont_r()) % q);
        let w = ctx_root(psi, l, m, i);
        let c0 = 2 * tt * i + p;
        let c1 = c0 + tt;
        assert(c1 == 2 * tt * i + (p + tt));
        assert(((x[(d / m) * i + p] as int) % q) == cres(a, d, d / m, w, p) % q);
        assert(((x[(d / m) * i + (p + tt)] as int) % q) == cres(a, d, d / m, w, p + tt) % q);
        let x0 = x[c0] as int;
        let x1 = x[c1] as int;
        let r0 = cres(a, d, 2 * tt, w, p);
        let r1 = cres(a, d, 2 * tt, w, p + tt);
        assert(x0 % q == r0 % q);
        assert(x1 % q == r1 % q);
        lemma_mprod_twiddle(c, x1, z, s);
        let sz: int = if h == 0 {
            z
        } else {
            -z
        };
        assert(ctx_root(psi, l, 2 * m, beta) == sz);
        let v = y[pos] as int;
        if h == 0 {
            assert(pos == c0);
            assert(y[pos] == ((x[pos] + c.mprod(x[pos + tt] as int, s)) % q) as u64);
            lemma_mod_bound(x0 + c.mprod(x1, s), q);
            lemma_add_mod_noop_right(x0, x1 * z, q);
            assert(v == (x0 + sz * x1) % q) by {
                lemma_mul_is_commutative(x1, z);
            }
        } else {
            assert(pos == c1);
            assert(pos - tt == c0);
            assert(y[pos] == ((x[pos - tt] - c.mprod(x[pos] as int, s)) % q) as u64);
            lemma_mod_bound(x0 - c.mprod(x1, s), q);
            lemma_sub_mod_noop_right(x0, x1 * z, q);
            assert(x0 - x1 * z == x0 + sz * x1) by (nonlinear_arith)
                requires
                    sz == -z,
            ;
        }
        assert(v == (x0 + sz * x1) % q);
        lemma_mod_bound(x0 + sz * x1, q);
        lemma_small_mod(v as nat, q as nat);
        // the coefficients are congruent to the residues
        lemma_mul_congr(sz, sz, x1, r1, q);
        lemma_add_mod_noop(x0, sz * x1, q);
        lemma_add_mod_noop(r0, sz * r1, q);
        // the residues modulo X^(2tt) - w are those modulo X^(2tt) - sz^2
        assert(sz * sz == z * z) by (nonlinear_arith)
            requires
                sz == z || sz == -z,
        ;
        lemma_cres_congr_root(a, d, 2 * tt, w, sz * sz, p, q);
        lemma_cres_congr_root(a, d, 2 * tt, w, sz * sz, p + tt, q);
        let s0 = cres(a, d, 2 * tt, sz * sz, p);
        let s1 = cres(a, d, 2 * tt, sz * sz, p + tt);
        lemma_mul_congr(sz, sz, r1, s1, q);
        lemma_add_mod_noop(r0, sz * r1, q);
        lemma_add_mod_noop(s0, sz * s1, q);
        lemma_cres_split(a, d, tt, m as nat, sz, p);
    }
}


/// The forward layers from `2^j` blocks on turn the residues of `2^j`
/// blocks into those of `d` blocks of one value.
proof fn lemma_ctx_layers(c: Ctx, x: Seq<u64>, a: Seq<int>, psi: int, j: nat)
    requires
        c.wf(),
        c.tables_from(psi),
        pow(psi, c.d as nat) % (c.q as int) == (-1int) % (c.q as int),
        x.len() == c.d,
        j <= c.log_d,
        ctx_blocks(c, x, a, psi, pow2(j) as int),
    ensures
        ctx_blocks(c, c.fwd_layers(x, pow2(j) as int), a, psi, c.d as int),
    decreases c.log_d - j,
{
    let m = pow2(j) as int;
    let d = c.d as int;
    lemma_pow2_pos(j);
    if j == c.log_d {
        assert(m == d);
        assert(c.fwd_layers(x, m) == x);
    } else {
        lemma_pow2_unfold(j + 1);
        assert(((j + 1) as nat - 1) as nat == j);
        assert(2 * m <= d) by {
            if j + 1 < c.log_d {
                lemma_pow2_strictly_increases(j + 1, c.log_d as nat);
            }
        }
        lemma_ctx_layer(c, x, a, psi, j);
        let y = c.fwd_layer(x, m, d / (2 * m));
        assert(c.fwd_layers(x, m) == c.fwd_layers(y, 2 * m));
        assert(pow2(j + 1) as int == 2 * m);
        lemma_ctx_layers(c, y, a, psi, j + 1);
    }
}

/// Before any layer, the single block holds the coefficients themselves:
/// the residue modulo `X^d + 1`.
proof fn lemma_ctx_blocks_init(c: Ctx, x: Seq<u64>, psi: int)
    requires
        c.wf(),
        x.len() == c.d,
    ensures
        ctx_blocks(c, x, ints64(x), psi, 1),
{
    let d = c.d as int;
    let aa = ints64(x);
    lemma_pow2_pos(c.log_d as nat);
    assert(d / 1 == d);
    assert(d / d == 1) by {
        lemma_fundamental_div_mod_converse(d, d, 1, 0);
    }
    assert forall|beta: int, p: int| 0 <= beta < 1 && 0 <= p < d implies #[trigger] ((x[d * beta + p] as int) % (
    c.q as int)) == cres(aa, d, d, ctx_root(psi, c.log_d as nat, 1, beta), p) % (c.q as int) by {
        assert(beta == 0);
        assert(d * beta + p == p);
        let f = |t: int| aa[p + t * d] * pow(-1, t as nat);
        assert(fsum(f, 1) == fsum(f, 0) + f(0));
        lemma_pow0(-1);
        assert(f(0) == aa[p]);
    }
}

/// Once every block holds one value, value `beta` is the evaluation of the
/// polynomial at the block's root.
proof fn lemma_ctx_blocks_final(c: Ctx, x: Seq<u64>, a: Seq<int>, psi: int, beta: int)
    requires
        c.wf(),
        ctx_blocks(c, x, a, psi, c.d as int),
        0 <= beta < c.d,
    ensures
        (x[beta] as int) % (c.q as int) == evalp(a, c.d as int, ctx_root(psi, c.log_d as nat, c.d as int, beta))
            % (c.q as int),
{
    let d = c.d as int;
    let w = ctx_root(psi, c.log_d as nat, d, beta);
    assert(d / d == 1) by {
        lemma_fundamental_div_mod_converse(d, d, 1, 0);
    }
    assert(1 * beta + 0 == beta);
    assert(((x[(d / d) * beta + 0] as int) % (c.q as int)) == cres(a, d, d / d, w, 0) % (c.q as int));
    assert((d / 1) as nat == d as nat);
    lemma_fsum_ext(|t: int| a[0 + t * 1] * pow(w, t as nat), |t: int| a[t] * pow(w, t as nat), d as nat);
}

/// Every final root `w` has `w^d = -1`.
proof fn lemma_ctx_root_pow(psi: int, l: nat, q: int, beta: int)
    requires
        q > 1,
        0 <= beta < pow2(l),
        pow(psi, pow2(l)) % q == (-1int) % q,
    ensures
        pow(ctx_root(psi, l, pow2(l) as int, beta), pow2(l)) % q == (-1int) % q,
{
    let d = pow2(l);
    if l == 0 {
        assert(d == 1) by {
            lemma2_to64();
        }
        lemma_pow1(-1);
    } else {
        lemma_pow2_unfold(l);
        let h = pow2((l - 1) as nat);
        assert((d as int) / 2 == h);
        lemma_fundamental_div_mod(beta, 2);
        let j = (beta / 2) as nat;
        assert(j < h);
        lemma_bit_reverse_top_odd(j, l);
        let e = bit_reverse_spec((h + j) as nat, l);
        assert(((d as int) / 2 + beta / 2) as nat == (h + j) as nat);
        let z = pow(psi, e);
        let u = (e / 2) as nat;
        assert(e == 2 * u + 1);
        // pow(-1, d) = 1
        lemma_pow_adds(-1, 1, 1);
        lemma_pow1(-1);
        lemma_pow_multiplies(-1, 2, h);
        lemma1_pow(h);
        assert(pow(-1, d) == 1);
        // pow(z, d) = pow(psi^d, e)
        lemma_pow_multiplies(psi, e, d);
        lemma_pow_multiplies(psi, d, e);
        assert(e * d == d * e) by (nonlinear_arith);
        let pd = pow(psi, d);
        lemma_pow_mod_noop(pd, e, q);
        lemma_pow_mod_noop(-1, e, q);
        lemma_pow_adds(-1, 2 * u, 1);
        lemma_pow_multiplies(-1, 2, u);
        lemma1_pow(u);
        assert(pow(-1, e) == -1);
        assert(pow(z, d) % q == (-1int) % q);
        if beta % 2 == 1 {
            lemma_pow_distributes(-1, z, d);
            assert(-1 * z == -z);
        }
    }
}


/// The forward layers keep `d` reduced values reduced.
proof fn lemma_fwd_layers_reduced(c: Ctx, x: Seq<u64>, j: nat)
    requires
        c.wf(),
        x.len() == c.d,
        c.reduced(x),
        j <= c.log_d,
    ensures
        c.fwd_layers(x, pow2(j) as int).len() == c.d,
        c.reduced(c.fwd_layers(x, pow2(j) as int)),
    decreases c.log_d - j,
{
    let m = pow2(j) as int;
    let d = c.d as int;
    lemma_pow2_pos(j);
    if j == c.log_d {
        assert(c.fwd_layers(x, m) == x);
    } else {
        lemma_pow2_unfold(j + 1);
        assert(((j + 1) as nat - 1) as nat == j);
        let l = c.log_d as nat;
        let tt = pow2((l - j - 1) as nat) as int;
        lemma_pow2_adds(j, (l - j) as nat);
        assert((j + (l - j) as nat) as nat == l);
        lemma_pow2_unfold((l - j) as nat);
        assert(((l - j) as nat - 1) as nat == (l - j - 1) as nat);
        lemma_pow2_pos((l - j - 1) as nat);
        assert(d == (2 * m) * tt && m * (2 * tt) == d && 2 * m <= d) by (nonlinear_arith)
            requires
                d == m * pow2((l - j) as nat),
                pow2((l - j) as nat) == 2 * tt,
                tt >= 1,
                m >= 1,
        ;
        lemma_fundamental_div_mod_converse(d, 2 * m, tt, 0);
        crate::ntt_laws::lemma_fwd_layer_reduced(c, x, m, tt);
        let y = c.fwd_layer(x, m, d / (2 * m));
        assert(c.fwd_layers(x, m) == c.fwd_layers(y, 2 * m));
        assert(pow2(j + 1) as int == 2 * m);
        lemma_fwd_layers_reduced(c, y, j + 1);
    }
}

/// The forward transform of `d` values: value `beta` is the evaluation of
/// the polynomial at the root `ctx_root(d, beta)`, which has `w^d = -1`.
proof fn lemma_ctx_ntt_evals(c: Ctx, x: Seq<u64>, psi: int, beta: int)
    requires
        c.wf(),
        c.tables_from(psi),
        pow(psi, c.d as nat) % (c.q as int) == (-1int) % (c.q as int),
        x.len() == c.d,
        0 <= beta < c.d,
    ensures
        (c.ntt_spec(x)[beta] as int) % (c.q as int) == evalp(
            ints64(x),
            c.d as int,
            ctx_root(psi, c.log_d as nat, c.d as int, beta),
        ) % (c.q as int),
        pow(ctx_root(psi, c.log_d as nat, c.d as int, beta), c.d as nat) % (c.q as int) == (-1int) % (c.q as int),
{
    lemma_ctx_blocks_init(c, x, psi);
    assert(pow2(0) == 1) by {
        lemma2_to64();
    }
    lemma_ctx_layers(c, x, ints64(x), psi, 0);
    lemma_ctx_blocks_final(c, c.ntt_spec(x), ints64(x), psi, beta);
    lemma_ctx_root_pow(psi, c.log_d as nat, c.q as int, beta);
}

/// The negacyclic product modulo `X^d + 1` and `q` of the values of `a`
/// and `b`, times `R^-1`.
pub open spec fn ctx_nega_mont(c: Ctx, a: Seq<u64>, b: Seq<u64>) -> Seq<u64> {
    Seq::new(
        c.d as nat,
        |k: int|
            ((nconvd(ints64(a), ints64(b), c.d as int, k) * r_inverse(c.q, c.q_neg_inv)) % (c.q as int)) as u64,
    )
}

/// The evaluation of the product, modulo `q`, is the product of the
/// evaluations times `R^-1`.
proof fn lemma_eval_nega_mont(c: Ctx, a: Seq<u64>, b: Seq<u64>, w: int)
    requires
        c.wf(),
        a.len() == c.d,
        b.len() == c.d,
        pow(w, c.d as nat) % (c.q as int) == (-1int) % (c.q as int),
    ensures
        evalp(ints64(ctx_nega_mont(c, a, b)), c.d as int, w) % (c.q as int) == (r_inverse(c.q, c.q_neg_inv) * (
        evalp(ints64(a), c.d as int, w) * evalp(ints64(b), c.d as int, w))) % (c.q as int),
{
    let q = c.q as int;
    let d = c.d as int;
    let jj = r_inverse(c.q, c.q_neg_inv);
    let aa = ints64(a);
    let bb = ints64(b);
    let cc = nprodd(aa, bb, d);
    let t = ints64(ctx_nega_mont(c, a, b));
    lemma_pow2_pos(c.log_d as nat);
    let f = |k: int| t[k] * pow(w, k as nat);
    let g = |k: int| (cc[k] * jj) * pow(w, k as nat);
    let h = |k: int| cc[k] * pow(w, k as nat);
    assert forall|k: int| 0 <= k < d implies #[trigger] f(k) % q == g(k) % q by {
        lemma_mod_bound(cc[k] * jj, q);
        lemma_mod_twice(cc[k] * jj, q);
        lemma_mul_congr(t[k], cc[k] * jj, pow(w, k as nat), pow(w, k as nat), q);
    }
    lemma_fsum_congr(f, g, d as nat, q);
    assert forall|k: int| 0 <= k < d implies #[trigger] g(k) == jj * h(k) by {
        let x = cc[k];
        let pw = pow(w, k as nat);
        assert((x * jj) * pw == jj * (x * pw)) by (nonlinear_arith);
    }
    lemma_fsum_scale(h, g, jj, d as nat);
    lemma_eval_mult(aa, bb, d, w, q);
    lemma_mul_congr(jj, jj, evalp(cc, d, w), evalp(aa, d, w) * evalp(bb, d, w), q);
}

/// `Ctx::poly_mul` multiplies in `Z_q[X]/(X^d + 1)`: for a context whose
/// tables come from a root `psi` with `psi^d = -1` (and are mutually
/// inverse, with `n_inv_mont` inverting `d`, as every built context's
/// are), the product of two reduced polynomials by transform is the
/// negacyclic (schoolbook) product times `R^-1`. So on Montgomery forms
/// `aR`, `bR` it gives the Montgomery form of the product of `a` and `b`.
pub proof fn lemma_poly_mul_is_negacyclic(c: Ctx, psi: int, a: Seq<u64>, b: Seq<u64>)
    requires
        c.wf(),
        c.tables_from(psi),
        pow(psi, c.d as nat) % (c.q as int) == c.q - 1,
        c.twiddles_inverse(),
        c.n_inv_ok(),
        a.len() == c.d,
        b.len() == c.d,
        c.reduced(a),
        c.reduced(b),
    ensures
        c.poly_mul_spec(a, b) == Seq::new(
            c.d as nat,
            |k: int| ((c.schoolbook_spec(a, b)[k] as int * r_inverse(c.q, c.q_neg_inv)) % (c.q as int)) as u64,
        ),
{
    let q = c.q as int;
    let d = c.d as int;
    let jj = r_inverse(c.q, c.q_neg_inv);
    let tq = ctx_nega_mont(c, a, b);
    lemma_pow2_pos(c.log_d as nat);
    lemma_fundamental_div_mod_converse(-1, q, -1, q - 1);
    assert(c.reduced(tq)) by {
        assert forall|k: int| 0 <= k < tq.len() implies #[trigger] tq[k] < c.q by {
            lemma_mod_bound(nconvd(ints64(a), ints64(b), d, k) * jj, q);
        }
    }
    let na = c.ntt_spec(a);
    let nb = c.ntt_spec(b);
    let nt = c.ntt_spec(tq);
    assert(pow2(0) == 1) by {
        lemma2_to64();
    }
    lemma_fwd_layers_reduced(c, a, 0);
    lemma_fwd_layers_reduced(c, b, 0);
    lemma_fwd_layers_reduced(c, tq, 0);
    let pm = Seq::new(c.d as nat, |i: int| c.mprod(na[i] as int, nb[i] as int) as u64);
    assert forall|i: int| 0 <= i < d implies #[trigger] nt[i] == pm[i] by {
        let w = ctx_root(psi, c.log_d as nat, d, i);
        lemma_ctx_ntt_evals(c, a, psi, i);
        lemma_ctx_ntt_evals(c, b, psi, i);
        lemma_ctx_ntt_evals(c, tq, psi, i);
        lemma_eval_nega_mont(c, a, b, w);
        let ea = evalp(ints64(a), d, w);
        let eb = evalp(ints64(b), d, w);
        let x = na[i] as int;
        let y = nb[i] as int;
        lemma_mul_congr(ea, x, eb, y, q);
        lemma_mul_congr(jj, jj, ea * eb, x * y, q);
        assert(x * y * jj == jj * (x * y)) by (nonlinear_arith);
        lemma_mod_bound(x * y * jj, q);
        lemma_small_mod(nt[i] as nat, q as nat);
    }
    assert(nt =~= pm);
    crate::ntt_laws::lemma_intt_ntt_inverse(c, tq);
    assert forall|k: int| 0 <= k < d implies #[trigger] tq[k] == ((c.schoolbook_spec(a, b)[k] as int * jj) % q) as u64 by {
        lemma_schoolbook_nconv(a, b, d, k);
        let n = nconvd(ints64(a), ints64(b), d, k);
        lemma_mod_bound(n, q);
        lemma_mul_mod_noop_left(n, jj, q);
    }
    assert(c.poly_mul_spec(a, b) =~= Seq::new(
        c.d as nat,
        |k: int| ((c.schoolbook_spec(a, b)[k] as int * jj) % q) as u64,
    ));
}

} // verus!
