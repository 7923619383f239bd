//! Multiplication in NTT form is negacyclic multiplication: after the
//! forward layers the coefficients of every block are the residues of the
//! polynomial modulo `X^m - w` for the block's root `w`, so the NTT holds the
//! residues modulo the 128 factors `X^2 - gamma_i` of `X^256 + 1`; residues
//! multiply, and the inverse NTT brings the product back.
use vstd::prelude::*;
use vstd::arithmetic::power::*;
use vstd::arithmetic::power2::*;
use vstd::arithmetic::div_mod::*;
use vstd::arithmetic::mul::*;
use crate::params::{ZETA, field_q};
use crate::util::bit_reverse_spec;
use crate::field_laws::{fsum, lemma_fsum_ext, lemma_fsum_add, lemma_fsum_scale};
use crate::lagrange_laws::{lemma_fsum_congr, lemma_mul_congr};
use crate::ring::{
    ntt_layer,
    ntt_layers,
    ntt_spec,
    is_layer_len,
    zeta_ntt_spec,
    zeta_mult_spec,
    lemma_zeta_128,
    lemma_layer_bounds,
    lemma_block_index,
};
use crate::negacyclic::ints32;
use crate::kpke_laws::{fwd_out, lemma_fwd_out, lemma_fsum_swap};
use crate::arith::{range_sum, lemma_range_sum_split, lemma_range_sum_shift, lemma_range_sum_ext};
use crate::nega_laws::{ext, nconv, nprod, lemma_ext_anti, lemma_ext_base, lemma_ext_below, lemma_range_fsum};
use crate::ring::{ntt_mult_spec, intt_spec, coeffs_below, lemma_ntt_bound, lemma_intt_ntt_inverse};

verus! {

/// Reversing `n + 1` bits of a value below `2^n` doubles its `n`-bit reversal.
pub(crate) proof fn lemma_bit_reverse_double(j: nat, n: nat)
    requires
        j < pow2(n),
    ensures
        bit_reverse_spec(j, n + 1) == 2 * bit_reverse_spec(j, n),
    decreases n,
{
    lemma2_to64();
    let n1 = (n + 1) as nat;
    assert((n1 - 1) as nat == n);
    assert(bit_reverse_spec(j, n1) == (j % 2) * pow2(n) + bit_reverse_spec(j / 2, n));
    if n == 0 {
        assert(j == 0);
        assert(bit_reverse_spec(0, 0) == 0);
        assert(bit_reverse_spec(j / 2, 0) == 0);
        assert(j % 2 == 0);
        assert((j % 2) * pow2(0) == 0) by (nonlinear_arith)
            requires
                j % 2 == 0,
        ;
    } else {
        lemma_pow2_unfold(n);
        lemma_fundamental_div_mod(j as int, 2);
        let h = pow2((n - 1) as nat);
        assert(j / 2 < h);
        lemma_bit_reverse_double(j / 2, (n - 1) as nat);
        assert(((n - 1) as nat + 1) as nat == n);
        assert(bit_reverse_spec(j / 2, n) == 2 * bit_reverse_spec(j / 2, (n - 1) as nat));
        assert(bit_reverse_spec(j, n) == (j % 2) * h + bit_reverse_spec(j / 2, (n - 1) as nat));
        assert((j % 2) * pow2(n) == 2 * ((j % 2) * h)) by (nonlinear_arith)
            requires
                pow2(n) == 2 * h,
        ;
    }
}

/// `2 bitrev7(k) = bitrev7(k / 2) + 128 (k mod 2)` for `k < 128`.
pub proof fn lemma_bit_reverse_twice(k: nat)
    requires
        k < 128,
    ensures
        2 * bit_reverse_spec(k, 7) == bit_reverse_spec(k / 2, 7) + 128 * (k % 2),
{
    lemma2_to64();
    assert(bit_reverse_spec(k, 7) == (k % 2) * pow2(6) + bit_reverse_spec(k / 2, 6));
    lemma_fundamental_div_mod(k as int, 2);
    lemma_bit_reverse_double(k / 2, 6);
}

/// `bitrev7(64 + j) = bitrev7(j) + 1` for `j < 64`.
pub proof fn lemma_bit_reverse_top(j: nat)
    requires
        j < 64,
    ensures
        bit_reverse_spec(64 + j, 7) == bit_reverse_spec(j, 7) + 1,
{
    lemma2_to64();
    crate::util::lemma_bit_reverse_split(1, j, 6, 7);
    assert(pow2(6) * 1 + j == 64 + j);
    assert(bit_reverse_spec(1, 1) == 1) by {
        assert(bit_reverse_spec(1, 1) == (1nat % 2) * pow2(0) + bit_reverse_spec(1nat / 2, 0));
    }
    lemma_bit_reverse_double(j, 6);
    assert(((7 - 6) as nat) == 1);
    assert(pow2(1) == 2);
    assert(bit_reverse_spec(64 + j, 7) == bit_reverse_spec(j, 6) * 2 + 1);
}

/// The residue of `a` modulo `X^m - w` at coefficient `r < m`:
/// `sum_t a[r + t m] w^t` over the `256 / m` terms.
pub open spec fn res(a: Seq<int>, m: int, w: int, r: int) -> int {
    fsum(|t: int| a[r + t * m] * pow(w, t as nat), (256int / m) as nat)
}

/// A sum of `2n` terms is the sum of its even terms plus its odd terms.
pub proof fn lemma_fsum_even_odd(f: spec_fn(int) -> int, n: nat)
    ensures
        fsum(f, 2 * n) == fsum(|s: int| f(2 * s), n) + fsum(|s: int| f(2 * s + 1), n),
    decreases n,
{
    if n > 0 {
        lemma_fsum_even_odd(f, (n - 1) as nat);
        assert(fsum(f, 2 * n) == fsum(f, (2 * n - 1) as nat) + f(2 * n - 1));
        assert(fsum(f, (2 * n - 1) as nat) == fsum(f, (2 * (n - 1)) as nat) + f(2 * n - 2));
    }
}

/// Splitting a residue modulo `X^len - z` into the residues modulo
/// `X^(2 len) - z^2`: `res(len, z)[p] = res(2len, z^2)[p] + z res(2len, z^2)[p + len]`.
pub proof fn lemma_res_split(a: Seq<int>, len: int, z: int, p: int)
    requires
        len == 1 || len == 2 || len == 4 || len == 8 || len == 16 || len == 32 || len == 64 || len == 128,
    ensures
        res(a, len, z, p) == res(a, 2 * len, z * z, p) + z * res(a, 2 * len, z * z, p + len),
{
    let n: nat = if len == 1 {
        128
    } else if len == 2 {
        64
    } else if len == 4 {
        32
    } else if len == 8 {
        16
    } else if len == 16 {
        8
    } else if len == 32 {
        4
    } else if len == 64 {
        2
    } else {
        1
    };
    assert(256 == len * (2 * n) && 256 == (2 * len) * n);
    lemma_fundamental_div_mod_converse(256, len, 2 * n as int, 0);
    lemma_fundamental_div_mod_converse(256, 2 * len, n as int, 0);
    let f = |t: int| a[p + t * len] * pow(z, t as nat);
    lemma_fsum_even_odd(f, n);
    let ev = |s: int| a[p + s * (2 * len)] * pow(z * z, s as nat);
    let od = |s: int| a[p + len + s * (2 * len)] * pow(z * z, s as nat);
    assert forall|s: int| 0 <= s < n implies #[trigger] f(2 * s) == ev(s) by {
        assert(p + (2 * s) * len == p + s * (2 * len)) by (nonlinear_arith);
        lemma_pow_multiplies(z, 2, s as nat);
        lemma_pow_distributes(z, z, s as nat);
        lemma_pow_adds(z, 1, 1);
        lemma_pow1(z);
        assert(pow(z, (2 * s) as nat) == pow(z * z, s as nat)) by {
            assert((2 * s) as nat == 2 * (s as nat));
            lemma_pow_multiplies(z, 2, s as nat);
            assert(pow(z, 2) == z * z);
            lemma_pow_multiplies(z, 2, s as nat);
        }
    }
    assert forall|s: int| 0 <= s < n implies #[trigger] f(2 * s + 1) == z * od(s) by {
        assert(p + (2 * s + 1) * len == p + len + s * (2 * len)) by (nonlinear_arith);
        lemma_pow_adds(z, (2 * s) as nat, 1);
        lemma_pow1(z);
        assert(pow(z, 2) == z * z) by {
            lemma_pow_adds(z, 1, 1);
        }
        lemma_pow_multiplies(z, 2, s as nat);
        assert(((2 * s) as nat) == 2 * (s as nat));
        assert(pow(z, (2 * s) as nat) == pow(z * z, s as nat));
        let x = a[p + len + s * (2 * len)];
        let w = pow(z * z, s as nat);
        assert(x * (w * z) == z * (x * w)) by (nonlinear_arith);
    }
    lemma_fsum_ext(|s: int| f(2 * s), ev, n);
    lemma_fsum_scale(od, |s: int| f(2 * s + 1), z, n);
}

/// The root `w` of block `beta` once the forward layers have split the
/// coefficients into blocks of `m`: the block holds the residue modulo
/// `X^m - w`. The single block of 256 has `w = -1` (`X^256 + 1`); below,
/// blocks `2b` and `2b + 1` have `w = +z` and `-z` with
/// `z = ZETA^bitrev7(128 / m + b)`.
pub open spec fn block_root(m: int, beta: int) -> int {
    if m >= 256 {
        -1
    } else {
        let z = pow(ZETA as int, bit_reverse_spec((128int / m + beta / 2) as nat, 7));
        if beta % 2 == 0 {
            z
        } else {
            -z
        }
    }
}

/// The twiddle factor of block `b` of the layer of length `len` squares to
/// the root of the block it splits, and gives the roots of the two halves.
proof fn lemma_layer_roots(len: int, b: int)
    requires
        is_layer_len(len),
        len >= 2,
        0 <= b < 128int / len,
    ensures
        (zeta_ntt_spec(128int / len + b) * zeta_ntt_spec(128int / len + b)) % field_q() == block_root(2 * len, b)
            % field_q(),
        block_root(len, 2 * b) % field_q() == zeta_ntt_spec(128int / len + b) % field_q(),
        block_root(len, 2 * b + 1) % field_q() == (-zeta_ntt_spec(128int / len + b)) % field_q(),
{
    let q = field_q();
    let k = 128int / len + b;
    lemma_layer_bounds(len, 0);
    assert(0 <= k < 128) by {
        if len == 2 {} else if len == 4 {} else if len == 8 {} else if len == 16 {}
        else if len == 32 {} else if len == 64 {} else {}
    }
    let e = bit_reverse_spec(k as nat, 7);
    let zf = pow(ZETA as int, e);
    let z = zf % q;
    assert(zeta_ntt_spec(k) == z);
    lemma_mod_twice(zf, q);
    assert((2 * b) / 2 == b);
    assert((2 * b + 1) / 2 == b);
    assert((2 * b) % 2 == 0);
    assert((2 * b + 1) % 2 == 1);
    assert(block_root(len, 2 * b) == zf);
    assert(block_root(len, 2 * b + 1) == -zf);
    lemma_mul_mod_noop_general(-1, zf, q);
    assert(-1 * zf == -zf);
    assert(-1 * z == -z);
    // the square
    lemma_bit_reverse_twice(k as nat);
    let e2 = bit_reverse_spec((k / 2) as nat, 7);
    lemma_mul_mod_noop_general(zf, zf, q);
    lemma_pow_adds(ZETA as int, e, e);
    assert(e + e == e2 + 128 * (k % 2));
    lemma_pow_adds(ZETA as int, e2, (128 * (k % 2)) as nat);
    lemma_zeta_128();
    let p2 = pow(ZETA as int, e2);
    if k % 2 == 0 {
        lemma_pow0(ZETA as int);
        assert(pow(ZETA as int, e + e) == p2);
    } else {
        assert(pow(ZETA as int, e + e) == p2 * pow(ZETA as int, 128));
        lemma_mul_mod_noop_right(p2, pow(ZETA as int, 128), q);
        lemma_mul_mod_noop_right(p2, -1, q);
        assert((q - 1) % q == (-1int) % q) by {
            lemma_mod_add_multiples_vanish(-1, q);
        }
    }
    if len == 128 {
        assert(k == 1);
        lemma_pow0(ZETA as int);
        assert(block_root(2 * len, b) == -1);
        crate::util::lemma_bit_reverse_of_zero(7);
    } else {
        assert(128int / len == 2 * (128int / (2 * len)) && k / 2 == 128int / (2 * len) + b / 2 && k % 2 == b % 2) by {
            lemma_fundamental_div_mod(b, 2);
            if len == 2 {} else if len == 4 {} else if len == 8 {} else if len == 16 {}
            else if len == 32 {} else {}
        }
        if b % 2 == 0 {
            assert(block_root(2 * len, b) == p2);
        } else {
            assert(block_root(2 * len, b) == -p2);
            lemma_mul_mod_noop_general(-1, p2, q);
        }
    }
    lemma_mul_is_commutative(-1, p2);
}

/// Congruent roots give congruent residues.
proof fn lemma_res_congr_root(a: Seq<int>, m: int, w: int, w2: int, r: int)
    requires
        w % field_q() == w2 % field_q(),
    ensures
        res(a, m, w, r) % field_q() == res(a, m, w2, r) % field_q(),
{
    let q = field_q();
    let f = |t: int| a[r + t * m] * pow(w, t as nat);
    let g = |t: int| a[r + t * m] * pow(w2, t as nat);
    assert forall|t: int| 0 <= t < (256int / m) as nat implies #[trigger] f(t) % q == g(t) % q by {
        lemma_pow_mod_noop(w, t as nat, q);
        lemma_pow_mod_noop(w2, t as nat, q);
        lemma_mul_congr(a[r + t * m], a[r + t * m], pow(w, t as nat), pow(w2, t as nat), q);
    }
    lemma_fsum_congr(f, g, (256int / m) as nat, q);
}

/// Congruent coefficients give congruent residues.
proof fn lemma_res_congr_coeffs(a: Seq<int>, a2: Seq<int>, m: int, w: int, r: int)
    requires
        forall|i: int| 0 <= i < 256 ==> #[trigger] a[i] % field_q() == a2[i] % field_q(),
        1 <= m <= 256,
        0 <= r < m,
    ensures
        res(a, m, w, r) % field_q() == res(a2, m, w, r) % field_q(),
{
    let q = field_q();
    let n = (256int / m) as nat;
    let f = |t: int| a[r + t * m] * pow(w, t as nat);
    let g = |t: int| a2[r + t * m] * pow(w, t as nat);
    assert forall|t: int| 0 <= t < n implies #[trigger] f(t) % q == g(t) % q by {
        lemma_fundamental_div_mod(256, m);
        lemma_mod_bound(256, m);
        assert(r + t * m < 256) by (nonlinear_arith)
            requires
                0 <= t < n,
                n == 256int / m,
                256 == m * (256int / m) + 256int % m,
                0 <= 256int % m,
                r < m,
                m >= 1,
        ;
        assert(0 <= r + t * m) by (nonlinear_arith)
            requires
                0 <= t,
                m >= 1,
                0 <= r,
        ;
        lemma_mul_congr(a[r + t * m], a2[r + t * m], pow(w, t as nat), pow(w, t as nat), q);
    }
    lemma_fsum_congr(f, g, n, q);
}

/// After the forward layers down to blocks of `m`, block `beta` holds the
/// residue of `a` modulo `X^m - block_root(m, beta)`.
pub open spec fn blocks_are_residues(d: Seq<u32>, a: Seq<int>, m: int) -> bool {
    forall|beta: int, p: int|
        0 <= beta < 256int / m && 0 <= p < m ==> #[trigger] (d[m * beta + p] as int % field_q()) == res(
            a,
            m,
            block_root(m, beta),
            p,
        ) % field_q()
}

/// The block counts of a layer length.
proof fn lemma_layer_quotients(len: int)
    requires
        is_layer_len(len),
    ensures
        256int / (2 * len) == 128int / len,
        256int / len == 2 * (128int / len),
        128int / len >= 1,
{
    let m: int = if len == 1 {
        128
    } else if len == 2 {
        64
    } else if len == 4 {
        32
    } else if len == 8 {
        16
    } else if len == 16 {
        8
    } else if len == 32 {
        4
    } else if len == 64 {
        2
    } else {
        1
    };
    assert(128 == len * m && 256 == (2 * len) * m && 256 == len * (2 * m));
    lemma_fundamental_div_mod_converse(128, len, m, 0);
    lemma_fundamental_div_mod_converse(256, 2 * len, m, 0);
    lemma_fundamental_div_mod_converse(256, len, 2 * m, 0);
}

/// A forward layer turns the residues of blocks of `2 len` into those of
/// blocks of `len`.
proof fn lemma_layer_residues(d: Seq<u32>, a: Seq<int>, len: int)
    requires
        is_layer_len(len),
        len >= 2,
        blocks_are_residues(d, a, 2 * len),
    ensures
        blocks_are_residues(ntt_layer(d, len), a, len),
{
    let q = field_q();
    let out = ntt_layer(d, len);
    assert forall|beta: int, p: int| 0 <= beta < 256int / len && 0 <= p < len implies #[trigger] (out[len * beta + p]
        as int % q) == res(a, len, block_root(len, beta), p) % q by {
        let b = beta / 2;
        let h = beta % 2;
        lemma_fundamental_div_mod(beta, 2);
        let o = h * len + p;
        let i = len * beta + p;
        assert(i == 2 * len * b + o) by (nonlinear_arith)
            requires
                beta == 2 * b + h,
                o == h * len + p,
                i == len * beta + p,
        ;
        assert(0 <= o < 2 * len) by (nonlinear_arith)
            requires
                0 <= h <= 1,
                o == h * len + p,
                0 <= p < len,
        ;
        lemma_block_index(b, len, o);
        assert(0 <= b < 128int / len) by {
            if len == 2 {} else if len == 4 {} else if len == 8 {} else if len == 16 {}
            else if len == 32 {} else if len == 64 {} else {}
        }
        lemma_layer_roots(len, b);
        let z = zeta_ntt_spec(128int / len + b);
        let w = block_root(2 * len, b);
        let top = h == 0;
        let sg: int = if top { 1 } else { -1 };
        let c0 = 2 * len * b + p;
        let c1 = 2 * len * b + p + len;
        assert(c0 == (2 * len) * b + p);
        assert(c1 == (2 * len) * b + (p + len));
        lemma_layer_quotients(len);
        let r0 = res(a, 2 * len, w, p);
        let r1 = res(a, 2 * len, w, p + len);
        assert(d[c0] as int % q == r0 % q);
        assert(d[c1] as int % q == r1 % q);
        if top {
            assert(i == c0);
        } else {
            assert(i == c1);
            assert(i - len == c0);
        }
        assert(out[i] as int == fwd_out(d[c0] as int, d[c1] as int, z, top));
        lemma_fwd_out(d[c0] as int, d[c1] as int, z, top);
        lemma_mul_congr(1, 1, d[c0] as int, r0, q);
        lemma_mul_congr(sg * z, sg * z, d[c1] as int, r1, q);
        lemma_add_mod_noop(1 * (d[c0] as int), (sg * z) * (d[c1] as int), q);
        lemma_add_mod_noop(1 * r0, (sg * z) * r1, q);
        // the residues modulo X^(2len) - w are those modulo X^(2len) - (sg z)^2
        let sz = sg * z;
        assert(sz * sz == z * z) by (nonlinear_arith)
            requires
                sg == 1 || sg == -1,
                sz == sg * z,
        ;
        lemma_res_congr_root(a, 2 * len, w, sz * sz, p);
        lemma_res_congr_root(a, 2 * len, w, sz * sz, p + len);
        lemma_res_split(a, len, sz, p);
        let s0 = res(a, 2 * len, sz * sz, p);
        let s1 = res(a, 2 * len, sz * sz, p + len);
        lemma_mul_congr(sz, sz, r1, s1, q);
        lemma_add_mod_noop(r0, sz * r1, q);
        lemma_add_mod_noop(s0, sz * s1, q);
        assert(1 * r0 + sz * r1 == r0 + sz * r1);
        // and the root of the new block is sg z
        if top {
            assert(block_root(len, beta) % q == z % q);
        } else {
            assert(beta == 2 * b + 1);
            assert(block_root(len, beta) % q == (-z) % q);
            assert(-z == sz);
        }
        lemma_res_congr_root(a, len, block_root(len, beta), sz, p);
    }
}

/// The forward layers from `len` down turn the residues of blocks of
/// `2 len` into those of blocks of two.
proof fn lemma_layers_residues(d: Seq<u32>, a: Seq<int>, len: int)
    requires
        is_layer_len(len),
        len >= 2,
        blocks_are_residues(d, a, 2 * len),
    ensures
        blocks_are_residues(ntt_layers(d, len), a, 2),
    decreases len,
{
    lemma_layer_residues(d, a, len);
    let e = ntt_layer(d, len);
    if len == 2 {
        assert(ntt_layers(d, 2) == ntt_layers(e, 1));
    } else {
        assert(2 * (len / 2) == len);
        lemma_layers_residues(e, a, len / 2);
    }
}

/// The NTT holds, at `2 beta + r`, the residues of the coefficients modulo
/// `X^2 - block_root(2, beta)`.
pub proof fn lemma_ntt_residues(x: Seq<u32>)
    requires
        x.len() == 256,
    ensures
        blocks_are_residues(ntt_spec(x), ints32(x), 2),
{
    let a = ints32(x);
    assert forall|beta: int, p: int| 0 <= beta < 256int / 256 && 0 <= p < 256 implies #[trigger] (x[256 * beta + p]
        as int % field_q()) == res(a, 256, block_root(256, beta), p) % field_q() by {
        assert(beta == 0);
        let f = |t: int| a[p + t * 256] * pow(-1, t as nat);
        assert(fsum(f, 0) == 0);
        assert(fsum(f, 1) == fsum(f, 0) + f(0));
        lemma_pow0(-1);
        assert(f(0) == a[p]);
    }
    assert(2 * 128 == 256);
    lemma_layers_residues(x, a, 128);
}

/// Termwise congruent range sums are congruent.
proof fn lemma_range_congr(f: spec_fn(int) -> int, g: spec_fn(int) -> int, lo: int, hi: int)
    requires
        forall|i: int| lo <= i < hi ==> #[trigger] f(i) % field_q() == g(i) % field_q(),
    ensures
        range_sum(f, lo, hi) % field_q() == range_sum(g, lo, hi) % field_q(),
    decreases hi - lo,
{
    if hi > lo {
        lemma_range_congr(f, g, lo, hi - 1);
        lemma_add_mod_noop(range_sum(f, lo, hi - 1), f(hi - 1), field_q());
        lemma_add_mod_noop(range_sum(g, lo, hi - 1), g(hi - 1), field_q());
    }
}

/// A constant factor comes out of a range sum.
proof fn lemma_range_scale(f: spec_fn(int) -> int, c: int, lo: int, hi: int)
    ensures
        range_sum(|i: int| c * f(i), lo, hi) == c * range_sum(f, lo, hi),
    decreases hi - lo,
{
    if hi > lo {
        lemma_range_scale(f, c, lo, hi - 1);
        lemma_mul_is_distributive_add(c, range_sum(f, lo, hi - 1), f(hi - 1));
    }
}

/// `sum_t ext(b, 2t + d) g^t` over one period of 128 terms.
pub open spec fn hsum(b: Seq<int>, g: int, d: int) -> int {
    fsum(|t: int| ext(b, 2 * t + d) * pow(g, t as nat), 128)
}

/// Rotating the index of the period sum by `u` multiplies it by `g^u`
/// when `g^128 = -1`.
proof fn lemma_rotate(b: Seq<int>, g: int, d: int, u: int)
    requires
        0 <= u < 128,
        pow(g, 128) % field_q() == field_q() - 1,
    ensures
        fsum(|t: int| ext(b, 2 * (t - u) + d) * pow(g, t as nat), 128) % field_q() == (pow(g, u as nat) * hsum(
            b,
            g,
            d,
        )) % field_q(),
{
    let q = field_q();
    let tt = |t: int| ext(b, 2 * (t - u) + d) * pow(g, t as nat);
    let h = |s: int| ext(b, 2 * s + d) * pow(g, s as nat);
    let gu = pow(g, u as nat);
    lemma_range_fsum(tt, 128);
    lemma_range_fsum(h, 128);
    lemma_range_sum_split(tt, 0, u, 128);
    lemma_range_sum_split(h, 0, 128 - u, 128);
    // t >= u: exact
    lemma_range_sum_shift(tt, 0, 128 - u, u);
    assert forall|s: int| 0 <= s < 128 - u implies #[trigger] tt(s + u) == gu * h(s) by {
        lemma_pow_adds(g, s as nat, u as nat);
        assert((s + u) as nat == s as nat + u as nat);
        let e = ext(b, 2 * s + d);
        assert(2 * (s + u - u) + d == 2 * s + d);
        assert(e * (pow(g, s as nat) * gu) == gu * (e * pow(g, s as nat))) by (nonlinear_arith);
    }
    lemma_range_sum_ext(|s: int| tt(s + u), |s: int| gu * h(s), 0, 128 - u);
    lemma_range_scale(h, gu, 0, 128 - u);
    // t < u: congruent through g^128 = -1
    lemma_range_sum_shift(tt, 128 - u, 128, u - 128);
    assert((128 - u) + (u - 128) == 0 && 128 + (u - 128) == u);
    assert forall|s: int| 128 - u <= s < 128 implies #[trigger] tt(s + (u - 128)) % q == (gu * h(s)) % q by {
        let t = s + (u - 128);
        let e = ext(b, 2 * s + d);
        lemma_ext_anti(b, 2 * (s - 128) + d);
        assert(2 * (s - 128) + d + 256 == 2 * s + d);
        assert(2 * (t - u) + d == 2 * (s - 128) + d);
        let ep = ext(b, 2 * (s - 128) + d);
        assert(e == -ep);
        lemma_pow_adds(g, s as nat, u as nat);
        lemma_pow_adds(g, t as nat, 128);
        assert((t as nat + 128) as nat == s as nat + u as nat);
        let pt = pow(g, t as nat);
        let p128 = pow(g, 128);
        // gu * h(s) = e * g^(s+u) = -ep * g^t * g^128
        assert(gu * h(s) == (-ep) * (pt * p128)) by (nonlinear_arith)
            requires
                h(s) == e * pow(g, s as nat),
                pow(g, (s + u) as nat) == pow(g, s as nat) * gu,
                pow(g, (s + u) as nat) == pt * p128,
                (s + u) as nat == s as nat + u as nat,
                e == -ep,
        ;
        assert((-ep) * (pt * p128) == (-(ep * pt)) * p128) by (nonlinear_arith);
        lemma_mul_congr(-(ep * pt), -(ep * pt), p128, -1, q);
        assert((-(ep * pt)) * -1 == ep * pt) by (nonlinear_arith);
        lemma_mod_add_multiples_vanish(-1, q);
    }
    lemma_range_congr(|s: int| tt(s + (u - 128)), |s: int| gu * h(s), 128 - u, 128);
    lemma_range_scale(h, gu, 128 - u, 128);
    let lo_part = range_sum(tt, 0, u);
    let hi_part = range_sum(tt, u, 128);
    let h1 = range_sum(h, 0, 128 - u);
    let h2 = range_sum(h, 128 - u, 128);
    assert(hi_part == gu * h1);
    assert(lo_part % q == (gu * h2) % q);
    lemma_add_mod_noop(lo_part, hi_part, q);
    lemma_add_mod_noop(gu * h2, gu * h1, q);
    lemma_mod_twice(gu * h1, q);
    lemma_mul_is_distributive_add(gu, h2, h1);
    assert(gu * (h2 + h1) == gu * (h1 + h2));
}

/// The even and odd period sums are the residues modulo `X^2 - g`, and the
/// sum shifted by one is `g` times the odd residue.
proof fn lemma_hsums(b: Seq<int>, g: int)
    requires
        pow(g, 128) % field_q() == field_q() - 1,
    ensures
        hsum(b, g, 0) == res(b, 2, g, 0),
        hsum(b, g, 1) == res(b, 2, g, 1),
        hsum(b, g, -1) % field_q() == (g * res(b, 2, g, 1)) % field_q(),
{
    let q = field_q();
    assert(256int / 2 == 128);
    assert forall|t: int| 0 <= t < 128 implies #[trigger] (ext(b, 2 * t + 0) * pow(g, t as nat)) == b[0 + t * 2] * pow(
        g,
        t as nat,
    ) by {
        lemma_ext_base(b, 2 * t);
    }
    lemma_fsum_ext(
        |t: int| ext(b, 2 * t + 0) * pow(g, t as nat),
        |t: int| b[0 + t * 2] * pow(g, t as nat),
        128,
    );
    assert forall|t: int| 0 <= t < 128 implies #[trigger] (ext(b, 2 * t + 1) * pow(g, t as nat)) == b[1 + t * 2] * pow(
        g,
        t as nat,
    ) by {
        lemma_ext_base(b, 2 * t + 1);
    }
    lemma_fsum_ext(
        |t: int| ext(b, 2 * t + 1) * pow(g, t as nat),
        |t: int| b[1 + t * 2] * pow(g, t as nat),
        128,
    );
    // the shifted sum
    let hm = |t: int| ext(b, 2 * t + -1) * pow(g, t as nat);
    let od = |s: int| b[1 + s * 2] * pow(g, s as nat);
    lemma_range_fsum(hm, 128);
    lemma_range_fsum(od, 128);
    lemma_range_sum_split(hm, 0, 1, 128);
    assert(range_sum(hm, 0, 1) == hm(0)) by {
        assert(range_sum(hm, 0, 0) == 0);
    }
    lemma_ext_below(b, -1);
    lemma_pow0(g);
    assert(hm(0) == -b[255]);
    lemma_range_sum_shift(hm, 0, 127, 1);
    assert forall|s: int| 0 <= s < 127 implies #[trigger] hm(s + 1) == g * od(s) by {
        lemma_ext_base(b, 2 * s + 1);
        assert(2 * (s + 1) + -1 == 2 * s + 1);
        lemma_pow_adds(g, s as nat, 1);
        lemma_pow1(g);
        assert((s + 1) as nat == s as nat + 1);
        let x = b[2 * s + 1];
        assert(x * (pow(g, s as nat) * g) == g * (x * pow(g, s as nat))) by (nonlinear_arith);
    }
    lemma_range_sum_ext(|s: int| hm(s + 1), |s: int| g * od(s), 0, 127);
    lemma_range_scale(od, g, 0, 127);
    lemma_range_sum_split(od, 0, 127, 128);
    assert(range_sum(od, 127, 128) == od(127)) by {
        assert(range_sum(od, 127, 127) == 0);
    }
    // g od(127) = b[255] g^128 = -b[255]
    lemma_pow_adds(g, 127, 1);
    lemma_pow1(g);
    let p127 = pow(g, 127);
    assert(g * od(127) == b[255] * (p127 * g)) by (nonlinear_arith)
        requires
            od(127) == b[255] * p127,
    ;
    assert(p127 * g == pow(g, 128));
    lemma_mul_congr(b[255], b[255], pow(g, 128), -1, q);
    lemma_mod_add_multiples_vanish(-1, q);
    let rest = range_sum(od, 0, 127);
    lemma_mul_is_distributive_add(g, rest, od(127));
    lemma_add_mod_noop(g * rest, g * od(127), q);
    lemma_add_mod_noop(g * rest, -b[255], q);
    assert(b[255] * -1 == -b[255]);
    assert(range_sum(hm, 0, 128) == -b[255] + g * rest);
}

/// The product of two residues modulo `X^2 - g`, coefficient `r`.
pub open spec fn pair_res_prod(a0: int, a1: int, b0: int, b1: int, g: int, r: int) -> int {
    if r == 0 {
        a0 * b0 + g * (a1 * b1)
    } else {
        a0 * b1 + a1 * b0
    }
}

/// The residue modulo `X^2 - g` of a negacyclic product is the product of the
/// residues, when `g^128 = -1` (so that `X^256 + 1` vanishes modulo
/// `X^2 - g`).
pub proof fn lemma_res_mult(aa: Seq<int>, bb: Seq<int>, g: int, r: int)
    requires
        pow(g, 128) % field_q() == field_q() - 1,
        r == 0 || r == 1,
    ensures
        res(nprod(aa, bb), 2, g, r) % field_q() == pair_res_prod(
            res(aa, 2, g, 0),
            res(aa, 2, g, 1),
            res(bb, 2, g, 0),
            res(bb, 2, g, 1),
            g,
            r,
        ) % field_q(),
{
    let q = field_q();
    let c = nprod(aa, bb);
    assert(256int / 2 == 128);
    let f = |t: int, i: int| aa[i] * (ext(bb, r + t * 2 - i) * pow(g, t as nat));
    let outer = |t: int| c[r + t * 2] * pow(g, t as nat);
    assert forall|t: int| 0 <= t < 128 implies #[trigger] outer(t) == fsum(|i: int| f(t, i), 256) by {
        let inner = |i: int| aa[i] * ext(bb, r + t * 2 - i);
        lemma_range_fsum(inner, 256);
        assert(c[r + t * 2] == fsum(inner, 256));
        let pg = pow(g, t as nat);
        lemma_fsum_scale(inner, |i: int| pg * inner(i), pg, 256);
        assert forall|i: int| 0 <= i < 256 implies #[trigger] (pg * inner(i)) == f(t, i) by {
            let x = aa[i];
            let e = ext(bb, r + t * 2 - i);
            assert(pg * (x * e) == x * (e * pg)) by (nonlinear_arith);
        }
        lemma_fsum_ext(|i: int| pg * inner(i), |i: int| f(t, i), 256);
        lemma_mul_is_commutative(c[r + t * 2], pg);
    }
    lemma_fsum_ext(outer, |t: int| fsum(|i: int| f(t, i), 256), 128);
    lemma_fsum_swap(f, 128, 256);
    let jj = |i: int| fsum(|t: int| ext(bb, r + t * 2 - i) * pow(g, t as nat), 128);
    let gg = |i: int| aa[i] * jj(i);
    assert forall|i: int| 0 <= i < 256 implies fsum(|t: int| f(t, i), 128) == #[trigger] gg(i) by {
        lemma_fsum_scale(|t: int| ext(bb, r + t * 2 - i) * pow(g, t as nat), |t: int| f(t, i), aa[i], 128);
    }
    lemma_fsum_ext(|i: int| fsum(|t: int| f(t, i), 128), gg, 256);
    lemma_fsum_even_odd(gg, 128);
    assert(2 * 128 == 256);
    // the even and odd halves
    let hr = hsum(bb, g, r);
    let hr1 = hsum(bb, g, r - 1);
    let ev = |u: int| hr * (aa[0 + u * 2] * pow(g, u as nat));
    let od = |u: int| hr1 * (aa[1 + u * 2] * pow(g, u as nat));
    assert forall|u: int| 0 <= u < 128 implies #[trigger] gg(2 * u) % q == ev(u) % q by {
        lemma_fsum_ext(
            |t: int| ext(bb, r + t * 2 - 2 * u) * pow(g, t as nat),
            |t: int| ext(bb, 2 * (t - u) + r) * pow(g, t as nat),
            128,
        );
        lemma_rotate(bb, g, r, u);
        let pu = pow(g, u as nat);
        lemma_mul_congr(aa[2 * u], aa[2 * u], jj(2 * u), pu * hr, q);
        assert(aa[2 * u] * (pu * hr) == hr * (aa[0 + u * 2] * pu)) by (nonlinear_arith);
    }
    assert forall|u: int| 0 <= u < 128 implies #[trigger] gg(2 * u + 1) % q == od(u) % q by {
        lemma_fsum_ext(
            |t: int| ext(bb, r + t * 2 - (2 * u + 1)) * pow(g, t as nat),
            |t: int| ext(bb, 2 * (t - u) + (r - 1)) * pow(g, t as nat),
            128,
        );
        lemma_rotate(bb, g, r - 1, u);
        let pu = pow(g, u as nat);
        lemma_mul_congr(aa[2 * u + 1], aa[2 * u + 1], jj(2 * u + 1), pu * hr1, q);
        assert(aa[2 * u + 1] * (pu * hr1) == hr1 * (aa[1 + u * 2] * pu)) by (nonlinear_arith);
    }
    lemma_fsum_congr(|u: int| gg(2 * u), ev, 128, q);
    lemma_fsum_congr(|u: int| gg(2 * u + 1), od, 128, q);
    lemma_fsum_scale(|u: int| aa[0 + u * 2] * pow(g, u as nat), ev, hr, 128);
    lemma_fsum_scale(|u: int| aa[1 + u * 2] * pow(g, u as nat), od, hr1, 128);
    let a0 = res(aa, 2, g, 0);
    let a1 = res(aa, 2, g, 1);
    let b0 = res(bb, 2, g, 0);
    let b1 = res(bb, 2, g, 1);
    let se = fsum(|u: int| gg(2 * u), 128);
    let so = fsum(|u: int| gg(2 * u + 1), 128);
    assert(res(c, 2, g, r) == se + so);
    assert(se % q == (hr * a0) % q);
    assert(so % q == (hr1 * a1) % q);
    lemma_add_mod_noop(se, so, q);
    lemma_add_mod_noop(hr * a0, hr1 * a1, q);
    lemma_hsums(bb, g);
    if r == 0 {
        assert(hr == b0);
        lemma_mul_congr(hr1, g * b1, a1, a1, q);
        lemma_add_mod_noop(hr * a0, hr1 * a1, q);
        lemma_add_mod_noop(hr * a0, (g * b1) * a1, q);
        assert(hr * a0 + (g * b1) * a1 == a0 * b0 + g * (a1 * b1)) by (nonlinear_arith)
            requires
                hr == b0,
        ;
    } else {
        assert(hr == b1);
        assert(r - 1 == 0);
        assert(hr1 == b0);
        assert(hr * a0 + hr1 * a1 == a0 * b1 + a1 * b0) by (nonlinear_arith)
            requires
                hr == b1,
                hr1 == b0,
        ;
    }
}

/// The roots of the blocks of two are the moduli `gamma_beta` of the
/// NTT-form product.
proof fn lemma_last_roots(beta: int)
    requires
        0 <= beta < 128,
    ensures
        block_root(2, beta) % field_q() == zeta_mult_spec(beta) % field_q(),
{
    let q = field_q();
    let j = beta / 2;
    lemma_fundamental_div_mod(beta, 2);
    lemma_bit_reverse_twice(beta as nat);
    lemma_bit_reverse_top(j as nat);
    assert(128int / 2 == 64);
    let et = bit_reverse_spec((64 + j) as nat, 7);
    let e = 2 * bit_reverse_spec(beta as nat, 7) + 1;
    assert(e == et + 128 * (beta % 2));
    let z = pow(ZETA as int, et);
    lemma_pow_adds(ZETA as int, et, (128 * (beta % 2)) as nat);
    lemma_mod_twice(pow(ZETA as int, e as nat), q);
    if beta % 2 == 0 {
        lemma_pow0(ZETA as int);
        assert(block_root(2, beta) == z);
    } else {
        assert(block_root(2, beta) == -z);
        lemma_zeta_128();
        lemma_mul_mod_noop_right(z, pow(ZETA as int, 128), q);
        lemma_mul_mod_noop_right(z, -1, q);
        lemma_mod_add_multiples_vanish(-1, q);
        assert(z * -1 == -z);
    }
}

/// Every modulus `gamma_beta` has `gamma^128 = -1`.
proof fn lemma_gamma_128(beta: int)
    requires
        0 <= beta < 128,
    ensures
        pow(zeta_mult_spec(beta), 128) % field_q() == field_q() - 1,
{
    let q = field_q();
    let br = bit_reverse_spec(beta as nat, 7);
    let e = (2 * br + 1) as nat;
    let zf = pow(ZETA as int, e);
    lemma_pow_mod_noop(zf, 128, q);
    lemma_pow_multiplies(ZETA as int, e, 128);
    assert(e * 128 == 256 * br + 128) by (nonlinear_arith)
        requires
            e == 2 * br + 1,
    ;
    lemma_pow_adds(ZETA as int, (256 * br) as nat, 128);
    lemma_pow_multiplies(ZETA as int, 256, br);
    assert(256 * br == br * 256) by (nonlinear_arith);
    lemma_pow_multiplies(ZETA as int, br, 256);
    let p256 = pow(ZETA as int, 256);
    lemma_zeta_128();
    lemma_pow_adds(ZETA as int, 128, 128);
    lemma_mul_mod_noop_general(pow(ZETA as int, 128), pow(ZETA as int, 128), q);
    assert((687659008int * 687659008int) % 687659009 == 1);
    assert(p256 % q == 1);
    lemma_pow_mod_noop(p256, br, q);
    lemma1_pow(br);
    lemma_small_mod(1, q as nat);
    assert(pow(p256, br) % q == 1);
    let pb = pow(p256, br);
    let p128 = pow(ZETA as int, 128);
    assert(pow(ZETA as int, (256 * br) as nat) == pb);
    lemma_mul_mod_noop_general(pb, p128, q);
    lemma_mul_mod_noop_left(pb, p128, q);
    assert((1 * (p128 % q)) % q == p128 % q) by {
        lemma_mod_twice(p128, q);
    }
}

/// The negacyclic product of `a` and `b` with coefficients reduced modulo q.
pub open spec fn nega_mult_mod_q(a: Seq<u32>, b: Seq<u32>) -> Seq<u32> {
    Seq::new(256, |c: int| (nconv(ints32(a), ints32(b), c) % field_q()) as u32)
}

/// Multiplication in NTT form is negacyclic multiplication: the NTT of the
/// product in `Z_q[X]/(X^256 + 1)` is the NTT-form product of the NTTs, and
/// the inverse NTT of that is the product.
pub proof fn lemma_ntt_mult_is_negacyclic(a: Seq<u32>, b: Seq<u32>)
    requires
        a.len() == 256,
        b.len() == 256,
    ensures
        ntt_spec(nega_mult_mod_q(a, b)) =~= ntt_mult_spec(ntt_spec(a), ntt_spec(b)),
        intt_spec(ntt_mult_spec(ntt_spec(a), ntt_spec(b))) =~= nega_mult_mod_q(a, b),
{
    let q = field_q();
    let aa = ints32(a);
    let bb = ints32(b);
    let cq = nega_mult_mod_q(a, b);
    let cc = nprod(aa, bb);
    let na = ntt_spec(a);
    let nb = ntt_spec(b);
    let nc = ntt_spec(cq);
    let prod = ntt_mult_spec(na, nb);
    lemma_ntt_residues(a);
    lemma_ntt_residues(b);
    lemma_ntt_residues(cq);
    lemma_ntt_bound(cq);
    assert forall|i: int| 0 <= i < 256 implies #[trigger] ints32(cq)[i] % q == cc[i] % q by {
        lemma_mod_twice(nconv(aa, bb, i), q);
    }
    assert forall|c: int| 0 <= c < 256 implies #[trigger] nc[c] == prod[c] by {
        let beta = c / 2;
        let r = c % 2;
        lemma_fundamental_div_mod(c, 2);
        let g = zeta_mult_spec(beta);
        let w = block_root(2, beta);
        lemma_last_roots(beta);
        lemma_gamma_128(beta);
        let a0 = res(aa, 2, g, 0);
        let a1 = res(aa, 2, g, 1);
        let b0 = res(bb, 2, g, 0);
        let b1 = res(bb, 2, g, 1);
        // the NTTs of a and b hold their residues
        assert(na[2 * beta + 0] as int % q == res(aa, 2, w, 0) % q);
        assert(na[2 * beta + 1] as int % q == res(aa, 2, w, 1) % q);
        assert(nb[2 * beta + 0] as int % q == res(bb, 2, w, 0) % q);
        assert(nb[2 * beta + 1] as int % q == res(bb, 2, w, 1) % q);
        lemma_res_congr_root(aa, 2, w, g, 0);
        lemma_res_congr_root(aa, 2, w, g, 1);
        lemma_res_congr_root(bb, 2, w, g, 0);
        lemma_res_congr_root(bb, 2, w, g, 1);
        // the NTT of the product holds the product of the residues
        assert(nc[2 * beta + r] as int % q == res(ints32(cq), 2, w, r) % q);
        lemma_res_congr_root(ints32(cq), 2, w, g, r);
        lemma_res_congr_coeffs(ints32(cq), cc, 2, g, r);
        lemma_res_mult(aa, bb, g, r);
        let x0 = na[2 * beta] as int;
        let x1 = na[2 * beta + 1] as int;
        let y0 = nb[2 * beta] as int;
        let y1 = nb[2 * beta + 1] as int;
        lemma_mul_congr(x0, a0, y0, b0, q);
        lemma_mul_congr(x1, a1, y1, b1, q);
        lemma_mul_congr(x0, a0, y1, b1, q);
        lemma_mul_congr(x1, a1, y0, b0, q);
        if r == 0 {
            assert(c == 2 * beta);
            assert(prod[c] as int == (x0 * y0 + g * (x1 * y1)) % q);
            lemma_mul_congr(g, g, x1 * y1, a1 * b1, q);
            lemma_add_mod_noop(x0 * y0, g * (x1 * y1), q);
            lemma_add_mod_noop(a0 * b0, g * (a1 * b1), q);
            lemma_mod_twice(x0 * y0 + g * (x1 * y1), q);
        } else {
            assert(c == 2 * beta + 1);
            assert(prod[c] as int == (x0 * y1 + x1 * y0) % q);
            lemma_add_mod_noop(x0 * y1, x1 * y0, q);
            lemma_add_mod_noop(a0 * b1, a1 * b0, q);
            lemma_mod_twice(x0 * y1 + x1 * y0, q);
        }
        lemma_small_mod(nc[c] as nat, q as nat);
        lemma_mod_bound(prod[c] as int, q);
        lemma_small_mod(prod[c] as nat, q as nat);
    }
    assert(nc =~= prod);
    assert(coeffs_below(cq, q)) by {
        assert forall|i: int| 0 <= i < cq.len() implies #[trigger] cq[i] < q by {
            lemma_mod_bound(nconv(aa, bb, i), q);
        }
    }
    lemma_intt_ntt_inverse(cq);
}


/// `Ring::mult` on the NTTs of two polynomials gives the NTT of their
/// negacyclic product: if `x` and `y` hold what `Ring::ntt` gives from `a`
/// and `b`, and `r` holds what `x.mult(&y)` gives, then `r` is the NTT of
/// `a * b` in `Z_q[X]/(X^256 + 1)`, and `Ring::inverse_ntt` of `r` gives
/// that product.
pub proof fn lemma_ring_mult_of_ntts(a: Seq<u32>, b: Seq<u32>, x: Seq<u32>, y: Seq<u32>, r: Seq<u32>)
    requires
        a.len() == 256,
        b.len() == 256,
        x == ntt_spec(a),
        y == ntt_spec(b),
        r == ntt_mult_spec(x, y),
    ensures
        r == ntt_spec(nega_mult_mod_q(a, b)),
        intt_spec(r) == nega_mult_mod_q(a, b),
{
    lemma_ntt_mult_is_negacyclic(a, b);
}

} // verus!
