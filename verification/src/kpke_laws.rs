//! Correctness of K-PKE decryption: decrypting an uncompressed ciphertext
//! leaves the message plus the noise `e . r + e_2 - s . e_1`, because the
//! terms in the public matrix cancel; and a 1-bit decompressed message
//! survives any noise below a quarter of `q`.
use vstd::prelude::*;
use vstd::arithmetic::div_mod::*;
use vstd::arithmetic::mul::*;
use crate::params::field_q;
use crate::field_laws::{fsum, lemma_fsum_ext, lemma_fsum_add, lemma_fsum_scale};
use crate::lagrange_laws::{lemma_fsum_congr, lemma_mul_congr};
use crate::committee_laws::{
    colsum,
    sums_to,
    lemma_fsum_lin2,
    lemma_layer_tiles,
    lemma_intt_linear,
    lemma_inner_product_linear,
    lemma_add_mod_linear,
};
use crate::ring::{
    ntt_layer,
    ntt_layers,
    ntt_spec,
    intt_spec,
    is_layer_len,
    zeta_ntt_spec,
    add_mod_spec,
    zero_coeffs,
    zeta_mult_spec,
    ntt_mult_spec,
    inner_product_spec,
    coeffs_below,
    decompress_coeff,
    lemma_ntt_bound,
    compress_coeff,
    ring_coeffs,
    Ring,
    Compressed,
    RingRepresentation,
};
use vstd::arithmetic::power2::{pow2, lemma2_to64};
use crate::ring_laws::lemma_ntt_intt_inverse;
use crate::kpke::{
    matrix_entry,
    matrix_row,
    matrix_col,
    cbd_poly,
    cbd_ntt_vector,
    rho_of,
    sigma_of,
    public_t,
    cipher_u,
    cipher_v,
    decrypt_diff,
    decompress_all,
    is_key_pair_from_seed,
    KpkeKeyGenOutput,
    KpkeEncryptionKey,
    Cyphertext,
};

verus! {

/// One output of a forward butterfly: `a + z b` (top) or `a - z b`
/// (bottom), modulo q.
pub open spec fn fwd_out(a: int, b: int, z: int, top: bool) -> int {
    if top {
        (a + (z * b) % field_q()) % field_q()
    } else {
        (a + field_q() - (z * b) % field_q()) % field_q()
    }
}

pub proof fn lemma_fwd_out(a: int, b: int, z: int, top: bool)
    ensures
        fwd_out(a, b, z, top) % field_q() == (1 * a + ((if top { 1int } else { -1int }) * z) * b) % field_q(),
{
    let q = field_q();
    let s: int = if top { 1 } else { -1 };
    lemma_mod_twice(z * b, q);
    if top {
        lemma_add_mod_noop(a, z * b, q);
        lemma_add_mod_noop(a, (z * b) % q, q);
        lemma_mod_twice(a, q);
        lemma_mod_twice(a + (z * b) % q, q);
        assert(1 * a + (s * z) * b == a + z * b) by (nonlinear_arith)
            requires
                s == 1,
        ;
    } else {
        lemma_mod_add_multiples_vanish(a - (z * b) % q, q);
        lemma_sub_mod_noop(a, (z * b) % q, q);
        lemma_sub_mod_noop(a, z * b, q);
        lemma_mod_twice(a + q - (z * b) % q, q);
        assert(1 * a + (s * z) * b == a - z * b) by (nonlinear_arith)
            requires
                s == -1,
        ;
    }
}

/// A forward NTT layer is linear modulo q.
#[verifier::spinoff_prover]
proof fn lemma_ntt_layer_linear(y: Seq<u32>, xs: Seq<Seq<u32>>, len: int)
    requires
        is_layer_len(len),
        sums_to(y, xs),
    ensures
        sums_to(ntt_layer(y, len), Seq::new(xs.len(), |i: int| ntt_layer(xs[i], len))),
{
    let q = field_q();
    let n = xs.len();
    let out = ntt_layer(y, len);
    let outs = Seq::new(xs.len(), |i: int| ntt_layer(xs[i], len));
    assert forall|c: int| 0 <= c < 256 implies #[trigger] (out[c] as int % q) == colsum(outs, c) % q by {
        lemma_layer_tiles(len, c);
        let z = zeta_ntt_spec(128int / len + c / (2 * len));
        let top = c % (2 * len) < len;
        let s: int = if top { 1 } else { -1 };
        let (c0, c1) = if top { (c, c + len) } else { (c - len, c) };
        let oc = |i: int| outs[i][c] as int;
        let f = |i: int| xs[i][c0] as int;
        let g = |i: int| xs[i][c1] as int;
        assert forall|i: int| 0 <= i < n implies #[trigger] oc(i) % q == (1 * f(i) + (s * z) * g(i)) % q by {
            assert(oc(i) == fwd_out(xs[i][c0] as int, xs[i][c1] as int, z, top));
            lemma_fwd_out(xs[i][c0] as int, xs[i][c1] as int, z, top);
        }
        lemma_fsum_lin2(f, g, oc, 1, s * z, n);
        assert(colsum(outs, c) == fsum(oc, n));
        assert(fsum(f, n) == colsum(xs, c0));
        assert(fsum(g, n) == colsum(xs, c1));
        let ya = y[c0] as int;
        let yb = y[c1] as int;
        assert(out[c] as int == fwd_out(ya, yb, z, top));
        lemma_fwd_out(ya, yb, z, top);
        lemma_mul_congr(1, 1, ya, colsum(xs, c0), q);
        lemma_mul_congr(s * z, s * z, yb, colsum(xs, c1), q);
        lemma_add_mod_noop(1 * ya, (s * z) * yb, q);
        lemma_add_mod_noop(1 * colsum(xs, c0), (s * z) * colsum(xs, c1), q);
    }
}

/// The forward NTT layers from `len` down are linear modulo q.
proof fn lemma_ntt_layers_linear(y: Seq<u32>, xs: Seq<Seq<u32>>, len: int)
    requires
        is_layer_len(len),
        sums_to(y, xs),
    ensures
        sums_to(ntt_layers(y, len), Seq::new(xs.len(), |i: int| ntt_layers(xs[i], len))),
    decreases len,
{
    let n = xs.len();
    if len < 2 {
        assert(Seq::new(xs.len(), |i: int| ntt_layers(xs[i], len)) =~= xs);
    } else {
        let xs1 = Seq::new(n, |i: int| ntt_layer(xs[i], len));
        lemma_ntt_layer_linear(y, xs, len);
        lemma_ntt_layers_linear(ntt_layer(y, len), xs1, len / 2);
        assert(Seq::new(n, |i: int| ntt_layers(xs1[i], len / 2)) =~= Seq::new(
            n,
            |i: int| ntt_layers(xs[i], len),
        ));
    }
}

/// The forward NTT is linear modulo q.
pub proof fn lemma_ntt_linear(y: Seq<u32>, xs: Seq<Seq<u32>>)
    requires
        sums_to(y, xs),
    ensures
        sums_to(ntt_spec(y), Seq::new(xs.len(), |i: int| ntt_spec(xs[i]))),
{
    lemma_ntt_layers_linear(y, xs, 128);
    assert(Seq::new(xs.len(), |i: int| ntt_layers(xs[i], 128)) =~= Seq::new(xs.len(), |i: int| ntt_spec(xs[i])));
}

/// Coefficient `c` of the product of the degree-two residues of `a` and `b`
/// at `c`, before reduction modulo q.
pub open spec fn pair_prod(a: Seq<u32>, b: Seq<u32>, c: int) -> int {
    if c % 2 == 0 {
        a[c] * b[c] + zeta_mult_spec(c / 2) * (a[c + 1] * b[c + 1])
    } else {
        a[c - 1] * b[c] + a[c] * b[c - 1]
    }
}

/// The NTT-form inner product at `c` is the sum of the pair products,
/// modulo q.
proof fn lemma_ip_pairs(a: Seq<Seq<u32>>, b: Seq<Seq<u32>>, n: nat, c: int)
    requires
        0 <= c < 256,
    ensures
        inner_product_spec(a, b, n as int)[c] as int % field_q() == fsum(|j: int| pair_prod(a[j], b[j], c), n)
            % field_q(),
    decreases n,
{
    let q = field_q();
    let f = |j: int| pair_prod(a[j], b[j], c);
    if n == 0 {
        assert(zero_coeffs()[c] == 0);
        assert(fsum(f, 0) == 0);
    } else {
        lemma_ip_pairs(a, b, (n - 1) as nat, c);
        let prev = inner_product_spec(a, b, n - 1);
        let m = ntt_mult_spec(a[n - 1], b[n - 1]);
        assert(inner_product_spec(a, b, n as int)[c] == ((prev[c] + m[c]) % q) as u32);
        assert(m[c] as int == f(n - 1) % q);
        lemma_mod_twice(prev[c] + m[c], q);
        lemma_add_mod_noop(prev[c] as int, m[c] as int, q);
        lemma_mod_twice(f(n - 1), q);
        lemma_add_mod_noop(fsum(f, (n - 1) as nat), f(n - 1), q);
        assert(fsum(f, n) == fsum(f, (n - 1) as nat) + f(n - 1));
        lemma_add_mod_noop(prev[c] as int, f(n - 1), q);
    }
}

/// The triple product `r (m s)` at `c`, expanded.
pub open spec fn tri(r: Seq<u32>, m: Seq<u32>, s: Seq<u32>, c: int) -> int {
    if c % 2 == 0 {
        r[c] * pair_prod(m, s, c) + zeta_mult_spec(c / 2) * (r[c + 1] * pair_prod(m, s, c + 1))
    } else {
        r[c - 1] * pair_prod(m, s, c) + r[c] * pair_prod(m, s, c - 1)
    }
}

proof fn lemma_tri_sym(r: Seq<u32>, m: Seq<u32>, s: Seq<u32>, c: int)
    requires
        0 <= c < 256,
    ensures
        tri(r, m, s, c) == tri(s, m, r, c),
{
    let g = zeta_mult_spec(c / 2);
    if c % 2 == 0 {
        assert((c + 1) % 2 == 1);
        let (r0, r1, m0, m1, s0, s1) = (r[c] as int, r[c + 1] as int, m[c] as int, m[c + 1] as int, s[c] as int, s[c + 1] as int);
        assert(pair_prod(m, s, c) == m0 * s0 + g * (m1 * s1));
        assert(pair_prod(m, s, c + 1) == m0 * s1 + m1 * s0);
        assert(pair_prod(m, r, c) == m0 * r0 + g * (m1 * r1));
        assert(pair_prod(m, r, c + 1) == m0 * r1 + m1 * r0);
        lemma_mul_is_distributive_add(r0, m0 * s0, g * (m1 * s1));
        lemma_mul_is_distributive_add(r1, m0 * s1, m1 * s0);
        lemma_mul_is_distributive_add(g, r1 * (m0 * s1), r1 * (m1 * s0));
        lemma_mul_is_distributive_add(s0, m0 * r0, g * (m1 * r1));
        lemma_mul_is_distributive_add(s1, m0 * r1, m1 * r0);
        lemma_mul_is_distributive_add(g, s1 * (m0 * r1), s1 * (m1 * r0));
        assert(r0 * (m0 * s0) == s0 * (m0 * r0)) by (nonlinear_arith);
        assert(r0 * (g * (m1 * s1)) == g * (s1 * (m1 * r0))) by (nonlinear_arith);
        assert(r1 * (m0 * s1) == s1 * (m0 * r1)) by (nonlinear_arith);
        assert(g * (r1 * (m1 * s0)) == s0 * (g * (m1 * r1))) by (nonlinear_arith);
    } else {
        assert((c - 1) % 2 == 0);
        assert((c - 1) / 2 == c / 2);
        let (r0, r1, m0, m1, s0, s1) = (r[c - 1] as int, r[c] as int, m[c - 1] as int, m[c] as int, s[c - 1] as int, s[c] as int);
        assert(pair_prod(m, s, c) == m0 * s1 + m1 * s0);
        assert(pair_prod(m, s, c - 1) == m0 * s0 + g * (m1 * s1));
        assert(pair_prod(m, r, c) == m0 * r1 + m1 * r0);
        assert(pair_prod(m, r, c - 1) == m0 * r0 + g * (m1 * r1));
        lemma_mul_is_distributive_add(r0, m0 * s1, m1 * s0);
        lemma_mul_is_distributive_add(r1, m0 * s0, g * (m1 * s1));
        lemma_mul_is_distributive_add(s0, m0 * r1, m1 * r0);
        lemma_mul_is_distributive_add(s1, m0 * r0, g * (m1 * r1));
        assert(r0 * (m0 * s1) == s1 * (m0 * r0)) by (nonlinear_arith);
        assert(r0 * (m1 * s0) == s0 * (m1 * r0)) by (nonlinear_arith);
        assert(r1 * (m0 * s0) == s0 * (m0 * r1)) by (nonlinear_arith);
        assert(r1 * (g * (m1 * s1)) == s1 * (g * (m1 * r1))) by (nonlinear_arith);
    }
}

/// `sum_i sum_j f(i, j) = sum_j sum_i f(i, j)`.
pub proof fn lemma_fsum_swap(f: spec_fn(int, int) -> int, n: nat, m: nat)
    ensures
        fsum(|i: int| fsum(|j: int| f(i, j), m), n) == fsum(|j: int| fsum(|i: int| f(i, j), n), m),
    decreases n,
{
    let lhs = |i: int| fsum(|j: int| f(i, j), m);
    if n == 0 {
        let z = |j: int| fsum(|i: int| f(i, j), 0);
        let zero = |j: int| 0int;
        assert forall|j: int| 0 <= j < m implies #[trigger] z(j) == 0 * zero(j) by {}
        lemma_fsum_scale(zero, z, 0, m);
    } else {
        lemma_fsum_swap(f, (n - 1) as nat, m);
        let prev = |j: int| fsum(|i: int| f(i, j), (n - 1) as nat);
        let last = |j: int| f(n - 1, j);
        let cur = |j: int| fsum(|i: int| f(i, j), n);
        assert forall|j: int| 0 <= j < m implies #[trigger] cur(j) == prev(j) + last(j) by {}
        lemma_fsum_add(prev, last, cur, m);
        assert(lhs(n - 1) == fsum(last, m));
        assert(fsum(lhs, n) == fsum(lhs, (n - 1) as nat) + lhs(n - 1));
    }
}

/// A pair product with a vector of sums of pair products expands into the
/// sum of triple products, modulo q.
proof fn lemma_pair_of_sums(r: Seq<u32>, t: Seq<u32>, ms: Seq<Seq<u32>>, s: Seq<Seq<u32>>, k: nat, c: int)
    requires
        0 <= c < 256,
        forall|cc: int| 0 <= cc < 256 ==> #[trigger] (t[cc] as int % field_q()) == fsum(
            |j: int| pair_prod(ms[j], s[j], cc),
            k,
        ) % field_q(),
    ensures
        pair_prod(r, t, c) % field_q() == fsum(|j: int| tri(r, ms[j], s[j], c), k) % field_q(),
{
    let q = field_q();
    let g = zeta_mult_spec(c / 2);
    let (c1, c2, al, be) = if c % 2 == 0 {
        (c, c + 1, r[c] as int, g * r[c + 1])
    } else {
        (c, c - 1, r[c - 1] as int, r[c] as int)
    };
    let p1 = |j: int| pair_prod(ms[j], s[j], c1);
    let p2 = |j: int| pair_prod(ms[j], s[j], c2);
    let tr = |j: int| tri(r, ms[j], s[j], c);
    assert forall|j: int| 0 <= j < k implies #[trigger] tr(j) % q == (al * p1(j) + be * p2(j)) % q by {
        if c % 2 == 0 {
            lemma_mul_is_associative(g, r[c + 1] as int, p2(j));
        }
    }
    lemma_fsum_lin2(p1, p2, tr, al, be, k);
    assert(t[c1] as int % q == fsum(p1, k) % q);
    assert(t[c2] as int % q == fsum(p2, k) % q);
    if c % 2 == 0 {
        lemma_mul_is_associative(g, r[c + 1] as int, t[c + 1] as int);
    }
    assert(pair_prod(r, t, c) == al * t[c1] + be * t[c2]);
    lemma_mul_congr(al, al, t[c1] as int, fsum(p1, k), q);
    lemma_mul_congr(be, be, t[c2] as int, fsum(p2, k), q);
    lemma_add_mod_noop(al * t[c1], be * t[c2], q);
    lemma_add_mod_noop(al * fsum(p1, k), be * fsum(p2, k), q);
}

/// The matrix terms of decryption cancel: `r . (A s) = s . (A^T r)` for
/// NTT-form vectors and an NTT-form matrix given by its entries, modulo q.
pub proof fn lemma_matrix_swap(mat: spec_fn(int, int) -> Seq<u32>, r: Seq<Seq<u32>>, s: Seq<Seq<u32>>, k: nat, c: int)
    requires
        0 <= c < 256,
    ensures
        inner_product_spec(
            r,
            Seq::new(k, |i: int| inner_product_spec(Seq::new(k, |j: int| mat(i, j)), s, k as int)),
            k as int,
        )[c] as int % field_q() == inner_product_spec(
            s,
            Seq::new(k, |j: int| inner_product_spec(Seq::new(k, |i: int| mat(i, j)), r, k as int)),
            k as int,
        )[c] as int % field_q(),
{
    let q = field_q();
    let tt = Seq::new(k, |i: int| inner_product_spec(Seq::new(k, |j: int| mat(i, j)), s, k as int));
    let uu = Seq::new(k, |j: int| inner_product_spec(Seq::new(k, |i: int| mat(i, j)), r, k as int));
    let f = |i: int, j: int| tri(r[i], mat(i, j), s[j], c);
    // left side
    lemma_ip_pairs(r, tt, k, c);
    let lp = |i: int| pair_prod(r[i], tt[i], c);
    let ls = |i: int| fsum(|j: int| f(i, j), k);
    assert forall|i: int| 0 <= i < k implies #[trigger] lp(i) % q == ls(i) % q by {
        let row = Seq::new(k, |j: int| mat(i, j));
        assert forall|cc: int| 0 <= cc < 256 implies #[trigger] (tt[i][cc] as int % q) == fsum(
            |j: int| pair_prod(row[j], s[j], cc),
            k,
        ) % q by {
            lemma_ip_pairs(row, s, k, cc);
        }
        lemma_pair_of_sums(r[i], tt[i], row, s, k, c);
        lemma_fsum_ext(|j: int| tri(r[i], row[j], s[j], c), |j: int| f(i, j), k);
    }
    lemma_fsum_congr(lp, ls, k, q);
    // right side
    lemma_ip_pairs(s, uu, k, c);
    let rp = |j: int| pair_prod(s[j], uu[j], c);
    let rs = |j: int| fsum(|i: int| f(i, j), k);
    assert forall|j: int| 0 <= j < k implies #[trigger] rp(j) % q == rs(j) % q by {
        let col = Seq::new(k, |i: int| mat(i, j));
        assert forall|cc: int| 0 <= cc < 256 implies #[trigger] (uu[j][cc] as int % q) == fsum(
            |i: int| pair_prod(col[i], r[i], cc),
            k,
        ) % q by {
            lemma_ip_pairs(col, r, k, cc);
        }
        lemma_pair_of_sums(s[j], uu[j], col, r, k, c);
        assert forall|i: int| 0 <= i < k implies #[trigger] tri(s[j], col[i], r[i], c) == f(i, j) by {
            lemma_tri_sym(s[j], mat(i, j), r[i], c);
        }
        lemma_fsum_ext(|i: int| tri(s[j], col[i], r[i], c), |i: int| f(i, j), k);
    }
    lemma_fsum_congr(rp, rs, k, q);
    lemma_fsum_swap(f, k, k);
    assert(fsum(ls, k) == fsum(rs, k));
}

proof fn lemma_colsum1(a: Seq<u32>, c: int)
    ensures
        colsum(seq![a], c) == a[c] as int,
{
    let f = |i: int| seq![a][i][c] as int;
    assert(fsum(f, 0) == 0);
    assert(fsum(f, 1) == fsum(f, 0) + f(0));
}

proof fn lemma_colsum2(a: Seq<u32>, b: Seq<u32>, c: int)
    ensures
        colsum(seq![a, b], c) == a[c] + b[c],
{
    let f = |i: int| seq![a, b][i][c] as int;
    assert(fsum(f, 0) == 0);
    assert(fsum(f, 1) == fsum(f, 0) + f(0));
    assert(fsum(f, 2) == fsum(f, 1) + f(1));
}

/// `add_mod(a, b)` is the sum of `a` and `b` modulo q.
proof fn lemma_add_mod_sums(a: Seq<u32>, b: Seq<u32>)
    ensures
        sums_to(add_mod_spec(a, b), seq![a, b]),
{
    let q = field_q();
    assert forall|c: int| 0 <= c < 256 implies #[trigger] (add_mod_spec(a, b)[c] as int % q) == colsum(seq![a, b], c)
        % q by {
        lemma_colsum2(a, b, c);
        lemma_mod_twice(a[c] + b[c], q);
    }
}

/// An inner product has 256 coefficients below q.
proof fn lemma_ip_reduced(a: Seq<Seq<u32>>, b: Seq<Seq<u32>>, n: int)
    ensures
        inner_product_spec(a, b, n).len() == 256,
        coeffs_below(inner_product_spec(a, b, n), field_q()),
{
    if n > 0 {
        let x = inner_product_spec(a, b, n);
        assert forall|c: int| 0 <= c < x.len() implies #[trigger] x[c] < field_q() by {
            lemma_mod_bound(inner_product_spec(a, b, n - 1)[c] + ntt_mult_spec(a[n - 1], b[n - 1])[c], field_q());
        }
    }
}

/// The secret key `s` in NTT form generated from the seed `d`.
pub open spec fn secret_s(d: Seq<u8>, eta1: int, k: nat) -> Seq<Seq<u32>> {
    cbd_ntt_vector(sigma_of(d), 0, eta1, k)
}

/// The public `t = A s + e` in NTT form generated from the seed `d`.
pub open spec fn public_t_all(d: Seq<u8>, eta1: int, k: nat) -> Seq<Seq<u32>> {
    Seq::new(k, |i: int| public_t(rho_of(d), sigma_of(d), eta1, k, i))
}

/// The key error `e` in NTT form generated from the seed `d`.
pub open spec fn key_error(d: Seq<u8>, eta1: int, k: nat) -> Seq<Seq<u32>> {
    Seq::new(k, |i: int| ntt_spec(cbd_poly(sigma_of(d), k + i, eta1)))
}

/// The encryption error `e_1` in NTT form sampled from `rand`.
pub open spec fn cipher_error(rand: Seq<u8>, eta2: int, k: nat) -> Seq<Seq<u32>> {
    Seq::new(k, |i: int| ntt_spec(cbd_poly(rand, k + i, eta2)))
}

/// The noise of decryption at coefficient `x`: `e . r + e_2 - s . e_1`, the
/// products taken in NTT form and brought back by the inverse NTT.
pub open spec fn decryption_noise(d: Seq<u8>, rand: Seq<u8>, eta1: int, eta2: int, k: nat, x: int) -> int {
    intt_spec(inner_product_spec(cbd_ntt_vector(rand, 0, eta1, k), key_error(d, eta1, k), k as int))[x]
        + cbd_poly(rand, 2 * k as int, eta2)[x] - intt_spec(
        inner_product_spec(secret_s(d, eta1, k), cipher_error(rand, eta2, k), k as int),
    )[x]
}

/// The NTT forms of the rings `u_i` of the uncompressed ciphertext.
pub open spec fn cipher_u_ntt(d: Seq<u8>, rand: Seq<u8>, eta1: int, eta2: int, k: nat) -> Seq<Seq<u32>> {
    Seq::new(k, |i: int| ntt_spec(cipher_u(rho_of(d), rand, eta1, eta2, k, i)))
}

/// Decryption of an uncompressed ciphertext leaves the message plus the
/// noise: `v - s . u = Decompress_1(m) + e . r + e_2 - s . e_1` modulo q, for
/// the key pair generated from `d` and the ciphertext encrypted with `rand`.
pub proof fn lemma_kpke_noise(d: Seq<u8>, rand: Seq<u8>, m: Seq<u32>, eta1: int, eta2: int, k: nat, x: int)
    requires
        0 <= x < 256,
    ensures
        (cipher_v(public_t_all(d, eta1, k), m, rand, eta1, eta2, k)[x] - intt_spec(
            inner_product_spec(secret_s(d, eta1, k), cipher_u_ntt(d, rand, eta1, eta2, k), k as int),
        )[x]) % field_q() == (decompress_coeff(m[x] as int, 1) + decryption_noise(d, rand, eta1, eta2, k, x))
            % field_q(),
{
    let q = field_q();
    let rho = rho_of(d);
    let sigma = sigma_of(d);
    let mat = |i: int, j: int| matrix_entry(rho, i, j);
    let ss = secret_s(d, eta1, k);
    let rr = cbd_ntt_vector(rand, 0, eta1, k);
    let ee = key_error(d, eta1, k);
    let e1 = cipher_error(rand, eta2, k);
    let tt = public_t_all(d, eta1, k);
    let nu = cipher_u_ntt(d, rand, eta1, eta2, k);
    let t1 = Seq::new(k, |i: int| inner_product_spec(Seq::new(k, |j: int| mat(i, j)), ss, k as int));
    let u1 = Seq::new(k, |j: int| inner_product_spec(Seq::new(k, |i: int| mat(i, j)), rr, k as int));
    // t_i = (A s)_i + e_i
    let tb = seq![t1, ee];
    assert forall|i: int| 0 <= i < k implies sums_to(#[trigger] tt[i], Seq::new(tb.len(), |p: int| tb[p][i])) by {
        assert(matrix_row(rho, i, k) =~= Seq::new(k, |j: int| mat(i, j)));
        assert(Seq::new(tb.len(), |p: int| tb[p][i]) =~= seq![t1[i], ee[i]]);
        lemma_add_mod_sums(t1[i], ee[i]);
    }
    lemma_inner_product_linear(rr, tt, tb, k as int);
    let ip_t = inner_product_spec(rr, tt, k as int);
    let ip_t1 = inner_product_spec(rr, t1, k as int);
    let ip_e = inner_product_spec(rr, ee, k as int);
    assert(Seq::new(tb.len(), |p: int| inner_product_spec(rr, tb[p], k as int)) =~= seq![ip_t1, ip_e]);
    lemma_intt_linear(ip_t, seq![ip_t1, ip_e]);
    assert(Seq::new(2, |p: int| intt_spec(seq![ip_t1, ip_e][p])) =~= seq![intt_spec(ip_t1), intt_spec(ip_e)]);
    lemma_colsum2(intt_spec(ip_t1), intt_spec(ip_e), x);
    // ntt(u_i) = (A^T r)_i + e1_i
    let ub = seq![u1, e1];
    assert forall|i: int| 0 <= i < k implies sums_to(#[trigger] nu[i], Seq::new(ub.len(), |p: int| ub[p][i])) by {
        assert(matrix_col(rho, i, k) =~= Seq::new(k, |j: int| mat(j, i)));
        let ui = cipher_u(rho, rand, eta1, eta2, k, i);
        let e1i = cbd_poly(rand, k + i, eta2);
        lemma_add_mod_sums(intt_spec(u1[i]), e1i);
        lemma_ntt_linear(ui, seq![intt_spec(u1[i]), e1i]);
        assert(Seq::new(2, |p: int| ntt_spec(seq![intt_spec(u1[i]), e1i][p])) =~= seq![
            ntt_spec(intt_spec(u1[i])),
            ntt_spec(e1i),
        ]);
        lemma_ip_reduced(Seq::new(k, |j: int| mat(j, i)), rr, k as int);
        lemma_ntt_intt_inverse(u1[i]);
        assert(Seq::new(ub.len(), |p: int| ub[p][i]) =~= seq![u1[i], e1[i]]);
        assert(seq![ntt_spec(intt_spec(u1[i])), ntt_spec(e1i)] =~= seq![u1[i], e1[i]]);
    }
    lemma_inner_product_linear(ss, nu, ub, k as int);
    let ip_u = inner_product_spec(ss, nu, k as int);
    let ip_u1 = inner_product_spec(ss, u1, k as int);
    let ip_e1 = inner_product_spec(ss, e1, k as int);
    assert(Seq::new(ub.len(), |p: int| inner_product_spec(ss, ub[p], k as int)) =~= seq![ip_u1, ip_e1]);
    lemma_intt_linear(ip_u, seq![ip_u1, ip_e1]);
    assert(Seq::new(2, |p: int| intt_spec(seq![ip_u1, ip_e1][p])) =~= seq![intt_spec(ip_u1), intt_spec(ip_e1)]);
    lemma_colsum2(intt_spec(ip_u1), intt_spec(ip_e1), x);
    // r . (A s) = s . (A^T r)
    assert forall|c: int| 0 <= c < 256 implies #[trigger] (ip_t1[c] as int % q) == colsum(seq![ip_u1], c) % q by {
        lemma_matrix_swap(mat, rr, ss, k, c);
        lemma_colsum1(ip_u1, c);
    }
    lemma_intt_linear(ip_t1, seq![ip_u1]);
    assert(Seq::new(1, |p: int| intt_spec(seq![ip_u1][p])) =~= seq![intt_spec(ip_u1)]);
    lemma_colsum1(intt_spec(ip_u1), x);
    // assemble
    let a = intt_spec(ip_t1)[x] as int;
    let b = intt_spec(ip_e)[x] as int;
    let a2 = intt_spec(ip_u1)[x] as int;
    let b2 = intt_spec(ip_e1)[x] as int;
    let e2 = cbd_poly(rand, 2 * k as int, eta2)[x] as int;
    let dm = decompress_coeff(m[x] as int, 1) as int;
    let it = intt_spec(ip_t)[x] as int;
    let iu = intt_spec(ip_u)[x] as int;
    assert(it % q == (a + b) % q);
    assert(iu % q == (a2 + b2) % q);
    assert(a % q == a2 % q);
    let v = cipher_v(tt, m, rand, eta1, eta2, k)[x] as int;
    let v1 = ((it + e2) % q) as u32;
    assert(v == (v1 + dm) % q);
    lemma_add_mod_noop(v1 as int, dm, q);
    lemma_mod_twice(it + e2, q);
    lemma_add_mod_noop(it + e2, dm, q);
    lemma_add_mod_noop(it, e2, q);
    lemma_add_mod_noop(a + b, e2, q);
    assert(v % q == (a + b + e2 + dm) % q) by {
        lemma_mod_twice(v1 + dm, q);
        lemma_add_mod_noop((it + e2) % q, dm, q);
        lemma_add_mod_noop(it + e2, dm, q);
        lemma_add_mod_noop(it, e2 + dm, q);
        lemma_add_mod_noop(a + b, e2 + dm, q);
    }
    lemma_sub_mod_noop(v, iu, q);
    lemma_sub_mod_noop(a + b + e2 + dm, a2 + b2, q);
    lemma_add_mod_noop(a - a2, b + e2 + dm - b2, q);
    lemma_sub_mod_noop(a, a2, q);
    lemma_small_mod(0, q as nat);
    assert(a + b + e2 + dm - (a2 + b2) == (a - a2) + (b + e2 + dm - b2));
    lemma_mod_twice(b + e2 + dm - b2, q);
}

/// `n` is within a quarter of `q` of a multiple of `q`.
pub open spec fn noise_small(n: int) -> bool {
    n % field_q() < field_q() / 4 || n % field_q() > field_q() - field_q() / 4
}

/// A 1-bit message coefficient plus small noise, reduced modulo q,
/// compresses back to the message bit.
pub proof fn lemma_decode_bit(y: int, b: int, n: int)
    requires
        0 <= y < field_q(),
        b == 0 || b == 1,
        y % field_q() == (decompress_coeff(b, 1) + n) % field_q(),
        noise_small(n),
    ensures
        compress_coeff(y, 1) == b,
{
    let q = field_q();
    lemma2_to64();
    assert(pow2(1) == 2);
    assert(pow2(0) == 1);
    let dm = decompress_coeff(b, 1) as int;
    if b == 0 {
        assert(dm == 0);
    } else {
        assert(dm == 343829505);
    }
    let r = n % q;
    lemma_mod_bound(n, q);
    lemma_small_mod(y as nat, q as nat);
    lemma_add_mod_noop(dm, n, q);
    lemma_small_mod(dm as nat, q as nat);
    assert(y == (dm + r) % q);
    if dm + r < q {
        lemma_small_mod((dm + r) as nat, q as nat);
    } else {
        lemma_mod_sub_multiples_vanish(dm + r, q);
        lemma_small_mod((dm + r - q) as nat, q as nat);
    }
    assert(compress_coeff(y, 1) == ((y * 2 + q / 2) / q) % 2);
}

/// `c` is what `encrypt` returns for the key `ek`, the message `m` and the
/// randomness `rand`.
pub open spec fn is_encryption<const K: usize, const D_U: usize, const D_V: usize>(
    c: Cyphertext<K, D_U, D_V>,
    ek: KpkeEncryptionKey<K>,
    m: Compressed<1, Ring>,
    rand: Seq<u8>,
    eta1: int,
    eta2: int,
) -> bool {
    &&& forall|i: int, x: int|
        0 <= i < K && 0 <= x < 256 ==> (#[trigger] c.0.0.data[i].data[x]) == compress_coeff(
            cipher_u(ek.1@, rand, eta1, eta2, K as nat, i)[x] as int,
            D_U as nat,
        )
    &&& forall|x: int|
        0 <= x < 256 ==> (#[trigger] c.1.0.data[x]) == compress_coeff(
            cipher_v(ring_coeffs(ek.0.data@), m.0.data@, rand, eta1, eta2, K as nat)[x] as int,
            D_V as nat,
        )
}

/// The whole noise left by decrypting a ciphertext of `m`: the noise of the
/// scheme plus the rounding of compressing `v`, minus the rounding of
/// compressing `u` carried through the product with `s`.
pub open spec fn total_noise<const K: usize, const D_U: usize, const D_V: usize>(
    d: Seq<u8>,
    rand: Seq<u8>,
    m: Seq<u32>,
    c: Cyphertext<K, D_U, D_V>,
    eta1: int,
    eta2: int,
    x: int,
) -> int {
    let k = K as nat;
    let v = cipher_v(public_t_all(d, eta1, k), m, rand, eta1, eta2, k)[x] as int;
    let inner = intt_spec(inner_product_spec(secret_s(d, eta1, k), cipher_u_ntt(d, rand, eta1, eta2, k), K as int))[x]
        as int;
    let inner_c = intt_spec(
        inner_product_spec(
            secret_s(d, eta1, k),
            Seq::new(k, |j: int| ntt_spec(decompress_all(c.0.0, D_U as nat)[j])),
            K as int,
        ),
    )[x] as int;
    decryption_noise(d, rand, eta1, eta2, k, x) + (decompress_coeff(c.1.0.data[x] as int, D_V as nat) - v) - (
    inner_c - inner)
}

/// K-PKE round trip: a 1-bit message encrypted under the key pair generated
/// from the seed `d` decrypts to itself wherever the total noise is below a
/// quarter of `q`.
pub proof fn lemma_kpke_round_trip<const K: usize, const D_U: usize, const D_V: usize>(
    d: Seq<u8>,
    keys: KpkeKeyGenOutput<K>,
    m: Compressed<1, Ring>,
    rand: Seq<u8>,
    eta1: int,
    eta2: int,
    c: Cyphertext<K, D_U, D_V>,
    x: int,
)
    requires
        is_key_pair_from_seed(keys, d, eta1),
        is_encryption(c, keys.0, m, rand, eta1, eta2),
        0 <= x < 256,
        m.0.data[x] <= 1,
        noise_small(total_noise(d, rand, m.0.data@, c, eta1, eta2, x)),
    ensures
        compress_coeff(decrypt_diff(keys.1, c)[x] as int, 1) == m.0.data[x],
{
    let q = field_q();
    let k = K as nat;
    assert(ring_coeffs(keys.0.0.data@) =~= public_t_all(d, eta1, k));
    assert(ring_coeffs(keys.1.data@) =~= secret_s(d, eta1, k));
    lemma_kpke_noise(d, rand, m.0.data@, eta1, eta2, k, x);
    let v = cipher_v(public_t_all(d, eta1, k), m.0.data@, rand, eta1, eta2, k)[x] as int;
    let inner = intt_spec(inner_product_spec(secret_s(d, eta1, k), cipher_u_ntt(d, rand, eta1, eta2, k), K as int))[x]
        as int;
    let un = Seq::new(k, |j: int| ntt_spec(decompress_all(c.0.0, D_U as nat)[j]));
    let inner_c = intt_spec(inner_product_spec(secret_s(d, eta1, k), un, K as int))[x] as int;
    let vc = decompress_coeff(c.1.0.data[x] as int, D_V as nat) as int;
    let dd = decrypt_diff(keys.1, c)[x] as int;
    assert(dd == (vc + q - inner_c) % q);
    let dm = decompress_coeff(m.0.data[x] as int, 1) as int;
    let noise = decryption_noise(d, rand, eta1, eta2, k, x);
    let tn = total_noise(d, rand, m.0.data@, c, eta1, eta2, x);
    assert(tn == noise + (vc - v) - (inner_c - inner));
    assert((v - inner) % q == (dm + noise) % q);
    assert(vc + q - inner_c == (v - inner) + (vc - v - (inner_c - inner)) + q);
    lemma_mod_add_multiples_vanish((v - inner) + (vc - v - (inner_c - inner)), q);
    lemma_add_mod_noop(v - inner, vc - v - (inner_c - inner), q);
    lemma_add_mod_noop(dm + noise, vc - v - (inner_c - inner), q);
    assert(dm + noise + (vc - v - (inner_c - inner)) == dm + tn);
    lemma_mod_bound(vc + q - inner_c, q);
    lemma_mod_twice(vc + q - inner_c, q);
    lemma_decode_bit(dd, m.0.data[x] as int, tn);
}

} // verus!
