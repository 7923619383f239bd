//! The committee's partial decryptions add up: the inverse NTT, the NTT-form
//! product and the inner product are linear modulo `q`, so the `<w>^q`
//! shares of parties holding Lagrange-weighted Shamir key shares sum to the
//! linear decryption `v - <u, s>`.
use vstd::prelude::*;
use vstd::arithmetic::div_mod::*;
use vstd::arithmetic::mul::*;
use crate::params::field_q;
use crate::field_laws::{fsum, lemma_fsum_ext, lemma_fsum_add, lemma_fsum_scale};
use crate::lagrange_laws::{lemma_fsum_congr, lemma_mul_congr};
use crate::ring::{
    intt_layer,
    intt_layers,
    intt_spec,
    is_layer_len,
    INV_128,
    zeta_ntt_spec,
    zeta_mult_spec,
    ntt_mult_spec,
    add_mod_spec,
    zero_coeffs,
    inner_product_spec,
    ring_coeffs,
    Vector,
};
use crate::shamir::{lagrange_coeff, lagrange_sum, share_points};
use crate::shamir_ring::{VectorShare, vector_share_column, is_vector_shamir_sharing};
use crate::lagrange_laws::{lemma_vector_shamir_reconstructs, lemma_lagrange_sum_fsum, share_terms};
use crate::party::{Party, w_share_coeff, key_inner_product, scaled_key, ntt_all};
use crate::threshold::{party_ids, is_holder, lemma_unique_holder};
use crate::party::{decompressed_vector, decompressed_ring};
use crate::kpke::{Cyphertext, decrypt_diff, decompress_all};
use crate::ring::ntt_spec;

verus! {

/// `sum_i xs[i][c]` over the integers.
pub open spec fn colsum(xs: Seq<Seq<u32>>, c: int) -> int {
    fsum(|i: int| xs[i][c] as int, xs.len())
}

/// Coefficient by coefficient, `y` is the sum of the sequences `xs` modulo q.
pub open spec fn sums_to(y: Seq<u32>, xs: Seq<Seq<u32>>) -> bool {
    forall|c: int| 0 <= c < 256 ==> #[trigger] (y[c] as int % field_q()) == colsum(xs, c) % field_q()
}

/// `sum_i (f(i) + g(i)) = sum_i f(i) + sum_i g(i)`, as a congruence of the
/// reduced terms.
pub proof fn lemma_fsum_lin2(f: spec_fn(int) -> int, g: spec_fn(int) -> int, h: spec_fn(int) -> int, a: int, b: int, n: nat)
    requires
        forall|i: int| 0 <= i < n ==> #[trigger] h(i) % field_q() == (a * f(i) + b * g(i)) % field_q(),
    ensures
        fsum(h, n) % field_q() == (a * fsum(f, n) + b * fsum(g, n)) % field_q(),
{
    let q = field_q();
    let af = |i: int| a * f(i);
    let bg = |i: int| b * g(i);
    let lin = |i: int| af(i) + bg(i);
    assert forall|i: int| 0 <= i < n implies #[trigger] h(i) % q == lin(i) % q by {}
    lemma_fsum_congr(h, lin, n, q);
    lemma_fsum_add(af, bg, lin, n);
    lemma_fsum_scale(f, af, a, n);
    lemma_fsum_scale(g, bg, b, n);
}

/// The blocks of an inverse-NTT layer tile the 256 coefficients.
pub proof fn lemma_layer_tiles(len: int, idx: int)
    requires
        is_layer_len(len),
        0 <= idx < 256,
    ensures
        idx % (2 * len) < len ==> idx + len < 256,
        idx % (2 * len) >= len ==> idx - len >= 0,
{
    lemma_fundamental_div_mod(idx, 2 * len);
    lemma_mod_bound(idx, 2 * len);
    let b = idx / (2 * len);
    let r = idx % (2 * len);
    let m: int = if len == 1 {
        128
    } else if len == 2 {
        64
    } else if len == 4 {
        32
    } else if len == 8 {
        16
    } else if len == 16 {
        8
    } else if len == 32 {
        4
    } else if len == 64 {
        2
    } else {
        1
    };
    assert(256 == 2 * len * m);
    assert(b < m) by (nonlinear_arith)
        requires
            idx == 2 * len * b + r,
            0 <= r,
            idx < 256,
            256 == 2 * len * m,
            len >= 1,
    ;
    assert(2 * len * b + 2 * len <= 256) by (nonlinear_arith)
        requires
            b < m,
            256 == 2 * len * m,
            len >= 1,
    ;
    assert(b >= 0) by (nonlinear_arith)
        requires
            idx == 2 * len * b + r,
            r < 2 * len,
            idx >= 0,
            len >= 1,
    ;
}

/// `(q + a - b) mod q` times `z` is `z a - z b` modulo q.
proof fn lemma_butterfly_diff(z: int, a: int, b: int)
    ensures
        (z * (field_q() + a - b)) % field_q() == (z * a + (-z) * b) % field_q(),
{
    let q = field_q();
    assert(z * (q + a - b) == q * z + (z * a + (-z) * b)) by (nonlinear_arith);
    lemma_mod_multiples_vanish(z, z * a + (-z) * b, q);
}

/// An inverse-NTT layer is linear modulo q.
proof fn lemma_intt_layer_linear(y: Seq<u32>, xs: Seq<Seq<u32>>, len: int)
    requires
        is_layer_len(len),
        sums_to(y, xs),
    ensures
        sums_to(intt_layer(y, len), Seq::new(xs.len(), |i: int| intt_layer(xs[i], len))),
{
    let q = field_q();
    let n = xs.len();
    let out = intt_layer(y, len);
    let outs = Seq::new(xs.len(), |i: int| intt_layer(xs[i], len));
    assert forall|c: int| 0 <= c < 256 implies #[trigger] (out[c] as int % q) == colsum(outs, c) % q by {
        lemma_layer_tiles(len, c);
        let z = zeta_ntt_spec(256int / len - 1 - c / (2 * len));
        let oc = |i: int| outs[i][c] as int;
        assert(colsum(outs, c) == fsum(oc, n));
        if c % (2 * len) < len {
            let f = |i: int| xs[i][c + len] as int;
            let g = |i: int| xs[i][c] as int;
            assert forall|i: int| 0 <= i < n implies #[trigger] oc(i) % q == (1 * f(i) + 1 * g(i)) % q by {
                let a = xs[i][c + len] as int;
                let b = xs[i][c] as int;
                assert(oc(i) == (a + b) % q);
                lemma_mod_twice(a + b, q);
                assert(1 * f(i) + 1 * g(i) == a + b);
            }
            lemma_fsum_lin2(f, g, oc, 1, 1, n);
            assert(fsum(f, n) == colsum(xs, c + len));
            assert(fsum(g, n) == colsum(xs, c));
            let ya = y[c + len] as int;
            let yb = y[c] as int;
            assert(out[c] as int == (ya + yb) % q);
            lemma_mod_twice(ya + yb, q);
            assert(ya % q == colsum(xs, c + len) % q);
            assert(yb % q == colsum(xs, c) % q);
            lemma_add_mod_noop(ya, yb, q);
            lemma_add_mod_noop(colsum(xs, c + len), colsum(xs, c), q);
            assert(1 * colsum(xs, c + len) + 1 * colsum(xs, c) == colsum(xs, c + len) + colsum(xs, c));
        } else {
            let f = |i: int| xs[i][c] as int;
            let g = |i: int| xs[i][c - len] as int;
            assert forall|i: int| 0 <= i < n implies #[trigger] oc(i) % q == (z * f(i) + (-z) * g(i)) % q by {
                let a = xs[i][c] as int;
                let b = xs[i][c - len] as int;
                assert(oc(i) == (z * (q + a - b)) % q);
                lemma_mod_twice(z * (q + a - b), q);
                lemma_butterfly_diff(z, a, b);
            }
            lemma_fsum_lin2(f, g, oc, z, -z, n);
            assert(fsum(f, n) == colsum(xs, c));
            assert(fsum(g, n) == colsum(xs, c - len));
            let ya = y[c] as int;
            let yb = y[c - len] as int;
            assert(out[c] as int == (z * (q + ya - yb)) % q);
            lemma_mod_twice(z * (q + ya - yb), q);
            lemma_butterfly_diff(z, ya, yb);
            assert(ya % q == colsum(xs, c) % q);
            assert(yb % q == colsum(xs, c - len) % q);
            lemma_mul_congr(z, z, ya, colsum(xs, c), q);
            lemma_mul_congr(-z, -z, yb, colsum(xs, c - len), q);
            lemma_add_mod_noop(z * ya, (-z) * yb, q);
            lemma_add_mod_noop(z * colsum(xs, c), (-z) * colsum(xs, c - len), q);
        }
    }
}

/// The inverse-NTT layers from `len` on are linear modulo q.
proof fn lemma_intt_layers_linear(y: Seq<u32>, xs: Seq<Seq<u32>>, len: int)
    requires
        is_layer_len(len) || len == 256,
        sums_to(y, xs),
    ensures
        sums_to(intt_layers(y, len), Seq::new(xs.len(), |i: int| intt_layers(xs[i], len))),
    decreases 256 - len,
{
    let n = xs.len();
    if len > 128 {
        assert(Seq::new(xs.len(), |i: int| intt_layers(xs[i], len)) =~= xs);
    } else {
        let xs1 = Seq::new(n, |i: int| intt_layer(xs[i], len));
        lemma_intt_layer_linear(y, xs, len);
        lemma_intt_layers_linear(intt_layer(y, len), xs1, 2 * len);
        assert(Seq::new(n, |i: int| intt_layers(xs1[i], 2 * len)) =~= Seq::new(
            n,
            |i: int| intt_layers(xs[i], len),
        ));
    }
}

/// The inverse NTT is linear modulo q.
pub proof fn lemma_intt_linear(y: Seq<u32>, xs: Seq<Seq<u32>>)
    requires
        sums_to(y, xs),
    ensures
        sums_to(intt_spec(y), Seq::new(xs.len(), |i: int| intt_spec(xs[i]))),
{
    let q = field_q();
    let n = xs.len();
    let ls = Seq::new(n, |i: int| intt_layers(xs[i], 2));
    lemma_intt_layers_linear(y, xs, 2);
    let l = intt_layers(y, 2);
    let outs = Seq::new(n, |i: int| intt_spec(xs[i]));
    let w = INV_128 as int;
    assert forall|c: int| 0 <= c < 256 implies #[trigger] (intt_spec(y)[c] as int % q) == colsum(outs, c) % q by {
        let oc = |i: int| outs[i][c] as int;
        let f = |i: int| ls[i][c] as int;
        let zero = |i: int| 0int;
        assert forall|i: int| 0 <= i < n implies #[trigger] oc(i) % q == (w * f(i) + 0 * zero(i)) % q by {
            assert(oc(i) == (intt_layers(xs[i], 2)[c] * w) % q);
            lemma_mod_twice(intt_layers(xs[i], 2)[c] * w, q);
            lemma_mul_is_commutative(intt_layers(xs[i], 2)[c] as int, w);
        }
        lemma_fsum_lin2(f, zero, oc, w, 0, n);
        assert(colsum(ls, c) == fsum(f, n));
        assert(intt_spec(y)[c] as int == (l[c] * w) % q);
        lemma_mod_twice(l[c] * w, q);
        lemma_mul_is_commutative(l[c] as int, w);
        lemma_mul_congr(w, w, l[c] as int, colsum(ls, c), q);
        assert(colsum(outs, c) == fsum(oc, n));
    }
}

/// Coefficient-wise addition modulo q is linear.
pub proof fn lemma_add_mod_linear(y1: Seq<u32>, xs1: Seq<Seq<u32>>, y2: Seq<u32>, xs2: Seq<Seq<u32>>)
    requires
        xs1.len() == xs2.len(),
        sums_to(y1, xs1),
        sums_to(y2, xs2),
    ensures
        sums_to(add_mod_spec(y1, y2), Seq::new(xs1.len(), |i: int| add_mod_spec(xs1[i], xs2[i]))),
{
    let q = field_q();
    let n = xs1.len();
    let outs = Seq::new(n, |i: int| add_mod_spec(xs1[i], xs2[i]));
    assert forall|c: int| 0 <= c < 256 implies #[trigger] (add_mod_spec(y1, y2)[c] as int % q) == colsum(outs, c)
        % q by {
        let oc = |i: int| outs[i][c] as int;
        let f = |i: int| xs1[i][c] as int;
        let g = |i: int| xs2[i][c] as int;
        assert forall|i: int| 0 <= i < n implies #[trigger] oc(i) % q == (1 * f(i) + 1 * g(i)) % q by {
            lemma_mod_twice(xs1[i][c] + xs2[i][c], q);
        }
        lemma_fsum_lin2(f, g, oc, 1, 1, n);
        assert(colsum(xs1, c) == fsum(f, n));
        assert(colsum(xs2, c) == fsum(g, n));
        assert(colsum(outs, c) == fsum(oc, n));
        lemma_mod_twice(y1[c] + y2[c], q);
        lemma_add_mod_noop(y1[c] as int, y2[c] as int, q);
        lemma_add_mod_noop(colsum(xs1, c), colsum(xs2, c), q);
    }
}

/// The NTT-form product is linear in its second factor modulo q.
proof fn lemma_ntt_mult_linear(a: Seq<u32>, y: Seq<u32>, xs: Seq<Seq<u32>>)
    requires
        sums_to(y, xs),
    ensures
        sums_to(ntt_mult_spec(a, y), Seq::new(xs.len(), |i: int| ntt_mult_spec(a, xs[i]))),
{
    let q = field_q();
    let n = xs.len();
    let outs = Seq::new(n, |i: int| ntt_mult_spec(a, xs[i]));
    assert forall|c: int| 0 <= c < 256 implies #[trigger] (ntt_mult_spec(a, y)[c] as int % q) == colsum(outs, c)
        % q by {
        let oc = |i: int| outs[i][c] as int;
        assert(colsum(outs, c) == fsum(oc, n));
        let (c1, c2, al, be) = if c % 2 == 0 {
            (c, c + 1, a[c] as int, zeta_mult_spec(c / 2) * a[c + 1])
        } else {
            (c, c - 1, a[c - 1] as int, a[c] as int)
        };
        let f = |i: int| xs[i][c1] as int;
        let g = |i: int| xs[i][c2] as int;
        assert forall|i: int| 0 <= i < n implies #[trigger] oc(i) % q == (al * f(i) + be * g(i)) % q by {
            let b1 = xs[i][c1] as int;
            let b2 = xs[i][c2] as int;
            if c % 2 == 0 {
                assert(oc(i) == (a[c] * b1 + zeta_mult_spec(c / 2) * (a[c + 1] * b2)) % q);
                assert(a[c] * b1 + zeta_mult_spec(c / 2) * (a[c + 1] * b2) == al * b1 + be * b2) by (nonlinear_arith)
                    requires
                        al == a[c],
                        be == zeta_mult_spec(c / 2) * a[c + 1],
                ;
                lemma_mod_twice(al * b1 + be * b2, q);
            } else {
                assert(oc(i) == (a[c - 1] * b1 + a[c] * b2) % q);
                lemma_mod_twice(al * b1 + be * b2, q);
            }
        }
        lemma_fsum_lin2(f, g, oc, al, be, n);
        assert(colsum(xs, c1) == fsum(f, n));
        assert(colsum(xs, c2) == fsum(g, n));
        let y1 = y[c1] as int;
        let y2 = y[c2] as int;
        if c % 2 == 0 {
            assert(a[c] * y1 + zeta_mult_spec(c / 2) * (a[c + 1] * y2) == al * y1 + be * y2) by (nonlinear_arith)
                requires
                    al == a[c],
                    be == zeta_mult_spec(c / 2) * a[c + 1],
            ;
        }
        assert(ntt_mult_spec(a, y)[c] as int == (al * y1 + be * y2) % q);
        lemma_mod_twice(al * y1 + be * y2, q);
        lemma_mul_congr(al, al, y1, colsum(xs, c1), q);
        lemma_mul_congr(be, be, y2, colsum(xs, c2), q);
        lemma_add_mod_noop(al * y1, be * y2, q);
        lemma_add_mod_noop(al * colsum(xs, c1), be * colsum(xs, c2), q);
    }
}

/// The sum of zeros.
proof fn lemma_colsum_zero(xs: Seq<Seq<u32>>, c: int)
    requires
        forall|i: int| 0 <= i < xs.len() ==> #[trigger] xs[i][c] == 0,
    ensures
        colsum(xs, c) == 0,
{
    let f = |i: int| xs[i][c] as int;
    let z = |i: int| 0int;
    assert forall|i: int| 0 <= i < xs.len() implies #[trigger] f(i) == 0 * z(i) by {}
    lemma_fsum_scale(z, f, 0, xs.len());
}

/// The NTT-form inner product is linear in its second argument modulo q:
/// when ring `k` of `b` sums the rings `k` of the `bs`, the products sum too.
pub proof fn lemma_inner_product_linear(a: Seq<Seq<u32>>, b: Seq<Seq<u32>>, bs: Seq<Seq<Seq<u32>>>, m: int)
    requires
        forall|k: int| 0 <= k < m ==> sums_to(#[trigger] b[k], Seq::new(bs.len(), |i: int| bs[i][k])),
    ensures
        sums_to(inner_product_spec(a, b, m), Seq::new(bs.len(), |i: int| inner_product_spec(a, bs[i], m))),
    decreases m,
{
    let q = field_q();
    let n = bs.len();
    let outs = Seq::new(n, |i: int| inner_product_spec(a, bs[i], m));
    if m <= 0 {
        assert forall|c: int| 0 <= c < 256 implies #[trigger] (inner_product_spec(a, b, m)[c] as int % q)
            == colsum(outs, c) % q by {
            assert forall|i: int| 0 <= i < n implies #[trigger] outs[i][c] == 0 by {}
            lemma_colsum_zero(outs, c);
            lemma_small_mod(0, q as nat);
        }
    } else {
        lemma_inner_product_linear(a, b, bs, m - 1);
        let prev = Seq::new(n, |i: int| inner_product_spec(a, bs[i], m - 1));
        let mults = Seq::new(n, |i: int| ntt_mult_spec(a[m - 1], bs[i][m - 1]));
        let col = Seq::new(n, |i: int| bs[i][m - 1]);
        assert(sums_to(b[m - 1], col));
        lemma_ntt_mult_linear(a[m - 1], b[m - 1], col);
        assert(Seq::new(n, |i: int| ntt_mult_spec(a[m - 1], col[i])) =~= mults);
        lemma_add_mod_linear(inner_product_spec(a, b, m - 1), prev, ntt_mult_spec(a[m - 1], b[m - 1]), mults);
        assert(Seq::new(n, |i: int| add_mod_spec(prev[i], mults[i])) =~= outs);
    }
}

/// A sum with one nonzero term.
proof fn lemma_fsum_single(f: spec_fn(int) -> int, n: nat, i0: int, x: int)
    requires
        0 <= i0 < n,
        forall|i: int| 0 <= i < n ==> #[trigger] f(i) == if i == i0 {
            x
        } else {
            0
        },
    ensures
        fsum(f, n) == x,
    decreases n,
{
    if n - 1 == i0 {
        let z = |i: int| 0int;
        assert forall|i: int| 0 <= i < n - 1 implies #[trigger] f(i) == 0 * z(i) by {}
        lemma_fsum_scale(z, f, 0, (n - 1) as nat);
    } else {
        lemma_fsum_single(f, (n - 1) as nat, i0, x);
    }
}

/// Party `i`'s share `<w>^q` at coefficient `c`, before the switch to `q'`:
/// `v - <u, lambda_i sk_i>` for the holder of `v`, `-<u, lambda_i sk_i>` for
/// the others, modulo q.
pub open spec fn committee_w_q<const K: usize>(
    parties: Seq<Party<K>>,
    u: Seq<Seq<u32>>,
    v: Seq<u32>,
    i: int,
    c: int,
) -> int {
    w_share_coeff(
        v[c] as int,
        key_inner_product(
            u,
            parties[i].sk_share.vector.data@,
            lagrange_coeff(party_ids(parties), parties[i].id),
        )[c] as int,
        is_holder(parties, i),
    )
}

/// Shamir to additive: when the parties hold, at distinct points equal to
/// their ids, `t + 1` or more shares of a degree-`t` Shamir sharing of the
/// NTT-form key `s`, their `<w>^q` shares of the ciphertext `(u, v)` add up,
/// modulo q, to the linear decryption `v - <u, s>` (the product taken in NTT
/// form and brought back by the inverse NTT).
pub proof fn lemma_committee_w_shares_sum<const K: usize>(
    parties: Seq<Party<K>>,
    shares: Seq<VectorShare<K>>,
    s: Vector<K>,
    t: usize,
    n: usize,
    u: Seq<Seq<u32>>,
    v: Seq<u32>,
    c: int,
)
    requires
        K > 0,
        is_vector_shamir_sharing(shares, s, t, n),
        n < field_q(),
        parties.len() > t,
        forall|i: int| 0 <= i < parties.len() ==> shares.contains(#[trigger] parties[i].sk_share),
        forall|i: int| 0 <= i < parties.len() ==> (#[trigger] parties[i]).id == parties[i].sk_share.x,
        forall|i: int, j: int| 0 <= i < j < parties.len() ==> parties[i].id != parties[j].id,
        0 <= c < 256,
    ensures
        fsum(|i: int| committee_w_q(parties, u, v, i, c), parties.len()) % field_q() == (v[c] - intt_spec(
            inner_product_spec(ntt_all(u), ring_coeffs(s.data@), K as int),
        )[c]) % field_q(),
{
    let q = field_q();
    let np = parties.len();
    let picked = Seq::new(np, |i: int| parties[i].sk_share);
    let ids = party_ids(parties);
    assert forall|k: int| 0 <= k < np implies shares.contains(#[trigger] picked[k]) by {
        assert(shares.contains(parties[k].sk_share));
    }
    lemma_vector_shamir_reconstructs(shares, s, t, n, picked);
    assert(share_points(vector_share_column(picked, 0, 0)) =~= ids);
    let lam = |i: int| lagrange_coeff(ids, parties[i].id);
    let bs = Seq::new(np, |i: int| scaled_key(parties[i].sk_share.vector.data@, lam(i)));
    let sc = ring_coeffs(s.data@);
    assert forall|k: int| 0 <= k < K implies sums_to(#[trigger] sc[k], Seq::new(np, |i: int| bs[i][k])) by {
        let col = Seq::new(np, |i: int| bs[i][k]);
        assert forall|cc: int| 0 <= cc < 256 implies #[trigger] (sc[k][cc] as int % q) == colsum(col, cc) % q by {
            let vc = vector_share_column(picked, k, cc);
            assert(lagrange_sum(vc, ids) == s.data[k].data[cc] as int % q);
            lemma_lagrange_sum_fsum(vc, ids);
            let st = share_terms(vc, ids);
            let cf = |i: int| col[i][cc] as int;
            assert forall|i: int| 0 <= i < np implies #[trigger] cf(i) % q == st(i) % q by {
                let y = parties[i].sk_share.vector.data[k].data[cc] as int;
                assert(cf(i) == (y * lam(i)) % q);
                lemma_mod_twice(y * lam(i), q);
                lemma_mul_is_commutative(y, lam(i));
                assert(st(i) == lam(i) * y);
            }
            lemma_fsum_congr(cf, st, np, q);
            assert(colsum(col, cc) == fsum(cf, np));
            lemma_mod_twice(fsum(st, np), q);
            lemma_mod_twice(s.data[k].data[cc] as int, q);
            assert(sc[k][cc] == s.data[k].data[cc]);
        }
    }
    let uu = ntt_all(u);
    lemma_inner_product_linear(uu, sc, bs, K as int);
    let ips = Seq::new(np, |i: int| inner_product_spec(uu, bs[i], K as int));
    let target = intt_spec(inner_product_spec(uu, sc, K as int));
    lemma_intt_linear(inner_product_spec(uu, sc, K as int), ips);
    let inners = Seq::new(np, |i: int| intt_spec(ips[i]));
    assert(target[c] as int % q == colsum(inners, c) % q);
    // The shares: the holder's carries v.
    let i0 = lemma_unique_holder(parties);
    let w = |i: int| committee_w_q(parties, u, v, i, c);
    let hv = |i: int| if is_holder(parties, i) { v[c] as int } else { 0 };
    let inn = |i: int| inners[i][c] as int;
    assert forall|i: int| 0 <= i < np implies #[trigger] w(i) % q == (1 * hv(i) + (-1) * inn(i)) % q by {
        assert(parties[i].sk_share.vector.data@.len() == K);
        assert(inners[i] == key_inner_product(u, parties[i].sk_share.vector.data@, lam(i)));
        let x = inners[i][c] as int;
        if is_holder(parties, i) {
            lemma_mod_add_multiples_vanish(v[c] - x, q);
        } else {
            lemma_mod_add_multiples_vanish(-x, q);
        }
    }
    lemma_fsum_lin2(hv, inn, w, 1, -1, np);
    assert forall|i: int| 0 <= i < np implies #[trigger] hv(i) == if i == i0 { v[c] as int } else { 0 } by {}
    lemma_fsum_single(hv, np, i0, v[c] as int);
    assert(colsum(inners, c) == fsum(inn, np));
    lemma_sub_mod_noop(v[c] as int, colsum(inners, c), q);
    lemma_sub_mod_noop(v[c] as int, target[c] as int, q);
    assert(1 * (v[c] as int) + (-1) * fsum(inn, np) == v[c] - fsum(inn, np));
}

/// The NTT-form inner product is symmetric.
pub proof fn lemma_inner_product_comm(a: Seq<Seq<u32>>, b: Seq<Seq<u32>>, m: int)
    ensures
        inner_product_spec(a, b, m) == inner_product_spec(b, a, m),
    decreases m,
{
    if m > 0 {
        lemma_inner_product_comm(a, b, m - 1);
        let x = a[m - 1];
        let y = b[m - 1];
        assert forall|c: int| 0 <= c < 256 implies #[trigger] ntt_mult_spec(x, y)[c] == ntt_mult_spec(y, x)[c] by {
            if c % 2 == 0 {
                lemma_mul_is_commutative(x[c] as int, y[c] as int);
                lemma_mul_is_commutative(x[c + 1] as int, y[c + 1] as int);
            } else {
                lemma_mul_is_commutative(x[c - 1] as int, y[c] as int);
                lemma_mul_is_commutative(x[c] as int, y[c - 1] as int);
            }
        }
        assert(ntt_mult_spec(x, y) =~= ntt_mult_spec(y, x));
    }
}

/// Threshold decryption agrees with decryption under the shared key: for a
/// ciphertext `c`, the committee's `<w>^q` shares (taken before the switch to
/// `q'`) sum, modulo q, to the value `v - s . u` whose compression `decrypt`
/// returns.
pub proof fn lemma_committee_matches_decrypt<const K: usize, const D_U: usize, const D_V: usize>(
    parties: Seq<Party<K>>,
    shares: Seq<VectorShare<K>>,
    s: Vector<K>,
    t: usize,
    n: usize,
    c: Cyphertext<K, D_U, D_V>,
    x: int,
)
    requires
        K > 0,
        is_vector_shamir_sharing(shares, s, t, n),
        n < field_q(),
        parties.len() > t,
        forall|i: int| 0 <= i < parties.len() ==> shares.contains(#[trigger] parties[i].sk_share),
        forall|i: int| 0 <= i < parties.len() ==> (#[trigger] parties[i]).id == parties[i].sk_share.x,
        forall|i: int, j: int| 0 <= i < j < parties.len() ==> parties[i].id != parties[j].id,
        0 <= x < 256,
    ensures
        fsum(
            |i: int|
                committee_w_q(
                    parties,
                    decompressed_vector(c.0.0, D_U as nat),
                    decompressed_ring(c.1.0, D_V as nat),
                    i,
                    x,
                ),
            parties.len(),
        ) % field_q() == decrypt_diff(s, c)[x] as int,
{
    let q = field_q();
    let u = decompressed_vector(c.0.0, D_U as nat);
    let v = decompressed_ring(c.1.0, D_V as nat);
    lemma_committee_w_shares_sum(parties, shares, s, t, n, u, v, x);
    let sc = ring_coeffs(s.data@);
    let un = Seq::new(K as nat, |k: int| ntt_spec(decompress_all(c.0.0, D_U as nat)[k]));
    assert(ntt_all(u) =~= un);
    lemma_inner_product_comm(un, sc, K as int);
    let inner = intt_spec(inner_product_spec(sc, un, K as int));
    let vx = v[x] as int;
    assert(decrypt_diff(s, c)[x] as int == (vx + q - inner[x]) % q);
    lemma_mod_add_multiples_vanish(vx - inner[x], q);
}

} // verus!
