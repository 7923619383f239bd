//! Lagrange interpolation at zero over `F_q`: the coefficients that
//! `reconstruct` computes give back the constant term of every polynomial of
//! degree below the number of (distinct, nonzero) points.
use vstd::prelude::*;
use vstd::arithmetic::power::*;
use vstd::arithmetic::div_mod::*;
use vstd::arithmetic::mul::*;
use crate::params::field_q;
use crate::field_laws::{
    fsum,
    lemma_fsum_ext,
    lemma_fsum_add,
    lemma_fsum_scale,
    lemma_fermat_inverse,
    lemma_q_prime,
    lemma_euclid,
    lemma_prime_product_nonzero,
};
use crate::shamir::{
    lagrange_num,
    lagrange_den,
    lagrange_coeff,
    lagrange_sum,
    lagrange_defined,
    share_points,
    poly_value,
    is_shamir_sharing,
    Share,
};
use crate::shamir_ring::{
    RingShare,
    VectorShare,
    ring_column,
    vector_share_column,
    is_ring_shamir_sharing,
    is_vector_shamir_sharing,
};
use crate::ring::{Ring, Vector};

verus! {

/// `sum_i c[i] x^i` over integer coefficients.
pub open spec fn pval(c: Seq<int>, x: int) -> int
    decreases c.len(),
{
    if c.len() == 0 {
        0
    } else {
        c[0] + x * pval(c.drop_first(), x)
    }
}

/// The coefficients of `f + a g`, for `g` no longer than `f`.
pub open spec fn poly_comb(f: Seq<int>, g: Seq<int>, a: int) -> Seq<int> {
    Seq::new(f.len(), |k: int| f[k] + a * (if k < g.len() { g[k] } else { 0 }))
}

/// The quotient of `c(X) - c(a)` by `X - a` (synthetic division).
pub open spec fn poly_quo(c: Seq<int>, a: int) -> Seq<int>
    decreases c.len(),
{
    if c.len() <= 1 {
        Seq::empty()
    } else {
        poly_comb(c.drop_first(), poly_quo(c.drop_first(), a), a)
    }
}

proof fn lemma_poly_comb(f: Seq<int>, g: Seq<int>, a: int, x: int)
    requires
        g.len() <= f.len(),
    ensures
        pval(poly_comb(f, g, a), x) == pval(f, x) + a * pval(g, x),
    decreases f.len(),
{
    let h = poly_comb(f, g, a);
    if f.len() > 0 {
        let g1 = if g.len() > 0 { g.drop_first() } else { g };
        assert(h.drop_first() =~= poly_comb(f.drop_first(), g1, a));
        lemma_poly_comb(f.drop_first(), g1, a, x);
        let pf1 = pval(f.drop_first(), x);
        let pg1 = pval(g1, x);
        if g.len() > 0 {
            assert(pval(g, x) == g[0] + x * pg1);
            assert(h[0] + x * (pf1 + a * pg1) == (f[0] + x * pf1) + a * (g[0] + x * pg1)) by (nonlinear_arith)
                requires
                    h[0] == f[0] + a * g[0],
            ;
        } else {
            assert(pval(g, x) == 0);
            assert(pg1 == 0);
            assert(h[0] == f[0]);
            assert(h[0] + x * (pf1 + a * pg1) == (f[0] + x * pf1) + a * 0) by (nonlinear_arith)
                requires
                    h[0] == f[0],
                    pg1 == 0,
            ;
        }
    } else {
        assert(g.len() == 0);
    }
}

/// `c(x) = c(a) + (x - a) q(x)` with `q = poly_quo(c, a)` one shorter than `c`.
pub proof fn lemma_poly_quo(c: Seq<int>, a: int, x: int)
    ensures
        poly_quo(c, a).len() == if c.len() == 0 { 0 } else { c.len() - 1 },
        pval(c, x) == pval(c, a) + (x - a) * pval(poly_quo(c, a), x),
    decreases c.len(),
{
    if c.len() == 1 {
        assert(pval(c.drop_first(), x) == 0);
        assert(pval(c.drop_first(), a) == 0);
    } else if c.len() > 1 {
        let f = c.drop_first();
        let g = poly_quo(f, a);
        lemma_poly_quo(f, a, x);
        lemma_poly_comb(f, g, a, x);
        let pfx = pval(f, x);
        let pfa = pval(f, a);
        let pgx = pval(g, x);
        assert(c[0] + x * pfx == (c[0] + a * pfa) + (x - a) * (pfx + a * pgx)) by (nonlinear_arith)
            requires
                pfx == pfa + (x - a) * pgx,
        ;
    }
}

/// `x1 = x2` and `y1 = y2` modulo `m` give `x1 y1 = x2 y2` modulo `m`.
pub proof fn lemma_mul_congr(x1: int, x2: int, y1: int, y2: int, m: int)
    requires
        m > 0,
        x1 % m == x2 % m,
        y1 % m == y2 % m,
    ensures
        (x1 * y1) % m == (x2 * y2) % m,
{
    lemma_mul_mod_noop_general(x1, y1, m);
    lemma_mul_mod_noop_general(x2, y2, m);
}

/// `(a + q - j) mod q` is nonzero for distinct `a, j` in `(0, q)`.
proof fn lemma_diff_nonzero(a: int, j: int)
    requires
        0 < a < field_q(),
        0 < j < field_q(),
        a != j,
    ensures
        (a + field_q() - j) % field_q() != 0,
        (a + field_q() - j) % field_q() == (a - j) % field_q(),
{
    let q = field_q();
    let v = a + q - j;
    lemma_mod_add_multiples_vanish(a - j, q);
    if v < q {
        lemma_small_mod(v as nat, q as nat);
    } else {
        lemma_mod_sub_multiples_vanish(v, q);
        lemma_small_mod((v - q) as nat, q as nat);
    }
}

/// Dropping the last point `a` from the point set turns the coefficient of
/// another point `j` into one with `lambda_j (j - a) = -a lambda'_j`.
proof fn lemma_coeff_step(ids: Seq<u32>, j: u32)
    requires
        ids.len() >= 1,
        0 < j < field_q(),
        0 < ids.last() < field_q(),
        j != ids.last(),
    ensures
        (lagrange_coeff(ids, j) * (j - ids.last())) % field_q() == (-(ids.last() as int) * lagrange_coeff(
            ids.drop_last(),
            j,
        )) % field_q(),
{
    let q = field_q();
    let a = ids.last() as int;
    let x = ids.drop_last();
    let n1 = lagrange_num(x, j);
    let d1 = lagrange_den(x, j);
    let e = (a + q - j) % q;
    let ex = (q - 2) as nat;
    let nn = lagrange_num(ids, j);
    let dd = lagrange_den(ids, j);
    assert(nn == (n1 * a) % q);
    assert(dd == (d1 * e) % q);
    lemma_diff_nonzero(a, j as int);
    lemma_fermat_inverse(e);
    let pe = pow(e, ex);
    let pd = pow(d1, ex);
    let pp = pow(dd, ex) % q;
    lemma_pow_mod_noop(d1 * e, ex, q);
    lemma_pow_distributes(d1, e, ex);
    lemma_mod_twice(pow(dd, ex), q);
    assert(pp % q == (pd * pe) % q);
    lemma_mod_twice(n1 * a, q);
    assert(nn % q == (n1 * a) % q);
    let c = lagrange_coeff(ids, j);
    assert(c == (nn * pp) % q);
    lemma_mod_twice(nn * pp, q);
    lemma_mul_congr(nn, n1 * a, pp, pd * pe, q);
    assert(c % q == ((n1 * a) * (pd * pe)) % q);
    let w = (j - a);
    lemma_mul_congr(c, (n1 * a) * (pd * pe), w, w, q);
    assert(((n1 * a) * (pd * pe)) * w == (a * n1 * pd) * (pe * w)) by (nonlinear_arith);
    // pe (j - a) = -(e pe) = -1 (mod q)
    assert(pe * w == -1 * (e * pe) + pe * (e - (a - j))) by (nonlinear_arith)
        requires
            w == j - a,
    ;
    assert((e - (a - j)) % q == 0) by {
        lemma_sub_mod_noop(e, a - j, q);
        lemma_mod_twice(a + q - j, q);
        lemma_small_mod(0, q as nat);
    }
    assert((pe * (e - (a - j))) % q == 0) by {
        lemma_mul_mod_noop_right(pe, e - (a - j), q);
        lemma_small_mod(0, q as nat);
    }
    lemma_mul_congr(-1, -1, e * pe, 1, q);
    assert((e * pe) == (e * pe));
    lemma_mul_is_commutative(e, pe);
    lemma_add_mod_noop(-1 * (e * pe), pe * (e - (a - j)), q);
    lemma_add_mod_noop(-1 * 1, 0, q);
    lemma_small_mod(0, q as nat);
    assert((pe * w) % q == (-1int) % q);
    lemma_mul_congr(a * n1 * pd, a * n1 * pd, pe * w, -1, q);
    // right-hand side
    let c1 = lagrange_coeff(x, j);
    assert(c1 == (n1 * (pd % q)) % q);
    lemma_mod_twice(n1 * (pd % q), q);
    lemma_mul_mod_noop_right(n1, pd, q);
    assert(c1 % q == (n1 * pd) % q);
    lemma_mul_congr(-a, -a, c1, n1 * pd, q);
    assert((a * n1 * pd) * -1 == -a * (n1 * pd)) by (nonlinear_arith);
}

/// Nonzero points below `q`, no two equal.
pub open spec fn points_ok(ids: Seq<u32>) -> bool {
    &&& forall|k: int| 0 <= k < ids.len() ==> 0 < #[trigger] ids[k] < field_q()
    &&& forall|k: int, l: int| 0 <= k < l < ids.len() ==> ids[k] != ids[l]
}

/// The terms `lambda_k c(x_k)` of the Lagrange sum at zero of `c` over `ids`.
pub open spec fn lterm(ids: Seq<u32>, c: Seq<int>) -> spec_fn(int) -> int {
    |k: int| lagrange_coeff(ids, ids[k]) * pval(c, ids[k] as int)
}

/// `sum_k lambda_k c(x_k)` over all the points of `ids`.
pub open spec fn lsum(ids: Seq<u32>, c: Seq<int>) -> int {
    fsum(lterm(ids, c), ids.len())
}

/// The point set with its last two points exchanged.
pub open spec fn swap_last(ids: Seq<u32>) -> Seq<u32> {
    ids.drop_last().drop_last().push(ids.last()).push(ids[ids.len() - 2])
}

proof fn lemma_swap_coeff(ids: Seq<u32>, j: u32)
    requires
        ids.len() >= 2,
        ids.last() != ids[ids.len() - 2],
    ensures
        lagrange_coeff(swap_last(ids), j) == lagrange_coeff(ids, j),
{
    let q = field_q();
    let z = ids.drop_last().drop_last();
    let a = ids.last();
    let b = ids[ids.len() - 2];
    let y = swap_last(ids);
    assert(ids =~= z.push(b).push(a));
    assert(y.drop_last() =~= z.push(a));
    assert(ids.drop_last() =~= z.push(b));
    assert(z.push(a).drop_last() =~= z);
    assert(z.push(b).drop_last() =~= z);
    let nz = lagrange_num(z, j);
    let dz = lagrange_den(z, j);
    let ea = (a + q - j) % q;
    let eb = (b + q - j) % q;
    if j != a && j != b {
        lemma_mul_mod_noop_left(nz * b, a as int, q);
        lemma_mul_mod_noop_left(nz * a, b as int, q);
        assert(nz * b * a == nz * a * b) by (nonlinear_arith);
        lemma_mul_mod_noop_left(dz * eb, ea, q);
        lemma_mul_mod_noop_left(dz * ea, eb, q);
        assert(dz * eb * ea == dz * ea * eb) by (nonlinear_arith);
    }
    assert(lagrange_num(z.push(b), j) == if b == j { nz } else { (nz * b) % q });
    assert(lagrange_num(z.push(a), j) == if a == j { nz } else { (nz * a) % q });
    assert(lagrange_den(z.push(b), j) == if b == j { dz } else { (dz * eb) % q });
    assert(lagrange_den(z.push(a), j) == if a == j { dz } else { (dz * ea) % q });
    assert(lagrange_num(y, j) == lagrange_num(ids, j));
    assert(lagrange_den(y, j) == lagrange_den(ids, j));
}

/// Exchanging the last two points leaves the Lagrange sum unchanged.
proof fn lemma_swap_lsum(ids: Seq<u32>, c: Seq<int>)
    requires
        ids.len() >= 2,
        ids.last() != ids[ids.len() - 2],
    ensures
        lsum(swap_last(ids), c) == lsum(ids, c),
{
    let m = ids.len();
    let y = swap_last(ids);
    let fx = lterm(ids, c);
    let fy = lterm(y, c);
    assert forall|k: int| 0 <= k < m - 2 implies #[trigger] fy(k) == fx(k) by {
        assert(y[k] == ids[k]);
        lemma_swap_coeff(ids, ids[k]);
    }
    lemma_fsum_ext(fy, fx, (m - 2) as nat);
    lemma_swap_coeff(ids, ids[m - 1]);
    lemma_swap_coeff(ids, ids[m - 2]);
    assert(fy((m - 2) as int) == fx((m - 1) as int));
    assert(fy((m - 1) as int) == fx((m - 2) as int));
    assert(fsum(fx, (m - 1) as nat) == fsum(fx, (m - 2) as nat) + fx(m - 2));
    assert(fsum(fy, (m - 1) as nat) == fsum(fy, (m - 2) as nat) + fy(m - 2));
    assert(fsum(fx, m) == fsum(fx, (m - 1) as nat) + fx(m - 1));
    assert(fsum(fy, m) == fsum(fy, (m - 1) as nat) + fy(m - 1));
}

/// With one point, the coefficient is one and the sum is `c(0)` for a
/// constant `c`.
proof fn lemma_lsum_one_point(ids: Seq<u32>, c: Seq<int>)
    requires
        ids.len() == 1,
        c.len() <= 1,
    ensures
        lsum(ids, c) == pval(c, 0),
{
    let q = field_q();
    let x0 = ids[0];
    assert(ids.drop_last() =~= Seq::<u32>::empty());
    assert(lagrange_num(Seq::<u32>::empty(), x0) == 1);
    assert(lagrange_den(Seq::<u32>::empty(), x0) == 1);
    assert(lagrange_num(ids, x0) == 1);
    assert(lagrange_den(ids, x0) == 1);
    lemma1_pow((q - 2) as nat);
    lemma_small_mod(1, q as nat);
    assert(lagrange_coeff(ids, x0) == 1);
    if c.len() == 1 {
        assert(pval(c.drop_first(), x0 as int) == 0);
        assert(pval(c.drop_first(), 0) == 0);
    }
    let f = lterm(ids, c);
    assert(fsum(f, 0) == 0);
    assert(fsum(f, 1) == f(0));
}

/// Termwise congruent sums are congruent.
pub proof fn lemma_fsum_congr(f: spec_fn(int) -> int, g: spec_fn(int) -> int, n: nat, m: int)
    requires
        m > 0,
        forall|k: int| 0 <= k < n ==> #[trigger] f(k) % m == g(k) % m,
    ensures
        fsum(f, n) % m == fsum(g, n) % m,
    decreases n,
{
    if n > 0 {
        lemma_fsum_congr(f, g, (n - 1) as nat, m);
        lemma_add_mod_noop(fsum(f, (n - 1) as nat), f(n - 1), m);
        lemma_add_mod_noop(fsum(g, (n - 1) as nat), g(n - 1), m);
    }
}

/// `x - y = 0 (mod m)` gives `x = y (mod m)`.
pub proof fn lemma_mod_eq_from_diff(x: int, y: int, m: int)
    requires
        m > 0,
        (x - y) % m == 0,
    ensures
        x % m == y % m,
{
    lemma_sub_mod_noop(x, y, m);
    lemma_mod_bound(x, m);
    lemma_mod_bound(y, m);
    let d = x % m - y % m;
    if d > 0 {
        lemma_small_mod(d as nat, m as nat);
    } else if d < 0 {
        lemma_mod_add_multiples_vanish(d, m);
        lemma_small_mod((m + d) as nat, m as nat);
    }
}

proof fn lemma_pval_one(x: int)
    ensures
        pval(seq![1int], x) == 1,
{
    assert(seq![1int].drop_first() =~= Seq::<int>::empty());
    assert(pval(Seq::<int>::empty(), x) == 0);
    assert(pval(seq![1int], x) == 1 + x * pval(Seq::<int>::empty(), x));
}

proof fn lemma_pval_ident(x: int)
    ensures
        pval(seq![0int, 1int], x) == x,
{
    assert(seq![0int, 1int].drop_first() =~= seq![1int]);
    lemma_pval_one(x);
}

/// With `g = poly_quo(c, a)` for the last point `a`, and the other points
/// interpolating `g` at zero: `lsum(ids, c) - c(0) = c(a) (lsum(ids, 1) - 1)`
/// modulo `q`.
proof fn lemma_peel_last(ids: Seq<u32>, c: Seq<int>)
    requires
        points_ok(ids),
        ids.len() >= 2,
        lsum(ids.drop_last(), poly_quo(c, ids.last() as int)) % field_q() == pval(
            poly_quo(c, ids.last() as int),
            0,
        ) % field_q(),
    ensures
        (lsum(ids, c) - pval(c, 0)) % field_q() == (pval(c, ids.last() as int) * (lsum(ids, seq![1int]) - 1))
            % field_q(),
{
    let q = field_q();
    let m = ids.len();
    let a = ids.last() as int;
    let x1 = ids.drop_last();
    let g = poly_quo(c, a);
    let ca = pval(c, a);
    let one = seq![1int];
    let f = lterm(ids, c);
    let o = lterm(ids, one);
    let co = |k: int| ca * o(k);
    let gg = |k: int| lagrange_coeff(ids, ids[k]) * ((ids[k] - a) * pval(g, ids[k] as int));
    assert forall|k: int| 0 <= k < m implies #[trigger] f(k) == co(k) + gg(k) by {
        let x = ids[k] as int;
        lemma_poly_quo(c, a, x);
        lemma_pval_one(x);
        let ck = lagrange_coeff(ids, ids[k]);
        assert(ck * pval(c, x) == ca * (ck * 1) + ck * ((x - a) * pval(g, x))) by (nonlinear_arith)
            requires
                pval(c, x) == ca + (x - a) * pval(g, x),
        ;
    }
    lemma_fsum_add(co, gg, f, m);
    lemma_fsum_scale(o, co, ca, m);
    // the last term of gg vanishes
    assert(gg(m - 1) == 0) by {
        assert(ids[m - 1] - a == 0);
        assert(((ids[m - 1] - a) * pval(g, ids[m - 1] as int)) == 0);
    }
    assert(fsum(gg, m) == fsum(gg, (m - 1) as nat) + gg(m - 1));
    let t1 = lterm(x1, g);
    let na = |k: int| -a * t1(k);
    assert forall|k: int| 0 <= k < m - 1 implies #[trigger] gg(k) % q == na(k) % q by {
        let xk = ids[k];
        assert(x1[k] == xk);
        assert(xk != ids.last());
        lemma_coeff_step(ids, xk);
        let ck = lagrange_coeff(ids, xk);
        let c1 = lagrange_coeff(x1, xk);
        let gv = pval(g, xk as int);
        lemma_mul_congr(ck * (xk - a), -a * c1, gv, gv, q);
        assert(ck * ((xk - a) * gv) == (ck * (xk - a)) * gv) by (nonlinear_arith);
        assert((-a * c1) * gv == -a * (c1 * gv)) by (nonlinear_arith);
    }
    lemma_fsum_congr(gg, na, (m - 1) as nat, q);
    lemma_fsum_scale(t1, na, -a, (m - 1) as nat);
    let l1 = lsum(x1, g);
    let g0 = pval(g, 0);
    lemma_mul_congr(-a, -a, l1, g0, q);
    lemma_poly_quo(c, a, 0);
    let t = lsum(ids, one);
    let s = fsum(gg, m);
    assert(s % q == (-a * g0) % q);
    assert(lsum(ids, c) == ca * t + s);
    assert(pval(c, 0) == ca + (0 - a) * g0);
    assert((0 - a) * g0 == -a * g0) by (nonlinear_arith);
    assert(pval(c, 0) == ca + -a * g0);
    assert((lsum(ids, c) - pval(c, 0)) == ca * (t - 1) + (s - (-a * g0))) by (nonlinear_arith)
        requires
            lsum(ids, c) == ca * t + s,
            pval(c, 0) == ca + -a * g0,
    ;
    lemma_sub_mod_noop(s, -a * g0, q);
    lemma_small_mod(0, q as nat);
    lemma_add_mod_noop(ca * (t - 1), s - (-a * g0), q);
    lemma_mod_twice(ca * (t - 1), q);
}

/// Lagrange interpolation at zero: over distinct nonzero points below `q`,
/// the Lagrange sum of a polynomial with no more coefficients than points is
/// its constant term, modulo `q`.
pub proof fn lemma_lagrange_interpolates(ids: Seq<u32>, c: Seq<int>)
    requires
        points_ok(ids),
        1 <= ids.len(),
        c.len() <= ids.len(),
    ensures
        lsum(ids, c) % field_q() == pval(c, 0) % field_q(),
    decreases ids.len(),
{
    let q = field_q();
    if ids.len() == 1 {
        lemma_lsum_one_point(ids, c);
    } else {
        let m = ids.len();
        let a = ids.last();
        let b = ids[m - 2];
        let x1 = ids.drop_last();
        let y = swap_last(ids);
        let y1 = y.drop_last();
        assert(points_ok(x1));
        assert(y.last() == b);
        assert(y[m - 2] == a);
        assert forall|k: int| 0 <= k < m - 2 implies #[trigger] y[k] == ids[k] by {}
        assert(points_ok(y)) by {
            assert forall|k: int, l: int| 0 <= k < l < m implies y[k] != y[l] by {
                if l == m - 1 {
                    if k == m - 2 {
                    } else {
                        assert(ids[k] != ids[m - 2]);
                    }
                } else if l == m - 2 {
                    assert(ids[k] != ids[m - 1]);
                } else {
                    assert(ids[k] != ids[l]);
                }
            }
            assert forall|k: int| 0 <= k < m implies 0 < #[trigger] y[k] < field_q() by {
                if k == m - 1 {
                    assert(0 < ids[m - 2]);
                } else if k == m - 2 {
                    assert(0 < ids[m - 1] < field_q());
                } else {
                    assert(0 < ids[k] < field_q());
                }
            }
        }
        assert(points_ok(y1));
        assert(a != b);
        let ident = seq![0int, 1int];
        let one = seq![1int];
        lemma_poly_quo(c, a as int, 0);
        lemma_lagrange_interpolates(x1, poly_quo(c, a as int));
        lemma_peel_last(ids, c);
        lemma_poly_quo(ident, a as int, 0);
        lemma_lagrange_interpolates(x1, poly_quo(ident, a as int));
        lemma_peel_last(ids, ident);
        lemma_poly_quo(ident, b as int, 0);
        lemma_lagrange_interpolates(y1, poly_quo(ident, b as int));
        lemma_peel_last(y, ident);
        lemma_swap_lsum(ids, ident);
        lemma_swap_lsum(ids, one);
        lemma_pval_ident(0);
        lemma_pval_ident(a as int);
        lemma_pval_ident(b as int);
        let t = lsum(ids, one);
        let li = lsum(ids, ident);
        assert(li % q == (a * (t - 1)) % q);
        assert(li % q == (b * (t - 1)) % q);
        lemma_sub_mod_noop(a * (t - 1), b * (t - 1), q);
        lemma_small_mod(0, q as nat);
        assert(a * (t - 1) - b * (t - 1) == (a - b) * (t - 1)) by (nonlinear_arith);
        assert(((a - b) * (t - 1)) % q == 0);
        lemma_diff_nonzero(a as int, b as int);
        lemma_mod_bound(a - b, q);
        lemma_mul_mod_noop_left(a - b, t - 1, q);
        lemma_q_prime();
        lemma_euclid(q, (a - b) % q, t - 1);
        let ca = pval(c, a as int);
        lemma_mul_mod_noop_right(ca, t - 1, q);
        lemma_mod_eq_from_diff(lsum(ids, c), pval(c, 0), q);
    }
}

/// The coefficients as integers.
pub open spec fn int_coeffs(c: Seq<u32>) -> Seq<int> {
    c.map_values(|v: u32| v as int)
}

proof fn lemma_poly_value_pval(c: Seq<u32>, x: int)
    ensures
        poly_value(c, x) == pval(int_coeffs(c), x),
    decreases c.len(),
{
    if c.len() > 0 {
        assert(int_coeffs(c).drop_first() =~= int_coeffs(c.drop_first()));
        lemma_poly_value_pval(c.drop_first(), x);
    }
}

/// The Lagrange denominator of a point `j` is invertible when all points lie
/// in `(0, q)`.
pub proof fn lemma_den_nonzero(ids: Seq<u32>, j: u32)
    requires
        forall|k: int| 0 <= k < ids.len() ==> 0 < #[trigger] ids[k] < field_q(),
        0 < j < field_q(),
    ensures
        lagrange_den(ids, j) % field_q() != 0,
    decreases ids.len(),
{
    let q = field_q();
    lemma_small_mod(1, q as nat);
    if ids.len() > 0 {
        let x1 = ids.drop_last();
        assert forall|k: int| 0 <= k < x1.len() implies 0 < #[trigger] x1[k] < field_q() by {
            assert(x1[k] == ids[k]);
        }
        lemma_den_nonzero(x1, j);
        let a = ids.last();
        if a != j {
            assert(0 < ids[ids.len() - 1] < q);
            lemma_diff_nonzero(a as int, j as int);
            let e = (a + q - j) % q;
            lemma_mod_twice(a + q - j, q);
            lemma_q_prime();
            lemma_prime_product_nonzero(q, lagrange_den(x1, j), e);
            lemma_mod_twice(lagrange_den(x1, j) * e, q);
        }
    }
}

/// The terms `lambda_k y_k` of `lagrange_sum`.
pub open spec fn share_terms(shares: Seq<Share>, ids: Seq<u32>) -> spec_fn(int) -> int {
    |k: int| lagrange_coeff(ids, shares[k].x) * shares[k].y
}

pub proof fn lemma_lagrange_sum_fsum(shares: Seq<Share>, ids: Seq<u32>)
    ensures
        lagrange_sum(shares, ids) == fsum(share_terms(shares, ids), shares.len()) % field_q(),
    decreases shares.len(),
{
    let q = field_q();
    if shares.len() == 0 {
        lemma_small_mod(0, q as nat);
    } else {
        let s1 = shares.drop_last();
        let n = shares.len();
        lemma_lagrange_sum_fsum(s1, ids);
        lemma_fsum_ext(share_terms(s1, ids), share_terms(shares, ids), (n - 1) as nat);
        let f = share_terms(shares, ids);
        assert(f(n - 1) == lagrange_coeff(ids, shares.last().x) * shares.last().y);
        lemma_add_mod_noop(fsum(f, (n - 1) as nat), f(n - 1), q);
        lemma_mod_twice(fsum(f, (n - 1) as nat), q);
        lemma_mod_twice(f(n - 1), q);
        lemma_add_mod_noop(fsum(f, (n - 1) as nat) % q, f(n - 1) % q, q);
    }
}

/// Shamir reconstruction: any `t + 1` or more shares, at distinct points, of
/// a degree-`t` sharing of `secret` give `secret mod q` back (and admit
/// their Lagrange coefficients).
pub proof fn lemma_shamir_reconstructs(
    shares: Seq<Share>,
    secret: u32,
    t: usize,
    n: usize,
    picked: Seq<Share>,
)
    requires
        is_shamir_sharing(shares, secret, t, n),
        n < field_q(),
        picked.len() > t,
        forall|k: int| 0 <= k < picked.len() ==> shares.contains(#[trigger] picked[k]),
        forall|k: int, l: int| 0 <= k < l < picked.len() ==> picked[k].x != picked[l].x,
    ensures
        lagrange_defined(share_points(picked)),
        lagrange_sum(picked, share_points(picked)) == secret as int % field_q(),
{
    let q = field_q();
    let coeffs = choose|coeffs: Seq<u32>|
        {
            &&& coeffs.len() == t + 1
            &&& coeffs[0] == secret as int % field_q()
            &&& forall|i: int| 0 <= i < coeffs.len() ==> coeffs[i] < field_q()
            &&& forall|i: int|
                0 <= i < n ==> #[trigger] shares[i] == (Share {
                    x: (i + 1) as u32,
                    y: (poly_value(coeffs, i + 1) % field_q()) as u32,
                })
        };
    let ids = share_points(picked);
    let c = int_coeffs(coeffs);
    assert forall|k: int| 0 <= k < picked.len() implies 0 < #[trigger] ids[k] < field_q() && picked[k].y
        == poly_value(coeffs, picked[k].x as int) % field_q() by {
        assert(shares.contains(picked[k]));
        let i = choose|i: int| 0 <= i < shares.len() && shares[i] == picked[k];
        assert(shares[i] == picked[k]);
        lemma_mod_bound(poly_value(coeffs, i + 1), q);
    }
    assert(points_ok(ids));
    assert(lagrange_defined(ids)) by {
        assert forall|k: int| 0 <= k < ids.len() implies ids[k] <= field_q() && #[trigger] lagrange_den(
            ids,
            ids[k],
        ) % field_q() != 0 by {
            lemma_den_nonzero(ids, ids[k]);
        }
    }
    lemma_lagrange_interpolates(ids, c);
    let h = share_terms(picked, ids);
    let l = lterm(ids, c);
    assert forall|k: int| 0 <= k < picked.len() implies #[trigger] h(k) % q == l(k) % q by {
        let x = picked[k].x as int;
        lemma_poly_value_pval(coeffs, x);
        lemma_mod_twice(poly_value(coeffs, x), q);
        let lam = lagrange_coeff(ids, ids[k]);
        lemma_mul_congr(lam, lam, picked[k].y as int, pval(c, x), q);
    }
    lemma_fsum_congr(h, l, picked.len(), q);
    lemma_lagrange_sum_fsum(picked, ids);
    lemma_mod_twice(fsum(h, picked.len()), q);
    assert(c.drop_first().len() == t);
    assert(pval(c, 0) == c[0] + 0 * pval(c.drop_first(), 0));
    lemma_mod_twice(secret as int, q);
}

/// Reconstruction from consistent shares at any points: shares at
/// distinct nonzero points below `q` that lie on a polynomial with at most
/// as many coefficients as there are shares can be reconstructed, and give
/// its constant term modulo `q`.
pub proof fn lemma_reconstruct_at_any_points(shares: Seq<Share>, coeffs: Seq<u32>)
    requires
        points_ok(share_points(shares)),
        1 <= coeffs.len() <= shares.len(),
        forall|k: int| 0 <= k < shares.len() ==> (#[trigger] shares[k]).y == poly_value(coeffs, shares[k].x as int)
            % field_q(),
    ensures
        lagrange_defined(share_points(shares)),
        lagrange_sum(shares, share_points(shares)) == coeffs[0] as int % field_q(),
{
    let q = field_q();
    let ids = share_points(shares);
    let c = int_coeffs(coeffs);
    assert(lagrange_defined(ids)) by {
        assert forall|k: int| 0 <= k < ids.len() implies ids[k] <= field_q() && #[trigger] lagrange_den(
            ids,
            ids[k],
        ) % field_q() != 0 by {
            lemma_den_nonzero(ids, ids[k]);
        }
    }
    lemma_lagrange_interpolates(ids, c);
    let h = share_terms(shares, ids);
    let l = lterm(ids, c);
    assert forall|k: int| 0 <= k < shares.len() implies #[trigger] h(k) % q == l(k) % q by {
        let x = shares[k].x as int;
        assert(ids[k] == shares[k].x);
        lemma_poly_value_pval(coeffs, x);
        lemma_mod_twice(poly_value(coeffs, x), q);
        let lam = lagrange_coeff(ids, ids[k]);
        lemma_mul_congr(lam, lam, shares[k].y as int, pval(c, x), q);
    }
    lemma_fsum_congr(h, l, shares.len(), q);
    lemma_lagrange_sum_fsum(shares, ids);
    lemma_mod_twice(fsum(h, shares.len()), q);
    assert(pval(c, 0) == c[0] + 0 * pval(c.drop_first(), 0));
}

/// The local Lagrange weights at zero recover the constant term: over
/// distinct nonzero points below `q`, `sum_j lambda_j f(j) = f(0)` modulo
/// `q` for every polynomial `f` with at most as many coefficients as
/// there are points.
pub proof fn lemma_lagrange_weights_recover(ids: Seq<u32>, coeffs: Seq<u32>)
    requires
        points_ok(ids),
        1 <= coeffs.len() <= ids.len(),
    ensures
        fsum(|k: int| lagrange_coeff(ids, ids[k]) * (poly_value(coeffs, ids[k] as int) % field_q()), ids.len())
            % field_q() == coeffs[0] as int % field_q(),
{
    let q = field_q();
    let shares = Seq::new(ids.len(), |k: int| Share { x: ids[k], y: (poly_value(coeffs, ids[k] as int) % q) as u32 });
    assert(share_points(shares) =~= ids);
    assert forall|k: int| 0 <= k < shares.len() implies (#[trigger] shares[k]).y == poly_value(
        coeffs,
        shares[k].x as int,
    ) % field_q() by {
        lemma_mod_bound(poly_value(coeffs, ids[k] as int), q);
    }
    lemma_reconstruct_at_any_points(shares, coeffs);
    lemma_lagrange_sum_fsum(shares, ids);
    lemma_fsum_ext(
        share_terms(shares, ids),
        |k: int| lagrange_coeff(ids, ids[k]) * (poly_value(coeffs, ids[k] as int) % field_q()),
        ids.len(),
    );
}

/// Ring Shamir reconstruction: any `t + 1` or more shares, at distinct
/// points, of a degree-`t` ring sharing give every coefficient of the secret
/// back, modulo `q`.
pub proof fn lemma_ring_shamir_reconstructs(
    shares: Seq<RingShare>,
    secret: Ring,
    t: usize,
    n: usize,
    picked: Seq<RingShare>,
)
    requires
        is_ring_shamir_sharing(shares, secret, t, n),
        n < field_q(),
        picked.len() > t,
        forall|k: int| 0 <= k < picked.len() ==> shares.contains(#[trigger] picked[k]),
        forall|k: int, l: int| 0 <= k < l < picked.len() ==> picked[k].x != picked[l].x,
    ensures
        lagrange_defined(share_points(ring_column(picked, 0))),
        forall|c: int|
            0 <= c < 256 ==> lagrange_sum(#[trigger] ring_column(picked, c), share_points(ring_column(picked, 0)))
                == secret.data[c] as int % field_q(),
{
    assert forall|c: int| 0 <= c < 256 implies lagrange_defined(share_points(ring_column(picked, 0)))
        && lagrange_sum(#[trigger] ring_column(picked, c), share_points(ring_column(picked, 0)))
        == secret.data[c] as int % field_q() by {
        let col = ring_column(shares, c);
        let pc = ring_column(picked, c);
        assert(is_shamir_sharing(col, secret.data[c], t, n));
        assert forall|k: int| 0 <= k < pc.len() implies col.contains(#[trigger] pc[k]) by {
            assert(shares.contains(picked[k]));
            let i = choose|i: int| 0 <= i < shares.len() && shares[i] == picked[k];
            assert(col[i] == pc[k]);
        }
        assert(share_points(pc) =~= share_points(ring_column(picked, 0)));
        lemma_shamir_reconstructs(col, secret.data[c], t, n, pc);
    }
    assert(ring_column(picked, 0) == ring_column(picked, 0));
}

/// Vector Shamir reconstruction: any `t + 1` or more shares, at distinct
/// points, of a degree-`t` vector sharing give every coefficient of every
/// ring of the secret back, modulo `q`.
pub proof fn lemma_vector_shamir_reconstructs<const K: usize>(
    shares: Seq<VectorShare<K>>,
    secret: Vector<K>,
    t: usize,
    n: usize,
    picked: Seq<VectorShare<K>>,
)
    requires
        is_vector_shamir_sharing(shares, secret, t, n),
        n < field_q(),
        picked.len() > t,
        forall|k: int| 0 <= k < picked.len() ==> shares.contains(#[trigger] picked[k]),
        forall|k: int, l: int| 0 <= k < l < picked.len() ==> picked[k].x != picked[l].x,
    ensures
        K > 0 ==> lagrange_defined(share_points(vector_share_column(picked, 0, 0))),
        forall|i: int, c: int|
            0 <= i < K && 0 <= c < 256 ==> lagrange_sum(
                #[trigger] vector_share_column(picked, i, c),
                share_points(vector_share_column(picked, 0, 0)),
            ) == secret.data[i].data[c] as int % field_q(),
{
    assert forall|i: int, c: int| 0 <= i < K && 0 <= c < 256 implies lagrange_defined(
        share_points(vector_share_column(picked, 0, 0)),
    ) && lagrange_sum(
        #[trigger] vector_share_column(picked, i, c),
        share_points(vector_share_column(picked, 0, 0)),
    ) == secret.data[i].data[c] as int % field_q() by {
        let col = vector_share_column(shares, i, c);
        let pc = vector_share_column(picked, i, c);
        assert(is_shamir_sharing(col, secret.data[i].data[c], t, n));
        assert forall|k: int| 0 <= k < pc.len() implies col.contains(#[trigger] pc[k]) by {
            assert(shares.contains(picked[k]));
            let j = choose|j: int| 0 <= j < shares.len() && shares[j] == picked[k];
            assert(col[j] == pc[k]);
        }
        assert(share_points(pc) =~= share_points(vector_share_column(picked, 0, 0)));
        lemma_shamir_reconstructs(col, secret.data[i].data[c], t, n, pc);
    }
    if K > 0 {
        assert(lagrange_defined(share_points(vector_share_column(picked, 0, 0))) && lagrange_sum(
            vector_share_column(picked, 0, 0),
            share_points(vector_share_column(picked, 0, 0)),
        ) == secret.data[0].data[0] as int % field_q());
    }
}

} // verus!
