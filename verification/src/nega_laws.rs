//! The negacyclic product over the integers (coefficients of
//! `Z[X]/(X^256 + 1)`) is commutative and associative. Both follow from
//! writing the product as a sum over one period of the antiperiodic
//! extension of the factors (`X^(e + 256) = -X^e`).
use vstd::prelude::*;
use vstd::arithmetic::div_mod::*;
use vstd::arithmetic::mul::*;
use crate::arith::{range_sum, lemma_range_sum_split, lemma_range_sum_ext, lemma_range_sum_shift, lemma_range_sum_reverse};
use crate::field_laws::{fsum, lemma_fsum_ext, lemma_fsum_add, lemma_fsum_scale};
use crate::kpke_laws::lemma_fsum_swap;
use crate::lagrange_laws::{lemma_fsum_congr, lemma_mul_congr};
use crate::negacyclic::{nega_term, nega_partial, nega_dot, ints32};

verus! {

/// Coefficient `e` of the antiperiodic extension of `y`: `y[e mod 256]`,
/// negated for every wrap past a multiple of 256.
pub open spec fn ext(y: Seq<int>, e: int) -> int {
    if (e / 256) % 2 == 0 {
        y[e % 256]
    } else {
        -y[e % 256]
    }
}

/// Coefficient `c` of the negacyclic product of `x` and `y` over the
/// integers.
pub open spec fn nconv(x: Seq<int>, y: Seq<int>, c: int) -> int {
    range_sum(|a: int| x[a] * ext(y, c - a), 0, 256)
}

/// The negacyclic product of `x` and `y` over the integers.
pub open spec fn nprod(x: Seq<int>, y: Seq<int>) -> Seq<int> {
    Seq::new(256, |c: int| nconv(x, y, c))
}

/// The extension is antiperiodic.
pub proof fn lemma_ext_anti(y: Seq<int>, e: int)
    ensures
        ext(y, e + 256) == -ext(y, e),
{
    lemma_fundamental_div_mod(e, 256);
    lemma_mod_bound(e, 256);
    lemma_fundamental_div_mod_converse(e + 256, 256, e / 256 + 1, e % 256);
    let k = e / 256;
    if k % 2 == 0 {
        lemma_fundamental_div_mod_converse(k + 1, 2, k / 2, 1);
    } else {
        lemma_fundamental_div_mod(k, 2);
        lemma_fundamental_div_mod_converse(k + 1, 2, k / 2 + 1, 0);
    }
}

/// On one period the extension is the sequence itself.
pub proof fn lemma_ext_base(y: Seq<int>, e: int)
    requires
        0 <= e < 256,
    ensures
        ext(y, e) == y[e],
{
    lemma_fundamental_div_mod_converse(e, 256, 0, e);
}

/// Just below the period the extension is the negated sequence.
pub proof fn lemma_ext_below(y: Seq<int>, e: int)
    requires
        -256 <= e < 0,
    ensures
        ext(y, e) == -y[e + 256],
{
    lemma_ext_anti(y, e);
    lemma_ext_base(y, e + 256);
}

/// `range_sum` from zero is `fsum`.
pub proof fn lemma_range_fsum(f: spec_fn(int) -> int, n: nat)
    ensures
        range_sum(f, 0, n as int) == fsum(f, n),
    decreases n,
{
    if n > 0 {
        lemma_range_fsum(f, (n - 1) as nat);
    }
}

/// A sum over one window of a function of period 256 does not depend on
/// where the window starts.
pub proof fn lemma_periodic_window(f: spec_fn(int) -> int, s: int)
    requires
        forall|i: int| #[trigger] f(i + 256) == f(i),
    ensures
        range_sum(f, s, s + 256) == range_sum(f, 0, 256),
    decreases (if s >= 0 { s } else { -s }),
{
    if s > 0 {
        lemma_periodic_window(f, s - 1);
        lemma_range_sum_split(f, s - 1, s, s + 255);
        lemma_range_sum_split(f, s, s + 255, s + 256);
        assert(f(s - 1 + 256) == f(s - 1));
        assert(range_sum(f, s - 1, s) == f(s - 1)) by {
            assert(range_sum(f, s - 1, s - 1) == 0);
        }
        assert(range_sum(f, s + 255, s + 256) == f(s + 255)) by {
            assert(range_sum(f, s + 255, s + 255) == 0);
        }
    } else if s < 0 {
        lemma_periodic_window(f, s + 1);
        lemma_range_sum_split(f, s, s + 1, s + 256);
        lemma_range_sum_split(f, s + 1, s + 256, s + 257);
        assert(f(s + 256) == f(s));
        assert(range_sum(f, s, s + 1) == f(s)) by {
            assert(range_sum(f, s, s) == 0);
        }
        assert(range_sum(f, s + 256, s + 257) == f(s + 256)) by {
            assert(range_sum(f, s + 256, s + 256) == 0);
        }
    }
}

/// `nconv(x, y, c)` is the sum over one period of `ext(x, a) ext(y, c - a)`.
proof fn lemma_nconv_ext(x: Seq<int>, y: Seq<int>, c: int)
    ensures
        nconv(x, y, c) == range_sum(|a: int| ext(x, a) * ext(y, c - a), 0, 256),
{
    assert forall|a: int| 0 <= a < 256 implies #[trigger] (x[a] * ext(y, c - a)) == ext(x, a) * ext(y, c - a) by {
        lemma_ext_base(x, a);
    }
    lemma_range_sum_ext(|a: int| x[a] * ext(y, c - a), |a: int| ext(x, a) * ext(y, c - a), 0, 256);
}

/// `a -> ext(x, a) ext(y, c - a)` has period 256.
proof fn lemma_conv_term_periodic(x: Seq<int>, y: Seq<int>, c: int)
    ensures
        forall|a: int| #[trigger] (ext(x, a + 256) * ext(y, c - (a + 256))) == ext(x, a) * ext(y, c - a),
{
    assert forall|a: int| #[trigger] (ext(x, a + 256) * ext(y, c - (a + 256))) == ext(x, a) * ext(y, c - a) by {
        lemma_ext_anti(x, a);
        lemma_ext_anti(y, c - a - 256);
        assert(c - (a + 256) + 256 == c - a);
        let p = ext(x, a);
        let w = ext(y, c - a);
        assert((-p) * (-w) == p * w) by (nonlinear_arith);
    }
}

/// The negacyclic product is commutative.
pub proof fn lemma_nconv_comm(x: Seq<int>, y: Seq<int>, c: int)
    ensures
        nconv(x, y, c) == nconv(y, x, c),
{
    let g = |a: int| ext(x, a) * ext(y, c - a);
    let h = |b: int| ext(y, b) * ext(x, c - b);
    lemma_nconv_ext(x, y, c);
    lemma_nconv_ext(y, x, c);
    lemma_range_sum_reverse(g, 0, 256);
    let gr = |i: int| g(0 + 256 - 1 - i);
    let hs = |i: int| h(i + (c - 255));
    assert forall|i: int| 0 <= i < 256 implies #[trigger] gr(i) == hs(i) by {
        assert(c - (i + (c - 255)) == 255 - i);
        lemma_mul_is_commutative(ext(x, 255 - i), ext(y, c - 255 + i));
    }
    lemma_range_sum_ext(gr, hs, 0, 256);
    lemma_range_sum_shift(h, 0, 256, c - 255);
    lemma_conv_term_periodic(y, x, c);
    assert forall|i: int| #[trigger] h(i + 256) == h(i) by {
        assert(h(i + 256) == ext(y, i + 256) * ext(x, c - (i + 256)));
    }
    lemma_periodic_window(h, c - 255);
}

/// The period sum of `ext(y, a) ext(z, e - a)` is coefficient `e` of the
/// extension of the product, for `e` within one period of the base.
proof fn lemma_conv_window(y: Seq<int>, z: Seq<int>, e: int)
    requires
        -256 <= e < 256,
    ensures
        range_sum(|a: int| ext(y, a) * ext(z, e - a), 0, 256) == ext(nprod(y, z), e),
{
    let f = |a: int| ext(y, a) * ext(z, e - a);
    if e >= 0 {
        lemma_nconv_ext(y, z, e);
        lemma_ext_base(nprod(y, z), e);
    } else {
        let g = |a: int| ext(y, a) * ext(z, e + 256 - a);
        lemma_nconv_ext(y, z, e + 256);
        lemma_ext_below(nprod(y, z), e);
        assert forall|a: int| 0 <= a < 256 implies #[trigger] f(a) == -1 * g(a) by {
            lemma_ext_anti(z, e - a);
            assert(e - a + 256 == e + 256 - a);
            let p = ext(y, a);
            let w = ext(z, e + 256 - a);
            assert(p * (-w) == -1 * (p * w)) by (nonlinear_arith);
        }
        lemma_range_fsum(f, 256);
        lemma_range_fsum(g, 256);
        lemma_fsum_scale(g, f, -1, 256);
    }
}

/// The negacyclic product is associative.
pub proof fn lemma_nconv_assoc(x: Seq<int>, y: Seq<int>, z: Seq<int>, c: int)
    requires
        0 <= c < 256,
    ensures
        nconv(nprod(x, y), z, c) == nconv(x, nprod(y, z), c),
{
    let xy = nprod(x, y);
    let yz = nprod(y, z);
    let t = |a: int, b: int| x[b] * (ext(y, a - b) * ext(z, c - a));
    // left side: sum over a of (sum over b) times ext(z, c - a)
    let lhs = |a: int| xy[a] * ext(z, c - a);
    let lin = |a: int| fsum(|b: int| t(a, b), 256);
    assert forall|a: int| 0 <= a < 256 implies #[trigger] lhs(a) == lin(a) by {
        let inner = |b: int| x[b] * ext(y, a - b);
        lemma_range_fsum(inner, 256);
        assert(xy[a] == fsum(inner, 256));
        lemma_fsum_scale(inner, |b: int| ext(z, c - a) * inner(b), ext(z, c - a), 256);
        assert forall|b: int| 0 <= b < 256 implies #[trigger] (ext(z, c - a) * inner(b)) == t(a, b) by {
            let p = x[b];
            let w1 = ext(y, a - b);
            let w2 = ext(z, c - a);
            assert(w2 * (p * w1) == p * (w1 * w2)) by (nonlinear_arith);
        }
        lemma_fsum_ext(|b: int| ext(z, c - a) * inner(b), |b: int| t(a, b), 256);
        lemma_mul_is_commutative(xy[a], ext(z, c - a));
    }
    lemma_range_fsum(lhs, 256);
    lemma_fsum_ext(lhs, lin, 256);
    lemma_fsum_swap(t, 256, 256);
    // right side: sum over b of x[b] times ext(yz, c - b)
    let rhs = |b: int| x[b] * ext(yz, c - b);
    let rin = |b: int| fsum(|a: int| t(a, b), 256);
    assert forall|b: int| 0 <= b < 256 implies #[trigger] rin(b) == rhs(b) by {
        let k = |a: int| ext(y, a - b) * ext(z, c - a);
        lemma_fsum_scale(k, |a: int| t(a, b), x[b], 256);
        assert forall|a: int| #[trigger] k(a + 256) == k(a) by {
            lemma_ext_anti(y, a - b);
            lemma_ext_anti(z, c - a - 256);
            assert(a + 256 - b == a - b + 256);
            assert(c - (a + 256) + 256 == c - a);
            let w1 = ext(y, a - b);
            let w2 = ext(z, c - a);
            assert((-w1) * (-w2) == w1 * w2) by (nonlinear_arith);
        }
        lemma_periodic_window(k, b);
        lemma_range_sum_shift(k, 0, 256, b);
        let ks = |a: int| k(a + b);
        let cw = |a: int| ext(y, a) * ext(z, (c - b) - a);
        assert forall|a: int| 0 <= a < 256 implies #[trigger] ks(a) == cw(a) by {
            assert(a + b - b == a);
            assert(c - (a + b) == (c - b) - a);
        }
        lemma_range_sum_ext(ks, cw, 0, 256);
        lemma_conv_window(y, z, c - b);
        lemma_range_fsum(k, 256);
    }
    lemma_fsum_ext(rin, rhs, 256);
    lemma_range_fsum(rhs, 256);
}

proof fn lemma_nega_partial_sum(u: Seq<u32>, t: Seq<int>, c: int, a: int)
    requires
        0 <= a,
    ensures
        nega_partial(u, t, c, a) == range_sum(|i: int| nega_term(u, t, c, i), 0, a),
    decreases a,
{
    if a > 0 {
        lemma_nega_partial_sum(u, t, c, a - 1);
    }
}

/// The crate's partial negacyclic sums compute `nconv`.
pub proof fn lemma_nega_partial_nconv(u: Seq<u32>, t: Seq<int>, c: int)
    requires
        u.len() == 256,
        0 <= c < 256,
    ensures
        nega_partial(u, t, c, 256) == nconv(ints32(u), t, c),
{
    lemma_nega_partial_sum(u, t, c, 256);
    assert forall|a: int| 0 <= a < 256 implies #[trigger] nega_term(u, t, c, a) == ints32(u)[a] * ext(t, c - a) by {
        if a <= c {
            lemma_ext_base(t, c - a);
        } else {
            lemma_ext_below(t, c - a);
            assert(c - a + 256 == c + 256 - a);
            let p = u[a] as int;
            let w = t[c + 256 - a];
            assert(-(p * w) == p * (-w)) by (nonlinear_arith);
        }
    }
    lemma_range_sum_ext(|i: int| nega_term(u, t, c, i), |a: int| ints32(u)[a] * ext(t, c - a), 0, 256);
}

/// The crate's negacyclic inner products are sums of `nconv`.
pub proof fn lemma_nega_dot_nconv(x: Seq<Seq<u32>>, y: Seq<Seq<u32>>, c: int, j: nat)
    requires
        0 <= c < 256,
        forall|i: int| 0 <= i < j ==> (#[trigger] x[i]).len() == 256,
    ensures
        nega_dot(x, y, c, j as int) == fsum(|i: int| nconv(ints32(x[i]), ints32(y[i]), c), j),
    decreases j,
{
    if j > 0 {
        lemma_nega_dot_nconv(x, y, c, (j - 1) as nat);
        lemma_nega_partial_nconv(x[j - 1], ints32(y[j - 1]), c);
    }
}

/// The product is additive in its first factor.
pub proof fn lemma_nconv_sum_left(xs: spec_fn(int) -> Seq<int>, n: nat, x: Seq<int>, y: Seq<int>, c: int)
    requires
        forall|a: int| 0 <= a < 256 ==> #[trigger] x[a] == fsum(|i: int| xs(i)[a], n),
    ensures
        nconv(x, y, c) == fsum(|i: int| nconv(xs(i), y, c), n),
{
    let t = |a: int, i: int| xs(i)[a] * ext(y, c - a);
    let f = |a: int| x[a] * ext(y, c - a);
    assert forall|a: int| 0 <= a < 256 implies #[trigger] f(a) == fsum(|i: int| t(a, i), n) by {
        lemma_fsum_scale(|i: int| xs(i)[a], |i: int| ext(y, c - a) * xs(i)[a], ext(y, c - a), n);
        assert forall|i: int| 0 <= i < n implies #[trigger] (ext(y, c - a) * xs(i)[a]) == t(a, i) by {
            lemma_mul_is_commutative(ext(y, c - a), xs(i)[a]);
        }
        lemma_fsum_ext(|i: int| ext(y, c - a) * xs(i)[a], |i: int| t(a, i), n);
        lemma_mul_is_commutative(x[a], ext(y, c - a));
    }
    lemma_range_fsum(f, 256);
    lemma_fsum_ext(f, |a: int| fsum(|i: int| t(a, i), n), 256);
    lemma_fsum_swap(t, 256, n);
    assert forall|i: int| 0 <= i < n implies fsum(|a: int| t(a, i), 256) == #[trigger] nconv(xs(i), y, c) by {
        lemma_range_fsum(|a: int| xs(i)[a] * ext(y, c - a), 256);
        lemma_fsum_ext(|a: int| t(a, i), |a: int| xs(i)[a] * ext(y, c - a), 256);
    }
    lemma_fsum_ext(|i: int| fsum(|a: int| t(a, i), 256), |i: int| nconv(xs(i), y, c), n);
}

/// The product is additive in its second factor.
pub proof fn lemma_nconv_sum_right(ys: spec_fn(int) -> Seq<int>, n: nat, x: Seq<int>, y: Seq<int>, c: int)
    requires
        forall|a: int| 0 <= a < 256 ==> #[trigger] y[a] == fsum(|i: int| ys(i)[a], n),
    ensures
        nconv(x, y, c) == fsum(|i: int| nconv(x, ys(i), c), n),
{
    lemma_nconv_comm(x, y, c);
    lemma_nconv_sum_left(ys, n, y, x, c);
    assert forall|i: int| 0 <= i < n implies #[trigger] nconv(ys(i), x, c) == nconv(x, ys(i), c) by {
        lemma_nconv_comm(ys(i), x, c);
    }
    lemma_fsum_ext(|i: int| nconv(ys(i), x, c), |i: int| nconv(x, ys(i), c), n);
}

/// Congruent first factors give congruent products.
pub proof fn lemma_nconv_congr_left(x: Seq<int>, x2: Seq<int>, y: Seq<int>, c: int, m: int)
    requires
        m > 0,
        forall|a: int| 0 <= a < 256 ==> #[trigger] x[a] % m == x2[a] % m,
    ensures
        nconv(x, y, c) % m == nconv(x2, y, c) % m,
{
    let f = |a: int| x[a] * ext(y, c - a);
    let g = |a: int| x2[a] * ext(y, c - a);
    assert forall|a: int| 0 <= a < 256 implies #[trigger] f(a) % m == g(a) % m by {
        lemma_mul_congr(x[a], x2[a], ext(y, c - a), ext(y, c - a), m);
    }
    lemma_range_fsum(f, 256);
    lemma_range_fsum(g, 256);
    lemma_fsum_congr(f, g, 256, m);
}

/// Congruent second factors give congruent products.
pub proof fn lemma_nconv_congr_right(x: Seq<int>, y: Seq<int>, y2: Seq<int>, c: int, m: int)
    requires
        m > 0,
        forall|a: int| 0 <= a < 256 ==> #[trigger] y[a] % m == y2[a] % m,
    ensures
        nconv(x, y, c) % m == nconv(x, y2, c) % m,
{
    lemma_nconv_comm(x, y, c);
    lemma_nconv_comm(x, y2, c);
    lemma_nconv_congr_left(y, y2, x, c, m);
}

} // verus!
