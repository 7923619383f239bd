//! The NTT of the ring is a bijection on reduced coefficients: besides
//! `intt(ntt(a)) = a`, also `ntt(intt(y)) = y`; and the forward NTT is linear
//! modulo `q`.
use vstd::prelude::*;
use vstd::arithmetic::power::*;
use vstd::arithmetic::div_mod::*;
use vstd::arithmetic::mul::*;
use crate::params::{ZETA, field_q};
use crate::util::bit_reverse_spec;
use crate::ring::{
    ntt_layer,
    ntt_layers,
    ntt_spec,
    intt_layer,
    intt_layers,
    intt_spec,
    is_layer_len,
    zeta_ntt_spec,
    scale_coeffs,
    coeffs_below,
    INV_128,
    lemma_twiddle_product,
    lemma_layer_bounds,
    lemma_block_index,
};

verus! {

/// The block of coefficient `i` in a layer of length `len`, and the facts
/// about its index range.
proof fn lemma_layer_block(len: int, i: int) -> (b: int)
    requires
        is_layer_len(len),
        len >= 2,
        0 <= i < 256,
    ensures
        b == i / (2 * len),
        0 <= b < 128int / len,
        i == 2 * len * b + i % (2 * len),
        0 <= i % (2 * len) < 2 * len,
        2 * len * b + 2 * len <= 256,
{
    let b = i / (2 * len);
    let p = i % (2 * len);
    lemma_fundamental_div_mod(i, 2 * len);
    lemma_mod_bound(i, 2 * len);
    lemma_div_pos_is_pos(i, 2 * len);
    assert(2 * len * b < 256) by (nonlinear_arith)
        requires
            i == 2 * len * b + p,
            0 <= p,
            i < 256,
    ;
    lemma_layer_bounds(len, b);
    assert(b < 128int / len) by {
        if len == 2 {
            assert(2 * len * b == 4 * b);
        } else if len == 4 {
            assert(2 * len * b == 8 * b);
        } else if len == 8 {
            assert(2 * len * b == 16 * b);
        } else if len == 16 {
            assert(2 * len * b == 32 * b);
        } else if len == 32 {
            assert(2 * len * b == 64 * b);
        } else if len == 64 {
            assert(2 * len * b == 128 * b);
        } else {
            assert(2 * len * b == 256 * b);
        }
    }
    b
}

/// An inverse layer followed by the forward layer of the same length doubles
/// every coefficient modulo q.
pub proof fn lemma_layer_inverse_rev(d: Seq<u32>, len: int)
    requires
        is_layer_len(len),
        len >= 2,
    ensures
        forall|i: int| 0 <= i < 256 ==> #[trigger] ntt_layer(intt_layer(d, len), len)[i] == ((2 * d[i]) % field_q()) as u32,
{
    let q = field_q();
    let e = intt_layer(d, len);
    assert forall|i: int| 0 <= i < 256 implies #[trigger] ntt_layer(e, len)[i] == ((2 * d[i]) % q) as u32 by {
        let b = lemma_layer_block(len, i);
        let p = i % (2 * len);
        lemma_twiddle_product(len, b);
        let zf = zeta_ntt_spec(128int / len + b);
        let zi = zeta_ntt_spec(256int / len - 1 - b);
        let (j0, j1) = if p < len { (i, i + len) } else { (i - len, i) };
        lemma_block_index(b, len, j0 - 2 * len * b);
        lemma_block_index(b, len, j1 - 2 * len * b);
        let u = d[j0] as int;
        let v = d[j1] as int;
        let a = (v + u) % q;
        let w = (zi * (q + v - u)) % q;
        assert(e[j0] == a);
        assert(e[j1] == w);
        let t = (zf * w) % q;
        // zf w = zf zi (v - u) = u - v (mod q)
        lemma_mul_mod_noop_right(zf, zi * (q + v - u), q);
        assert(zf * (zi * (q + v - u)) == (zf * zi) * (q + v - u)) by (nonlinear_arith);
        lemma_mul_mod_noop_left(zf * zi, q + v - u, q);
        assert((q - 1) * (q + v - u) == q * (q + v - u - 1) + (u - v)) by (nonlinear_arith);
        lemma_mod_multiples_vanish(q + v - u - 1, u - v, q);
        assert(t == (u - v) % q);
        if p < len {
            assert(ntt_layer(e, len)[i] == ((a + t) % q) as u32);
            lemma_add_mod_noop(v + u, u - v, q);
            lemma_mod_twice(v + u, q);
            lemma_mod_twice(u - v, q);
            lemma_add_mod_noop(a, t, q);
        } else {
            assert(ntt_layer(e, len)[i] == ((a + q - t) % q) as u32);
            lemma_mod_add_multiples_vanish(a - t, q);
            lemma_sub_mod_noop(v + u, u - v, q);
            lemma_mod_twice(v + u, q);
            lemma_mod_twice(u - v, q);
            lemma_sub_mod_noop(a, t, q);
        }
    }
}

/// A forward layer commutes with scaling by a constant modulo q.
proof fn lemma_ntt_layer_scale(x: Seq<u32>, k: int, len: int)
    requires
        is_layer_len(len),
        len >= 2,
    ensures
        ntt_layer(scale_coeffs(x, k), len) =~= scale_coeffs(ntt_layer(x, len), k),
{
    let q = field_q();
    let sx = scale_coeffs(x, k);
    assert forall|i: int| 0 <= i < 256 implies #[trigger] ntt_layer(sx, len)[i] == scale_coeffs(
        ntt_layer(x, len),
        k,
    )[i] by {
        let b = lemma_layer_block(len, i);
        let p = i % (2 * len);
        let z = zeta_ntt_spec(128int / len + b);
        let (j0, j1) = if p < len { (i, i + len) } else { (i - len, i) };
        let u = x[j0] as int;
        let v = x[j1] as int;
        let su = (k * u) % q;
        let sv = (k * v) % q;
        lemma_mul_mod_noop_right(z, k * v, q);
        assert(z * (k * v) == k * (z * v)) by (nonlinear_arith);
        lemma_mul_mod_noop_right(k, z * v, q);
        let tz = (z * v) % q;
        assert((z * sv) % q == (k * tz) % q);
        lemma_mul_mod_noop_right(k, tz, q);
        if p < len {
            lemma_add_mod_noop(su, (z * sv) % q, q);
            lemma_add_mod_noop(k * u, k * tz, q);
            lemma_mod_twice(k * u, q);
            lemma_mod_twice(k * tz, q);
            assert(k * u + k * tz == k * (u + tz)) by (nonlinear_arith);
            lemma_mul_mod_noop_right(k, u + tz, q);
        } else {
            lemma_mod_add_multiples_vanish(su - (z * sv) % q, q);
            lemma_sub_mod_noop(su, (z * sv) % q, q);
            lemma_sub_mod_noop(k * u, k * tz, q);
            lemma_mod_twice(k * u, q);
            lemma_mod_twice(k * tz, q);
            assert(k * u - k * tz == k * (u - tz)) by (nonlinear_arith);
            lemma_mod_add_multiples_vanish(u - tz, q);
            lemma_mul_mod_noop_right(k, u + q - tz, q);
            lemma_mul_mod_noop_right(k, u - tz, q);
        }
    }
}

/// The forward layers from `len` down commute with scaling modulo q.
proof fn lemma_ntt_layers_scale(x: Seq<u32>, k: int, len: int)
    requires
        is_layer_len(len),
    ensures
        ntt_layers(scale_coeffs(x, k), len) =~= scale_coeffs(ntt_layers(x, len), k),
    decreases len,
{
    if len >= 2 {
        lemma_ntt_layer_scale(x, k, len);
        lemma_ntt_layers_scale(ntt_layer(x, len), k, len / 2);
    }
}

/// Scaling twice is scaling by the product.
proof fn lemma_scale_scale(x: Seq<u32>, a: int, b: int)
    ensures
        scale_coeffs(scale_coeffs(x, a), b) =~= scale_coeffs(x, a * b),
{
    let q = field_q();
    assert forall|i: int| 0 <= i < 256 implies #[trigger] scale_coeffs(scale_coeffs(x, a), b)[i] == scale_coeffs(
        x,
        a * b,
    )[i] by {
        lemma_mul_mod_noop_right(b, a * x[i], q);
        assert(b * (a * x[i]) == (a * b) * x[i]) by (nonlinear_arith);
    }
}

/// The forward layers of lengths `128 .. 2` after the inverse layers of
/// lengths `len .. 128` amount to scaling by `256 / len`, then the forward
/// layers of lengths `len / 2 .. 2`.
proof fn lemma_intt_ntt_compose(x: Seq<u32>, len: int)
    requires
        is_layer_len(len) || len == 256,
        len >= 2,
        coeffs_below(x, field_q()),
        x.len() == 256,
    ensures
        ntt_layers(intt_layers(x, len), 128) == ntt_layers(scale_coeffs(x, 256int / len), len / 2),
    decreases 256 - len,
{
    let q = field_q();
    if len == 256 {
        assert(scale_coeffs(x, 1) =~= x) by {
            assert forall|i: int| 0 <= i < 256 implies #[trigger] scale_coeffs(x, 1)[i] == x[i] by {
                lemma_small_mod(x[i] as nat, q as nat);
            }
        }
    } else {
        let e = intt_layer(x, len);
        assert(coeffs_below(e, q)) by {
            assert forall|i: int| 0 <= i < e.len() implies #[trigger] e[i] < q by {
                let z = zeta_ntt_spec(256int / len - 1 - i / (2 * len));
                lemma_mod_bound(x[i + len] + x[i], q);
                lemma_mod_bound(z * (q + x[i] - x[i - len]), q);
            }
        }
        lemma_intt_ntt_compose(e, 2 * len);
        let c: int = 256int / (2 * len);
        assert(256int / len == 2 * c) by {
            if len == 2 {} else if len == 4 {} else if len == 8 {} else if len == 16 {}
            else if len == 32 {} else if len == 64 {} else {}
        }
        assert((2 * len) / 2 == len);
        lemma_ntt_layer_scale(e, c, len);
        lemma_layer_inverse_rev(x, len);
        assert(ntt_layer(e, len) =~= scale_coeffs(x, 2));
        lemma_scale_scale(x, 2, c);
    }
}

/// The forward NTT undoes the inverse NTT on coefficients in `[0, q)`.
pub proof fn lemma_ntt_intt_inverse(d: Seq<u32>)
    requires
        d.len() == 256,
        coeffs_below(d, field_q()),
    ensures
        ntt_spec(intt_spec(d)) =~= d,
{
    let q = field_q();
    let l = intt_layers(d, 2);
    let w = INV_128 as int;
    assert(intt_spec(d) =~= scale_coeffs(l, w)) by {
        assert forall|i: int| 0 <= i < 256 implies #[trigger] intt_spec(d)[i] == scale_coeffs(l, w)[i] by {
            lemma_mul_is_commutative(l[i] as int, w);
        }
    }
    lemma_ntt_layers_scale(l, w, 128);
    lemma_intt_ntt_compose(d, 2);
    assert(256int / 2 == 128);
    assert(ntt_layers(scale_coeffs(d, 128), 1) == scale_coeffs(d, 128));
    lemma_scale_scale(d, 128, w);
    assert forall|i: int| 0 <= i < 256 implies #[trigger] scale_coeffs(d, 128 * w)[i] == d[i] by {
        assert(128 * w * d[i] == d[i] * (128 * 682286673)) by (nonlinear_arith)
            requires
                w == 682286673,
        ;
        lemma_mul_mod_noop_right(d[i] as int, 128int * 682286673, q);
        assert((128 * 682286673) % 687659009 == 1);
        lemma_small_mod(d[i] as nat, q as nat);
    }
}

} // verus!
