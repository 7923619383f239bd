//! Arithmetic of the `Z_{2^k}` branch: negacyclic multiplication over
//! `Z[X]/(X^256 + 1)` and rounding compression for `q = 2^k`.
//!
//! Over a power-of-two modulus compression collapses to rounded shifts:
//! `compress_D(x) = round(x / 2^(k-D)) mod 2^D` and
//! `decompress_D(y) = y * 2^(k-D)`.
use vstd::prelude::*;
use vstd::arithmetic::power2::*;
use vstd::arithmetic::div_mod::*;
use vstd::arithmetic::mul::*;
use vstd::bits::*;
use crate::ring::{Ring, RingRepresentation, Vector, Matrix};
use crate::arith::{range_sum, lemma_range_sum_split, lemma_range_sum_ext, lemma_range_sum_shift, lemma_range_sum_reverse};
use crate::linalg::{DenseMatrix, DenseColumn, matrix_rows, matrix_width, matrix_shaped, column_entries, row_dot, row_abs_dot, zeros_matrix, matrix_get, matrix_set, zeros_column, column_len, column_get, column_set};

verus! {

pub const N: usize = 256;

/// `round(x / 2^(k-d)) mod 2^d`, the rounding addend wrapping at `2^32`;
/// for `d == k` the low `d` bits of `x`.
pub open spec fn compress_2k_spec(x: u32, d: u32, k: u32) -> int {
    if d == k {
        x as int % pow2(d as nat) as int
    } else {
        let s = (k - d) as nat;
        (((x + pow2((s - 1) as nat)) % 0x1_0000_0000) / pow2(s) as int) % pow2(d as nat) as int
    }
}

/// `y * 2^(k-d)`, truncated to 32 bits.
pub open spec fn decompress_2k_spec(y: u32, d: u32, k: u32) -> int {
    (y * pow2((k - d) as nat)) % 0x1_0000_0000
}

/// The widths for which compression is defined without overflow.
pub open spec fn compress_widths_ok(d: u32, k: u32) -> bool {
    d <= k && d < 32 && k - d < 32
}

proof fn lemma_mask_u32(d: u32)
    requires
        d < 32,
    ensures
        ((1u32 << d) - 1) as u32 == low_bits_mask(d as nat) as u32,
        (1u32 << d) as nat == pow2(d as nat),
{
    lemma_u32_pow2_no_overflow(d as nat);
    lemma_pow2_strictly_increases(d as nat, 32);
    lemma2_to64();
    lemma_u32_shl_is_mul(1, d);
    lemma_pow2_pos(d as nat);
}

/// Compress one coefficient of `[0, 2^k)` to `[0, 2^d)`.
pub fn compress_2k(x: u32, d: u32, k: u32) -> (r: u32)
    requires
        compress_widths_ok(d, k),
    ensures
        r == compress_2k_spec(x, d, k),
{
    proof {
        lemma_mask_u32(d);
        assert((1u32 << d) as nat == pow2(d as nat));
        lemma_pow2_pos(d as nat);
        assert((1u32 << d) >= 1);
    }
    let p: u32 = 1u32 << d;
    assert(p >= 1);
    let mask: u32 = p - 1;
    if d == k {
        proof {
            lemma_u32_low_bits_mask_is_mod(x, d as nat);
        }
        x & mask
    } else {
        let shift = k - d;
        proof {
            lemma_mask_u32((shift - 1) as u32);
        }
        let half = 1u32 << (shift - 1);
        let w = x.wrapping_add(half);
        let v = w >> shift;
        proof {
            lemma_u32_shr_is_div(w, shift);
            lemma_u32_low_bits_mask_is_mod(v, d as nat);
        }
        v & mask
    }
}

/// Decompress one coefficient from `[0, 2^d)` back to `[0, 2^k)`.
pub fn decompress_2k(y: u32, d: u32, k: u32) -> (r: u32)
    requires
        d <= k,
        k - d < 32,
    ensures
        r == decompress_2k_spec(y, d, k),
{
    let s = k - d;
    let r = y << s;
    proof {
        lemma_decompress_shift(y, s);
    }
    r
}

proof fn lemma_decompress_shift(y: u32, s: u32)
    requires
        s < 32,
    ensures
        (y << s) as int == (y * pow2(s as nat)) % 0x1_0000_0000,
{
    let w: u64 = y as u64;
    lemma_u64_pow2_no_overflow(s as nat);
    lemma_pow2_strictly_increases(s as nat, 32);
    lemma2_to64();
    lemma_mul_upper_bound(y as int, 0xffff_ffff, pow2(s as nat) as int, 0x1_0000_0000);
    lemma_u64_shl_is_mul(w, s as u64);
    let ws: u64 = w << (s as u64);
    assert((y << s) as u64 == ws % 0x1_0000_0000) by (bit_vector)
        requires w == y as u64, ws == w << (s as u64), s < 32;
}

/// Compress every coefficient of a coefficient-form ring.
pub fn compress_ring_2k(r: &Ring, d: u32, k: u32) -> (out: Ring)
    requires
        compress_widths_ok(d, k),
    ensures
        out.t == RingRepresentation::Degree255,
        forall|c: int| 0 <= c < 256 ==> out.data[c] == compress_2k_spec(r.data[c], d, k),
{
    let mut out = Ring::zeroes_degree255();
    let mut c: usize = 0;
    while c < N
        invariant
            c <= N,
            compress_widths_ok(d, k),
            out.t == RingRepresentation::Degree255,
            forall|cc: int| 0 <= cc < c ==> out.data[cc] == compress_2k_spec(r.data[cc], d, k),
        decreases N - c,
    {
        out.data[c] = compress_2k(r.data[c], d, k);
        c = c + 1;
    }
    out
}

/// Decompress every coefficient of a ring of `d`-bit values.
pub fn decompress_ring_2k(r: &Ring, d: u32, k: u32) -> (out: Ring)
    requires
        d <= k,
        k - d < 32,
    ensures
        out.t == RingRepresentation::Degree255,
        forall|c: int| 0 <= c < 256 ==> out.data[c] == decompress_2k_spec(r.data[c], d, k),
{
    let mut out = Ring::zeroes_degree255();
    let mut c: usize = 0;
    while c < N
        invariant
            c <= N,
            d <= k,
            k - d < 32,
            out.t == RingRepresentation::Degree255,
            forall|cc: int| 0 <= cc < c ==> out.data[cc] == decompress_2k_spec(r.data[cc], d, k),
        decreases N - c,
    {
        out.data[c] = decompress_2k(r.data[c], d, k);
        c = c + 1;
    }
    out
}

/// Compress every ring of a vector.
pub fn compress_vector_2k<const K: usize>(v: &Vector<K>, d: u32, k: u32) -> (out: Vector<K>)
    requires
        compress_widths_ok(d, k),
    ensures
        forall|i: int, c: int|
            0 <= i < K && 0 <= c < 256 ==> #[trigger] out.data[i].data[c] == compress_2k_spec(
                v.data[i].data[c],
                d,
                k,
            ),
        forall|i: int| 0 <= i < K ==> (#[trigger] out.data[i]).t == RingRepresentation::Degree255,
{
    let mut out = Vector::<K>::new_degree255();
    let mut i: usize = 0;
    while i < K
        invariant
            i <= K,
            compress_widths_ok(d, k),
            forall|a: int, c: int|
                0 <= a < i && 0 <= c < 256 ==> #[trigger] out.data[a].data[c] == compress_2k_spec(
                    v.data[a].data[c],
                    d,
                    k,
                ),
            forall|a: int| 0 <= a < K ==> (#[trigger] out.data[a]).t == RingRepresentation::Degree255,
        decreases K - i,
    {
        out.data[i] = compress_ring_2k(&v.data[i], d, k);
        i = i + 1;
    }
    out
}

/// Decompress every ring of a vector.
pub fn decompress_vector_2k<const K: usize>(v: &Vector<K>, d: u32, k: u32) -> (out: Vector<K>)
    requires
        d <= k,
        k - d < 32,
    ensures
        forall|i: int, c: int|
            0 <= i < K && 0 <= c < 256 ==> #[trigger] out.data[i].data[c] == decompress_2k_spec(
                v.data[i].data[c],
                d,
                k,
            ),
        forall|i: int| 0 <= i < K ==> (#[trigger] out.data[i]).t == RingRepresentation::Degree255,
{
    let mut out = Vector::<K>::new_degree255();
    let mut i: usize = 0;
    while i < K
        invariant
            i <= K,
            d <= k,
            k - d < 32,
            forall|a: int, c: int|
                0 <= a < i && 0 <= c < 256 ==> #[trigger] out.data[a].data[c] == decompress_2k_spec(
                    v.data[a].data[c],
                    d,
                    k,
                ),
            forall|a: int| 0 <= a < K ==> (#[trigger] out.data[a]).t == RingRepresentation::Degree255,
        decreases K - i,
    {
        out.data[i] = decompress_ring_2k(&v.data[i], d, k);
        i = i + 1;
    }
    out
}

/// The representative of `v` modulo `m` in `(-m/2, m/2]`.
pub open spec fn centered_mod(v: int, m: int) -> int {
    if v % m > m / 2 {
        v % m - m
    } else {
        v % m
    }
}

/// Compressing to `d < k` bits and decompressing rounds to a multiple of
/// `2^(k-d)` below `2^k`, off by less than half a step: the error, taken
/// modulo `2^k` in `(-2^(k-1), 2^(k-1)]`, lies in `(-2^(k-d-1), 2^(k-d-1)]`.
pub proof fn lemma_decompress_compress_error_2k(x: u32, d: u32, k: u32)
    requires
        d < k <= 31,
        x < pow2(k as nat),
    ensures
        ({
            let y = decompress_2k_spec(compress_2k_spec(x, d, k) as u32, d, k);
            let s = (k - d) as nat;
            &&& y < pow2(k as nat)
            &&& y % (pow2(s) as int) == 0
            &&& -(pow2((s - 1) as nat) as int) < centered_mod(y - x, pow2(k as nat) as int) <= pow2((s - 1) as nat)
        }),
{
    let s = (k - d) as nat;
    let ps = pow2(s) as int;
    let h = pow2((s - 1) as nat) as int;
    let pd = pow2(d as nat) as int;
    let pk = pow2(k as nat) as int;
    lemma_pow2_adds(d as nat, s);
    assert((d as nat + s) as nat == k as nat);
    assert(pk == pd * ps);
    lemma_pow2_unfold(s);
    assert(ps == 2 * h);
    lemma2_to64();
    if k < 31 {
        lemma_pow2_strictly_increases(k as nat, 31);
    }
    assert(pk <= 0x8000_0000);
    lemma_pow2_pos(d as nat);
    lemma_pow2_pos((s - 1) as nat);
    assert(h <= pk / 2) by {
        assert(pd * ps >= ps) by (nonlinear_arith)
            requires
                pd >= 1,
                ps >= 1,
        ;
    }
    let xh = x + h;
    assert(xh < 0x1_0000_0000);
    lemma_small_mod(xh as nat, 0x1_0000_0000);
    let a = xh / ps;
    let r = xh % ps;
    lemma_fundamental_div_mod(xh, ps);
    lemma_mod_bound(xh, ps);
    lemma_div_pos_is_pos(xh, ps);
    assert(a <= pd) by (nonlinear_arith)
        requires
            xh == ps * a + r,
            0 <= r,
            xh < pk + h,
            pk == pd * ps,
            h < ps,
            ps >= 1,
    ;
    let c = a % pd;
    assert(compress_2k_spec(x, d, k) == c);
    lemma_mod_bound(a, pd);
    assert(c < 0x1_0000_0000);
    assert(c * ps < pk && c * ps >= 0) by (nonlinear_arith)
        requires
            0 <= c < pd,
            pk == pd * ps,
            ps >= 1,
    ;
    let y = decompress_2k_spec(c as u32, d, k);
    lemma_small_mod((c * ps) as nat, 0x1_0000_0000);
    assert(y == c * ps);
    lemma_mod_multiples_basic(c, ps);
    // the error is h - r modulo 2^k
    let e = h - r;
    if a < pd {
        lemma_small_mod(a as nat, pd as nat);
        assert(y - x == e) by (nonlinear_arith)
            requires
                xh == ps * a + r,
                y == c * ps,
                c == a,
                xh == x + h,
                e == h - r,
        ;
    } else {
        assert(a == pd);
        lemma_mod_self_0(pd);
        assert(c == 0);
        assert(c * ps == 0) by (nonlinear_arith)
            requires
                c == 0,
        ;
        assert(y - x == e - pk) by (nonlinear_arith)
            requires
                xh == ps * a + r,
                a == pd,
                pk == pd * ps,
                y == 0,
                xh == x + h,
                e == h - r,
        ;
        lemma_mod_sub_multiples_vanish(e, pk);
    }
    assert((y - x) % pk == e % pk);
    if e >= 0 {
        lemma_small_mod(e as nat, pk as nat);
    } else {
        lemma_mod_add_multiples_vanish(e, pk);
        lemma_small_mod((e + pk) as nat, pk as nat);
    }
}

/// Decompressing a `d`-bit value and compressing it again gives the value
/// back, for widths `d <= k <= 32`.
pub proof fn lemma_compress_decompress_2k(y: u32, d: u32, k: u32)
    requires
        compress_widths_ok(d, k),
        k <= 32,
        y < pow2(d as nat),
    ensures
        compress_2k_spec(decompress_2k_spec(y, d, k) as u32, d, k) == y,
{
    let s = (k - d) as nat;
    let ps = pow2(s) as int;
    let pd = pow2(d as nat) as int;
    lemma_pow2_adds(d as nat, s);
    assert(pow2(k as nat) == pd * ps);
    lemma2_to64();
    if k < 32 {
        lemma_pow2_strictly_increases(k as nat, 32);
    }
    assert(pd * ps <= 0x1_0000_0000);
    lemma_pow2_pos(s);
    lemma_mul_inequality(y as int + 1, pd, ps);
    lemma_mul_is_distributive_add_other_way(ps, y as int, 1);
    assert(y * ps + ps <= pd * ps);
    lemma_small_mod((y * ps) as nat, 0x1_0000_0000);
    let z = decompress_2k_spec(y, d, k);
    assert(z == y * ps);
    assert(0 <= z < 0x1_0000_0000);
    assert((z as u32) as int == z);
    lemma_small_mod(y as nat, pd as nat);
    if d == k {
        assert(s == 0);
        assert(ps == 1);
        lemma_mul_basics(y as int);
        assert(z == y);
    } else {
        let h = pow2((s - 1) as nat) as int;
        lemma_pow2_adds((s - 1) as nat, 1);
        assert(h < ps);
        assert(z + h < 0x1_0000_0000);
        lemma_small_mod((z + h) as nat, 0x1_0000_0000);
        lemma_fundamental_div_mod_converse(z + h, ps, y as int, h);
        assert((z + h) / ps == y);
    }
}

/// The coefficients of a ring as `i128` values.
pub fn ring_to_i128_coeffs(r: &Ring) -> (out: [i128; N])
    ensures
        forall|i: int| 0 <= i < 256 ==> out[i] == r.data[i] as i128,
{
    let mut out = [0i128; N];
    let mut i: usize = 0;
    while i < N
        invariant
            i <= N,
            forall|a: int| 0 <= a < i ==> out[a] == r.data[a] as i128,
        decreases N - i,
    {
        out[i] = r.data[i] as i128;
        i = i + 1;
    }
    out
}

/// Term `a` of coefficient `c` of the negacyclic product `u * s` in
/// `Z[X]/(X^256 + 1)`: `u_a s_{c-a}`, or `-u_a s_{c+256-a}` past the wrap.
pub open spec fn nega_term(u: Seq<u32>, s: Seq<int>, c: int, a: int) -> int {
    if a <= c {
        u[a] * s[c - a]
    } else {
        -(u[a] * s[c + 256 - a])
    }
}

/// The values of `s` as integers.
pub open spec fn ints128(s: Seq<u128>) -> Seq<int> {
    Seq::new(s.len(), |i: int| s[i] as int)
}

/// The sum of the first `a` terms of coefficient `c` of `u * s`.
pub open spec fn nega_partial(u: Seq<u32>, s: Seq<int>, c: int, a: int) -> int
    decreases a,
{
    if a <= 0 {
        0
    } else {
        nega_partial(u, s, c, a - 1) + nega_term(u, s, c, a - 1)
    }
}

/// Every partial negacyclic sum of `a` terms is bounded by `a` times
/// `ub * bound` when the first factor lies in `[0, ub)` and the second in
/// `[0, bound]`.
pub proof fn lemma_nega_partial_bound(u: Seq<u32>, s: Seq<int>, c: int, a: int, ub: int, bound: int)
    requires
        0 <= c < 256,
        0 <= a <= 256,
        u.len() == 256,
        s.len() == 256,
        bound >= 0,
        forall|i: int| 0 <= i < 256 ==> #[trigger] u[i] < ub,
        forall|i: int| 0 <= i < 256 ==> 0 <= #[trigger] s[i] <= bound,
    ensures
        -(a * ub * bound) <= nega_partial(u, s, c, a) <= a * ub * bound,
    decreases a,
{
    if a > 0 {
        lemma_nega_partial_bound(u, s, c, a - 1, ub, bound);
        let b = if a - 1 <= c {
            c - (a - 1)
        } else {
            c + 256 - (a - 1)
        };
        let x = u[a - 1] as int;
        let y = s[b];
        assert(0 <= x * y <= ub * bound) by (nonlinear_arith)
            requires
                0 <= x < ub,
                0 <= y <= bound,
        ;
        assert(a * ub * bound == (a - 1) * ub * bound + ub * bound) by (nonlinear_arith);
    }
}

/// The values of `s` as integers.
pub open spec fn ints32(s: Seq<u32>) -> Seq<int> {
    Seq::new(s.len(), |i: int| s[i] as int)
}

/// Coefficient `c` of `sum_{i < j} x_i * y_i` in `Z[X]/(X^256 + 1)` over the
/// integers.
pub open spec fn nega_dot(x: Seq<Seq<u32>>, y: Seq<Seq<u32>>, c: int, j: int) -> int
    decreases j,
{
    if j <= 0 {
        0
    } else {
        nega_dot(x, y, c, j - 1) + nega_partial(x[j - 1], ints32(y[j - 1]), c, 256)
    }
}

proof fn lemma_nega_dot_bound(x: Seq<Seq<u32>>, y: Seq<Seq<u32>>, c: int, j: int)
    requires
        0 <= c < 256,
        j >= 0,
        forall|i: int| 0 <= i < j ==> (#[trigger] x[i]).len() == 256 && y[i].len() == 256,
    ensures
        -(j * 256 * 0x1_0000_0000 * 0xffff_ffff) <= nega_dot(x, y, c, j) <= j * 256 * 0x1_0000_0000
            * 0xffff_ffff,
    decreases j,
{
    if j > 0 {
        lemma_nega_dot_bound(x, y, c, j - 1);
        assert(x[j - 1].len() == 256 && y[j - 1].len() == 256);
        lemma_nega_partial_bound(x[j - 1], ints32(y[j - 1]), c, 256, 0x1_0000_0000, 0xffff_ffff);
    }
}

/// `x mod 2^k` (the Euclidean remainder), as a 32-bit value.
pub fn reduce_coeff_2k(x: i128, k: u32) -> (r: u32)
    requires
        k < 32,
    ensures
        r == (x as int) % (pow2(k as nat) as int),
{
    proof {
        lemma_u64_pow2_no_overflow(k as nat);
        lemma_pow2_strictly_increases(k as nat, 32);
        lemma2_to64();
        lemma_u64_shl_is_mul(1, k as u64);
        lemma_pow2_pos(k as nat);
    }
    let m: u64 = 1u64 << (k as u64);
    let mi = m as i128;
    let red: i128 = match x.checked_rem_euclid(mi) {
        Some(v) => v,
        None => 0,
    };
    proof {
        lemma_mod_bound(x as int, m as int);
    }
    red as u32
}


/// Entry `(k, j)` of the 256 x 256 negacyclic matrix of the polynomial with
/// coefficients `c`: `c_{k-j}` on and below the diagonal, `-c_{k-j+256}`
/// above it (`X^256 = -1`). Row `k` of this matrix times the coefficients of
/// `b` is coefficient `k` of `c * b` in `Z[X]/(X^256 + 1)`.
pub open spec fn nega_entry(c: Seq<int>, k: int, j: int) -> int {
    if k >= j {
        c[k - j]
    } else {
        -c[256 - (j - k)]
    }
}

/// The values of `s` as integers.
pub open spec fn ints_i128(s: Seq<i128>) -> Seq<int> {
    Seq::new(s.len(), |i: int| s[i] as int)
}

proof fn lemma_nega_partial_is_range_sum(u: Seq<u32>, s: Seq<int>, c: int, a: int)
    ensures
        nega_partial(u, s, c, a) == range_sum(|i: int| nega_term(u, s, c, i), 0, a),
    decreases a,
{
    if a > 0 {
        lemma_nega_partial_is_range_sum(u, s, c, a - 1);
    }
}

proof fn lemma_row_dot_is_range_sum(row: Seq<i128>, v: Seq<i128>, n: int)
    ensures
        row_dot(row, v, n) == range_sum(|i: int| row[i] * v[i], 0, n),
    decreases n,
{
    if n > 0 {
        lemma_row_dot_is_range_sum(row, v, n - 1);
    }
}

/// Row `c` of the negacyclic matrix of `u` times `s` is coefficient `c` of
/// the negacyclic product `u * s`.
pub proof fn lemma_nega_row(u: Seq<u32>, s: Seq<int>, c: int)
    requires
        u.len() == 256,
        s.len() == 256,
        0 <= c < 256,
    ensures
        range_sum(|j: int| nega_entry(ints32(u), c, j) * s[j], 0, 256) == nega_partial(u, s, c, 256),
{
    let f = |j: int| nega_entry(ints32(u), c, j) * s[j];
    let h = |a: int| nega_term(u, s, c, a);
    lemma_nega_partial_is_range_sum(u, s, c, 256);
    lemma_range_sum_split(f, 0, c + 1, 256);
    lemma_range_sum_split(h, 0, c + 1, 256);
    lemma_range_sum_reverse(f, 0, c + 1);
    lemma_range_sum_ext(|i: int| f(0 + (c + 1) - 1 - i), h, 0, c + 1);
    lemma_range_sum_reverse(f, c + 1, 256);
    assert forall|i: int| c + 1 <= i < 256 implies #[trigger] f((c + 1) + 256 - 1 - i) == h(i) by {
        let j = (c + 1) + 256 - 1 - i;
        assert(c < j < 256);
        assert(256 - (j - c) == i);
        assert(ints32(u)[i] == u[i] as int);
        assert(nega_entry(ints32(u), c, j) == -(u[i] as int));
        let x = u[i] as int;
        let y = s[j];
        assert((-x) * y == -(x * y)) by (nonlinear_arith);
    }
    lemma_range_sum_ext(|i: int| f((c + 1) + 256 - 1 - i), h, c + 1, 256);
}

/// A row made of `m` negacyclic blocks, `nega(x_b)` in block `b`, times a
/// column made of the `m` polynomials `y_b`, is coefficient `k` of
/// `sum_b x_b * y_b`.
pub proof fn lemma_block_row_dot(row: Seq<i128>, v: Seq<i128>, xs: Seq<Seq<u32>>, ys: Seq<Seq<u32>>, k: int, m: int)
    requires
        0 <= k < 256,
        m >= 0,
        row.len() >= 256 * m,
        v.len() >= 256 * m,
        forall|b: int| 0 <= b < m ==> (#[trigger] xs[b]).len() == 256 && ys[b].len() == 256,
        forall|r: int|
            0 <= r < 256 * m ==> #[trigger] row[r] == nega_entry(ints32(xs[r / 256]), k, r % 256) && v[r] == ys[r
                / 256][r % 256],
    ensures
        row_dot(row, v, 256 * m) == nega_dot(xs, ys, k, m),
    decreases m,
{
    if m > 0 {
        let f = |i: int| row[i] * v[i];
        lemma_block_row_dot(row, v, xs, ys, k, m - 1);
        lemma_row_dot_is_range_sum(row, v, 256 * m);
        lemma_row_dot_is_range_sum(row, v, 256 * (m - 1));
        lemma_range_sum_split(f, 0, 256 * (m - 1), 256 * m);
        lemma_range_sum_shift(f, 0, 256, 256 * (m - 1));
        let u = xs[m - 1];
        let s = ints32(ys[m - 1]);
        let g = |j: int| nega_entry(ints32(u), k, j) * s[j];
        assert forall|j: int| 0 <= j < 256 implies #[trigger] f(j + 256 * (m - 1)) == g(j) by {
            let r = j + 256 * (m - 1);
            assert(r / 256 == m - 1 && r % 256 == j) by {
                lemma_fundamental_div_mod_converse(r, 256, m - 1, j);
            }
            assert(row[r] == nega_entry(ints32(xs[r / 256]), k, r % 256));
        }
        lemma_range_sum_ext(|j: int| f(j + 256 * (m - 1)), g, 0, 256);
        lemma_nega_row(u, s, k);
    }
}

/// `sum_{i < n} |row_i * v_i|` is at most `n * b1 * b2` when the row entries
/// lie in `[-b1, b1]` and the column entries in `[0, b2]`.
pub proof fn lemma_row_abs_dot_bound(row: Seq<i128>, v: Seq<i128>, n: int, b1: int, b2: int)
    requires
        0 <= n <= row.len(),
        n <= v.len(),
        b1 >= 0,
        b2 >= 0,
        forall|i: int| 0 <= i < n ==> -b1 <= #[trigger] row[i] <= b1 && 0 <= v[i] <= b2,
    ensures
        row_abs_dot(row, v, n) <= n * b1 * b2,
    decreases n,
{
    if n > 0 {
        lemma_row_abs_dot_bound(row, v, n - 1, b1, b2);
        let x = row[n - 1] as int;
        let y = v[n - 1] as int;
        assert(-(b1 * b2) <= x * y <= b1 * b2) by (nonlinear_arith)
            requires
                -b1 <= x <= b1,
                0 <= y <= b2,
        ;
        assert(n * b1 * b2 == (n - 1) * b1 * b2 + b1 * b2) by (nonlinear_arith);
    }
}


/// The 256 x 256 negacyclic matrix of the polynomial with coefficients
/// `coeffs`: multiplying it by a coefficient column multiplies the
/// polynomials in `Z[X]/(X^256 + 1)`.
pub fn negacyclic_matrix(coeffs: &[i128; N]) -> (m: DenseMatrix)
    requires
        forall|i: int| 0 <= i < 256 ==> #[trigger] coeffs[i] > i128::MIN,
    ensures
        matrix_shaped(m, 256, 256),
        forall|k: int, j: int|
            0 <= k < 256 && 0 <= j < 256 ==> #[trigger] matrix_rows(m)[k][j] == nega_entry(ints_i128(coeffs@), k, j),
{
    let mut m = zeros_matrix(N, N);
    let mut k: usize = 0;
    while k < N
        invariant
            k <= N,
            forall|i: int| 0 <= i < 256 ==> #[trigger] coeffs[i] > i128::MIN,
            matrix_shaped(m, 256, 256),
            forall|a: int, b: int|
                0 <= a < k && 0 <= b < 256 ==> #[trigger] matrix_rows(m)[a][b] == nega_entry(ints_i128(coeffs@), a, b),
        decreases N - k,
    {
        let mut j: usize = 0;
        while j < N
            invariant
                k < N,
                j <= N,
                forall|i: int| 0 <= i < 256 ==> #[trigger] coeffs[i] > i128::MIN,
                matrix_shaped(m, 256, 256),
                forall|a: int, b: int|
                    0 <= a < k && 0 <= b < 256 ==> #[trigger] matrix_rows(m)[a][b] == nega_entry(ints_i128(coeffs@), a, b),
                forall|b: int| 0 <= b < j ==> #[trigger] matrix_rows(m)[k as int][b] == nega_entry(ints_i128(coeffs@), k as int, b),
            decreases N - j,
        {
            let x = if k >= j {
                coeffs[k - j]
            } else {
                -coeffs[N - (j - k)]
            };
            matrix_set(&mut m, k, j, x);
            j = j + 1;
        }
        k = k + 1;
    }
    m
}

/// The negacyclic matrix of a ring in coefficient form.
pub fn ring_to_negacyclic(r: &Ring) -> (m: DenseMatrix)
    ensures
        matrix_shaped(m, 256, 256),
        forall|k: int, j: int|
            0 <= k < 256 && 0 <= j < 256 ==> #[trigger] matrix_rows(m)[k][j] == nega_entry(ints32(r.data@), k, j),
{
    let coeffs = ring_to_i128_coeffs(r);
    proof {
        assert(ints_i128(coeffs@) =~= ints32(r.data@));
    }
    negacyclic_matrix(&coeffs)
}

/// Copies the 256 x 256 matrix `sub` into block `(bi, bj)` of `big`, that
/// is rows `256 bi ..` and columns `256 bj ..`; every other entry stays.
fn place_block(big: &mut DenseMatrix, sub: &DenseMatrix, bi: usize, bj: usize)
    requires
        256 * bi + 256 <= matrix_rows(*old(big)).len() <= usize::MAX,
        256 * bj + 256 <= matrix_width(*old(big)) <= usize::MAX,
        forall|i: int|
            0 <= i < matrix_rows(*old(big)).len() ==> (#[trigger] matrix_rows(*old(big))[i]).len() == matrix_width(
                *old(big),
            ),
        matrix_shaped(*sub, 256, 256),
    ensures
        matrix_shaped(*final(big), matrix_rows(*old(big)).len(), matrix_width(*old(big))),
        forall|r: int, c: int|
            0 <= r < matrix_rows(*old(big)).len() && 0 <= c < matrix_width(*old(big)) ==> #[trigger] matrix_rows(
                *final(big),
            )[r][c] == if 256 * bi <= r < 256 * bi + 256 && 256 * bj <= c < 256 * bj + 256 {
                matrix_rows(*sub)[r - 256 * bi][c - 256 * bj]
            } else {
                matrix_rows(*old(big))[r][c]
            },
{
    let ghost rows0 = matrix_rows(*big);
    let ghost w = matrix_width(*big);
    let mut k: usize = 0;
    while k < N
        invariant
            k <= N,
            256 * bi + 256 <= rows0.len() <= usize::MAX,
            256 * bj + 256 <= w <= usize::MAX,
            matrix_shaped(*sub, 256, 256),
            matrix_shaped(*big, rows0.len(), w),
            forall|r: int, c: int|
                0 <= r < rows0.len() && 0 <= c < w ==> #[trigger] matrix_rows(*big)[r][c] == if 256 * bi <= r < 256
                    * bi + k && 256 * bj <= c < 256 * bj + 256 {
                    matrix_rows(*sub)[r - 256 * bi][c - 256 * bj]
                } else {
                    rows0[r][c]
                },
        decreases N - k,
    {
        let mut j: usize = 0;
        while j < N
            invariant
                k < N,
                j <= N,
                256 * bi + 256 <= rows0.len() <= usize::MAX,
                256 * bj + 256 <= w <= usize::MAX,
                matrix_shaped(*sub, 256, 256),
                matrix_shaped(*big, rows0.len(), w),
                forall|r: int, c: int|
                    0 <= r < rows0.len() && 0 <= c < w ==> #[trigger] matrix_rows(*big)[r][c] == if (256 * bi <= r < 256
                        * bi + k && 256 * bj <= c < 256 * bj + 256) || (r == 256 * bi + k && 256 * bj <= c < 256 * bj
                        + j) {
                        matrix_rows(*sub)[r - 256 * bi][c - 256 * bj]
                    } else {
                        rows0[r][c]
                    },
            decreases N - j,
        {
            let x = matrix_get(sub, k, j);
            matrix_set(big, N * bi + k, N * bj + j, x);
            j = j + 1;
        }
        k = k + 1;
    }
}


pub proof fn lemma_in_block(b: int, r: int)
    requires
        256 * b <= r < 256 * b + 256,
    ensures
        r / 256 == b,
        r % 256 == r - 256 * b,
{
    lemma_fundamental_div_mod_converse(r, 256, b, r - 256 * b);
}

proof fn lemma_square_size(k: int)
    requires
        k >= 0,
        256 * k * 256 * k * 16 <= isize::MAX,
    ensures
        256 * k <= isize::MAX,
        (256 * k) * (256 * k) * 16 <= isize::MAX,
{
    assert(256 * k <= 256 * k * 256 * k * 16) by (nonlinear_arith)
        requires
            k >= 0,
    ;
    assert((256 * k) * (256 * k) * 16 == 256 * k * 256 * k * 16) by (nonlinear_arith);
}

/// The (256 K) x (256 K) matrix whose block `(bi, bj)` is the negacyclic
/// matrix of the coefficients `blocks[bi][bj]`.
pub fn block_negacyclic_matrix<const K: usize>(blocks: &[[[i128; N]; K]; K]) -> (m: DenseMatrix)
    requires
        256 * K * 256 * K * 16 <= isize::MAX,
        forall|a: int, b: int, i: int|
            0 <= a < K && 0 <= b < K && 0 <= i < 256 ==> #[trigger] blocks[a][b][i] > i128::MIN,
    ensures
        matrix_shaped(m, 256 * K as nat, 256 * K as nat),
        forall|r: int, c: int|
            0 <= r < 256 * K && 0 <= c < 256 * K ==> #[trigger] matrix_rows(m)[r][c] == nega_entry(
                ints_i128(blocks[r / 256][c / 256]@),
                r % 256,
                c % 256,
            ),
{
    proof {
        lemma_square_size(K as int);
    }
    let dim = N * K;
    let mut big = zeros_matrix(dim, dim);
    let mut bi: usize = 0;
    while bi < K
        invariant
            bi <= K,
            dim == 256 * K,
            256 * K * 256 * K * 16 <= isize::MAX,
            forall|a: int, b: int, i: int|
                0 <= a < K && 0 <= b < K && 0 <= i < 256 ==> #[trigger] blocks[a][b][i] > i128::MIN,
            matrix_shaped(big, dim as nat, dim as nat),
            forall|r: int, c: int|
                0 <= r < 256 * bi && 0 <= c < dim ==> #[trigger] matrix_rows(big)[r][c] == nega_entry(
                    ints_i128(blocks[r / 256][c / 256]@),
                    r % 256,
                    c % 256,
                ),
        decreases K - bi,
    {
        let mut bj: usize = 0;
        while bj < K
            invariant
                bi < K,
                bj <= K,
                dim == 256 * K,
                256 * K * 256 * K * 16 <= isize::MAX,
                forall|a: int, b: int, i: int|
                    0 <= a < K && 0 <= b < K && 0 <= i < 256 ==> #[trigger] blocks[a][b][i] > i128::MIN,
                matrix_shaped(big, dim as nat, dim as nat),
                forall|r: int, c: int|
                    (0 <= r < 256 * bi && 0 <= c < dim) || (256 * bi <= r < 256 * bi + 256 && 0 <= c < 256 * bj)
                        ==> #[trigger] matrix_rows(big)[r][c] == nega_entry(
                        ints_i128(blocks[r / 256][c / 256]@),
                        r % 256,
                        c % 256,
                    ),
            decreases K - bj,
        {
            let sub = negacyclic_matrix(&blocks[bi][bj]);
            let ghost before = matrix_rows(big);
            place_block(&mut big, &sub, bi, bj);
            proof {
                assert forall|r: int, c: int|
                    (0 <= r < 256 * bi && 0 <= c < dim) || (256 * bi <= r < 256 * bi + 256 && 0 <= c < 256 * (bj + 1))
                        implies #[trigger] matrix_rows(big)[r][c] == nega_entry(
                        ints_i128(blocks[r / 256][c / 256]@),
                        r % 256,
                        c % 256,
                    ) by {
                    if 256 * bi <= r < 256 * bi + 256 && 256 * bj <= c < 256 * bj + 256 {
                        lemma_in_block(bi as int, r);
                        lemma_in_block(bj as int, c);
                    } else {
                        assert(matrix_rows(big)[r][c] == before[r][c]);
                    }
                }
            }
            bj = bj + 1;
        }
        bi = bi + 1;
    }
    big
}


/// The (256 K) x (256 K) matrix whose block `(bi, bj)` is the negacyclic
/// matrix of `a[bi][bj]` (coefficient form): the matrix form of `A s`.
pub fn matrix_to_block_negacyclic<const K: usize>(a: &Matrix<K>) -> (m: DenseMatrix)
    requires
        256 * K * 256 * K * 16 <= isize::MAX,
    ensures
        matrix_shaped(m, 256 * K as nat, 256 * K as nat),
        forall|r: int, c: int|
            0 <= r < 256 * K && 0 <= c < 256 * K ==> #[trigger] matrix_rows(m)[r][c] == nega_entry(
                ints32(a.data[r / 256][c / 256].data@),
                r % 256,
                c % 256,
            ),
{
    proof {
        lemma_square_size(K as int);
    }
    let dim = N * K;
    let mut big = zeros_matrix(dim, dim);
    let mut bi: usize = 0;
    while bi < K
        invariant
            bi <= K,
            dim == 256 * K,
            256 * K * 256 * K * 16 <= isize::MAX,
            matrix_shaped(big, dim as nat, dim as nat),
            forall|r: int, c: int|
                0 <= r < 256 * bi && 0 <= c < dim ==> #[trigger] matrix_rows(big)[r][c] == nega_entry(
                    ints32(a.data[r / 256][c / 256].data@),
                    r % 256,
                    c % 256,
                ),
        decreases K - bi,
    {
        let mut bj: usize = 0;
        while bj < K
            invariant
                bi < K,
                bj <= K,
                dim == 256 * K,
                256 * K * 256 * K * 16 <= isize::MAX,
                matrix_shaped(big, dim as nat, dim as nat),
                forall|r: int, c: int|
                    (0 <= r < 256 * bi && 0 <= c < dim) || (256 * bi <= r < 256 * bi + 256 && 0 <= c < 256 * bj)
                        ==> #[trigger] matrix_rows(big)[r][c] == nega_entry(
                        ints32(a.data[r / 256][c / 256].data@),
                        r % 256,
                        c % 256,
                    ),
            decreases K - bj,
        {
            let sub = ring_to_negacyclic(&a.data[bi][bj]);
            let ghost before = matrix_rows(big);
            place_block(&mut big, &sub, bi, bj);
            proof {
                assert forall|r: int, c: int|
                    (0 <= r < 256 * bi && 0 <= c < dim) || (256 * bi <= r < 256 * bi + 256 && 0 <= c < 256 * (bj + 1))
                        implies #[trigger] matrix_rows(big)[r][c] == nega_entry(
                        ints32(a.data[r / 256][c / 256].data@),
                        r % 256,
                        c % 256,
                    ) by {
                    if 256 * bi <= r < 256 * bi + 256 && 256 * bj <= c < 256 * bj + 256 {
                        lemma_in_block(bi as int, r);
                        lemma_in_block(bj as int, c);
                    } else {
                        assert(matrix_rows(big)[r][c] == before[r][c]);
                    }
                }
            }
            bj = bj + 1;
        }
        bi = bi + 1;
    }
    big
}

/// The block matrix of `A^T`: block `(bi, bj)` is the negacyclic matrix of
/// `a[bj][bi]`. Only the blocks swap; each block keeps its orientation.
pub fn matrix_to_block_negacyclic_transposed<const K: usize>(a: &Matrix<K>) -> (m: DenseMatrix)
    requires
        256 * K * 256 * K * 16 <= isize::MAX,
    ensures
        matrix_shaped(m, 256 * K as nat, 256 * K as nat),
        forall|r: int, c: int|
            0 <= r < 256 * K && 0 <= c < 256 * K ==> #[trigger] matrix_rows(m)[r][c] == nega_entry(
                ints32(a.data[c / 256][r / 256].data@),
                r % 256,
                c % 256,
            ),
{
    proof {
        lemma_square_size(K as int);
    }
    let dim = N * K;
    let mut big = zeros_matrix(dim, dim);
    let mut bi: usize = 0;
    while bi < K
        invariant
            bi <= K,
            dim == 256 * K,
            256 * K * 256 * K * 16 <= isize::MAX,
            matrix_shaped(big, dim as nat, dim as nat),
            forall|r: int, c: int|
                0 <= r < 256 * bi && 0 <= c < dim ==> #[trigger] matrix_rows(big)[r][c] == nega_entry(
                    ints32(a.data[c / 256][r / 256].data@),
                    r % 256,
                    c % 256,
                ),
        decreases K - bi,
    {
        let mut bj: usize = 0;
        while bj < K
            invariant
                bi < K,
                bj <= K,
                dim == 256 * K,
                256 * K * 256 * K * 16 <= isize::MAX,
                matrix_shaped(big, dim as nat, dim as nat),
                forall|r: int, c: int|
                    (0 <= r < 256 * bi && 0 <= c < dim) || (256 * bi <= r < 256 * bi + 256 && 0 <= c < 256 * bj)
                        ==> #[trigger] matrix_rows(big)[r][c] == nega_entry(
                        ints32(a.data[c / 256][r / 256].data@),
                        r % 256,
                        c % 256,
                    ),
            decreases K - bj,
        {
            let sub = ring_to_negacyclic(&a.data[bj][bi]);
            let ghost before = matrix_rows(big);
            place_block(&mut big, &sub, bi, bj);
            proof {
                assert forall|r: int, c: int|
                    (0 <= r < 256 * bi && 0 <= c < dim) || (256 * bi <= r < 256 * bi + 256 && 0 <= c < 256 * (bj + 1))
                        implies #[trigger] matrix_rows(big)[r][c] == nega_entry(
                        ints32(a.data[c / 256][r / 256].data@),
                        r % 256,
                        c % 256,
                    ) by {
                    if 256 * bi <= r < 256 * bi + 256 && 256 * bj <= c < 256 * bj + 256 {
                        lemma_in_block(bi as int, r);
                        lemma_in_block(bj as int, c);
                    } else {
                        assert(matrix_rows(big)[r][c] == before[r][c]);
                    }
                }
            }
            bj = bj + 1;
        }
        bi = bi + 1;
    }
    big
}

/// The 256 x (256 K) row of blocks whose block `j` is the negacyclic matrix
/// of `v[j]`: times the column of a vector `r` it gives `sum_j v_j * r_j`.
pub fn vector_to_row_negacyclic<const K: usize>(v: &Vector<K>) -> (m: DenseMatrix)
    requires
        256 * K * 256 * K * 16 <= isize::MAX,
    ensures
        matrix_shaped(m, 256, 256 * K as nat),
        forall|r: int, c: int|
            0 <= r < 256 && 0 <= c < 256 * K ==> #[trigger] matrix_rows(m)[r][c] == nega_entry(
                ints32(v.data[c / 256].data@),
                r,
                c % 256,
            ),
{
    proof {
        lemma_square_size(K as int);
        assert(256 * (256 * K) * 16 <= (256 * K) * (256 * K) * 16 || K == 0) by (nonlinear_arith);
    }
    let width = N * K;
    let mut row = zeros_matrix(N, width);
    let mut bj: usize = 0;
    while bj < K
        invariant
            bj <= K,
            width == 256 * K,
            matrix_shaped(row, 256, width as nat),
            forall|r: int, c: int|
                0 <= r < 256 && 0 <= c < 256 * bj ==> #[trigger] matrix_rows(row)[r][c] == nega_entry(
                    ints32(v.data[c / 256].data@),
                    r,
                    c % 256,
                ),
        decreases K - bj,
    {
        let sub = ring_to_negacyclic(&v.data[bj]);
        let ghost before = matrix_rows(row);
        place_block(&mut row, &sub, 0, bj);
        proof {
            assert forall|r: int, c: int| 0 <= r < 256 && 0 <= c < 256 * (bj + 1) implies #[trigger] matrix_rows(row)[r][c]
                == nega_entry(ints32(v.data[c / 256].data@), r, c % 256) by {
                if 256 * bj <= c {
                    lemma_in_block(bj as int, c);
                } else {
                    assert(matrix_rows(row)[r][c] == before[r][c]);
                }
            }
        }
        bj = bj + 1;
    }
    row
}

/// The coefficients of a vector of `K` rings stacked into one column of
/// length `256 K`: ring `i` fills entries `256 i ..`.
pub fn vector_to_column<const K: usize>(v: &Vector<K>) -> (col: DenseColumn)
    requires
        256 * K * 16 <= isize::MAX,
    ensures
        column_entries(col).len() == 256 * K,
        forall|r: int| 0 <= r < 256 * K ==> #[trigger] column_entries(col)[r] == v.data[r / 256].data[r % 256],
{
    let mut col = zeros_column(N * K);
    let mut i: usize = 0;
    while i < K
        invariant
            i <= K,
            256 * K * 16 <= isize::MAX,
            column_entries(col).len() == 256 * K,
            forall|r: int| 0 <= r < 256 * i ==> #[trigger] column_entries(col)[r] == v.data[r / 256].data[r % 256],
        decreases K - i,
    {
        let mut c: usize = 0;
        while c < N
            invariant
                i < K,
                c <= N,
                256 * K * 16 <= isize::MAX,
                column_entries(col).len() == 256 * K,
                forall|r: int|
                    0 <= r < 256 * i + c ==> #[trigger] column_entries(col)[r] == v.data[r / 256].data[r % 256],
            decreases N - c,
        {
            proof {
                lemma_in_block(i as int, 256 * i + c);
            }
            column_set(&mut col, N * i + c, v.data[i].data[c] as i128);
            c = c + 1;
        }
        i = i + 1;
    }
    col
}

/// The inverse of [`vector_to_column`]: the first `256 K` entries of `col`,
/// which must be `u32` values, as `K` rings in coefficient form.
pub fn column_to_vector<const K: usize>(col: &DenseColumn) -> (v: Vector<K>)
    requires
        256 * K <= usize::MAX,
        column_entries(*col).len() >= 256 * K,
        forall|r: int| 0 <= r < 256 * K ==> 0 <= #[trigger] column_entries(*col)[r] <= u32::MAX,
    ensures
        forall|i: int| 0 <= i < K ==> (#[trigger] v.data[i]).t == RingRepresentation::Degree255,
        forall|i: int, c: int|
            0 <= i < K && 0 <= c < 256 ==> #[trigger] v.data[i].data[c] == column_entries(*col)[256 * i + c],
{
    let mut v = Vector::<K>::new_degree255();
    let mut i: usize = 0;
    while i < K
        invariant
            i <= K,
            256 * K <= usize::MAX,
            column_entries(*col).len() >= 256 * K,
            forall|r: int| 0 <= r < 256 * K ==> 0 <= #[trigger] column_entries(*col)[r] <= u32::MAX,
            forall|a: int| 0 <= a < K ==> (#[trigger] v.data[a]).t == RingRepresentation::Degree255,
            forall|a: int, c: int|
                0 <= a < i && 0 <= c < 256 ==> #[trigger] v.data[a].data[c] == column_entries(*col)[256 * a + c],
        decreases K - i,
    {
        let mut c: usize = 0;
        while c < N
            invariant
                i < K,
                c <= N,
                256 * K <= usize::MAX,
                column_entries(*col).len() >= 256 * K,
                forall|r: int| 0 <= r < 256 * K ==> 0 <= #[trigger] column_entries(*col)[r] <= u32::MAX,
                forall|a: int| 0 <= a < K ==> (#[trigger] v.data[a]).t == RingRepresentation::Degree255,
                forall|a: int, b: int|
                    0 <= a < i && 0 <= b < 256 ==> #[trigger] v.data[a].data[b] == column_entries(*col)[256 * a + b],
                forall|b: int| 0 <= b < c ==> #[trigger] v.data[i as int].data[b] == column_entries(*col)[256 * i + b],
            decreases N - c,
        {
            proof {
                assert(256 * i + c < 256 * K) by (nonlinear_arith)
                    requires
                        i < K,
                        c < 256,
                ;
            }
            let x = column_get(col, N * i + c);
            v.data[i].data[c] = x as u32;
            c = c + 1;
        }
        i = i + 1;
    }
    v
}

proof fn lemma_pow2_127()
    ensures
        pow2(127) == 0x8000_0000_0000_0000_0000_0000_0000_0000,
{
    lemma2_to64();
    lemma2_to64_rest();
    lemma_pow2_adds(64, 63);
}

fn pow2_i128(k: u32) -> (m: i128)
    requires
        k < 127,
    ensures
        m == pow2(k as nat),
{
    let mut m: i128 = 1;
    let mut i: u32 = 0;
    proof {
        lemma2_to64();
        lemma_pow2_127();
    }
    while i < k
        invariant
            i <= k < 127,
            m == pow2(i as nat),
            pow2(127) == 0x8000_0000_0000_0000_0000_0000_0000_0000,
        decreases k - i,
    {
        proof {
            lemma_pow2_strictly_increases((i + 1) as nat, 127);
            lemma_pow2_adds(i as nat, 1);
            lemma2_to64();
        }
        m = m * 2;
        i = i + 1;
    }
    m
}

/// Every entry `x` of `v` replaced by `x mod 2^k`, in `[0, 2^k)`.
pub fn reduce_mod_2k(v: &mut DenseColumn, k: u32)
    requires
        k < 128,
    ensures
        column_entries(*final(v)).len() == column_entries(*old(v)).len(),
        forall|i: int|
            0 <= i < column_entries(*old(v)).len() ==> #[trigger] column_entries(*final(v))[i] == (column_entries(
                *old(v),
            )[i] as int) % (pow2(k as nat) as int),
{
    let modulus: i128 = if k == 127 {
        i128::MIN
    } else {
        pow2_i128(k)
    };
    proof {
        lemma_pow2_pos(k as nat);
        lemma_pow2_127();
    }
    let n = column_len(v);
    let ghost old_entries = column_entries(*v);
    let mut i: usize = 0;
    while i < n
        invariant
            i <= n,
            n == old_entries.len(),
            k < 128,
            modulus == if k == 127 { i128::MIN as int } else { pow2(k as nat) as int },
            pow2(k as nat) > 0,
            k == 127 ==> pow2(k as nat) == 0x8000_0000_0000_0000_0000_0000_0000_0000,
            column_entries(*v).len() == n,
            forall|a: int| 0 <= a < i ==> #[trigger] column_entries(*v)[a] == (old_entries[a] as int) % (pow2(k as nat) as int),
            forall|a: int| i <= a < n ==> #[trigger] column_entries(*v)[a] == old_entries[a],
        decreases n - i,
    {
        let x = column_get(v, i);
        let r: i128 = match x.checked_rem_euclid(modulus) {
            Some(y) => y,
            None => 0,
        };
        proof {
            let p = pow2(k as nat) as int;
            if k == 127 {
                assert((x as int) % (modulus as int) == (x as int) % p) by (nonlinear_arith)
                    requires
                        modulus as int == -p,
                        p > 0,
                ;
            }
            lemma_mod_bound(x as int, p);
        }
        column_set(v, i, r);
        i = i + 1;
    }
}


/// Rows made of negacyclic blocks times a stacked column: each row's sum of
/// absolute terms fits `i128`, and each row's product is the negacyclic inner
/// product of its polynomials with those of the column. Row `r` holds the
/// blocks of the polynomials `xs(r / 256)` and stands for coefficient
/// `r % 256`.
pub proof fn lemma_nega_rows_dot(
    rows: Seq<Seq<i128>>,
    v: Seq<i128>,
    xs: spec_fn(int) -> Seq<Seq<u32>>,
    ys: Seq<Seq<u32>>,
    nrows: int,
    m: int,
)
    requires
        0 <= m <= 0x100_0000,
        0 <= nrows <= rows.len(),
        v.len() == 256 * m,
        forall|b: int| 0 <= b < m ==> (#[trigger] ys[b]).len() == 256,
        forall|r: int, b: int| 0 <= r < nrows && 0 <= b < m ==> (#[trigger] xs(r / 256)[b]).len() == 256,
        forall|r: int| 0 <= r < nrows ==> (#[trigger] rows[r]).len() == 256 * m,
        forall|r: int, c: int|
            0 <= r < nrows && 0 <= c < 256 * m ==> #[trigger] rows[r][c] == nega_entry(
                ints32(xs(r / 256)[c / 256]),
                r % 256,
                c % 256,
            ),
        forall|c: int| 0 <= c < 256 * m ==> #[trigger] v[c] == ys[c / 256][c % 256],
    ensures
        forall|r: int| 0 <= r < nrows ==> row_abs_dot(#[trigger] rows[r], v, 256 * m) <= i128::MAX,
        forall|r: int|
            0 <= r < nrows ==> row_dot(#[trigger] rows[r], v, 256 * m) == nega_dot(xs(r / 256), ys, r % 256, m)
                && -0x1_0000_0000_0000_0000_0000_0000 <= nega_dot(xs(r / 256), ys, r % 256, m)
                <= 0x1_0000_0000_0000_0000_0000_0000,
{
    assert(256 * m * 0xffff_ffff * 0xffff_ffff <= i128::MAX) by (nonlinear_arith)
        requires
            0 <= m <= 0x100_0000,
    ;
    assert(m * 256 * 0x1_0000_0000 * 0xffff_ffff <= 0x1_0000_0000_0000_0000_0000_0000) by (nonlinear_arith)
        requires
            0 <= m <= 0x100_0000,
    ;
    assert forall|r: int| 0 <= r < nrows implies row_abs_dot(#[trigger] rows[r], v, 256 * m) <= i128::MAX && row_dot(
        rows[r],
        v,
        256 * m,
    ) == nega_dot(xs(r / 256), ys, r % 256, m) && -0x1_0000_0000_0000_0000_0000_0000 <= nega_dot(
        xs(r / 256),
        ys,
        r % 256,
        m,
    ) <= 0x1_0000_0000_0000_0000_0000_0000 by {
        let row = rows[r];
        let k = r % 256;
        assert forall|c: int| 0 <= c < 256 * m implies -0xffff_ffff <= #[trigger] row[c] <= 0xffff_ffff && 0 <= v[c]
            <= 0xffff_ffff by {
            assert(0 <= c / 256 < m) by {
                lemma_div_bound_256(c, m);
            }
            assert(xs(r / 256)[c / 256].len() == 256);
            assert(ys[c / 256].len() == 256);
        }
        lemma_row_abs_dot_bound(row, v, 256 * m, 0xffff_ffff, 0xffff_ffff);
        assert forall|b: int| 0 <= b < m implies (#[trigger] xs(r / 256)[b]).len() == 256 && ys[b].len() == 256 by {}
        lemma_block_row_dot(row, v, xs(r / 256), ys, k, m);
        lemma_nega_dot_bound(xs(r / 256), ys, k, m);
    }
}

/// An index below `256 m` lies in one of the first `m` blocks of 256.
pub proof fn lemma_div_bound_256(c: int, m: int)
    requires
        0 <= c < 256 * m,
    ensures
        0 <= c / 256 < m,
{
    lemma_div_pos_is_pos(c, 256);
    lemma_div_by_multiple_is_strongly_ordered(c, 256 * m, m, 256);
}

} // verus!
