//! Correctness of K-PKE decryption over `2^k`: with `t = A s + e` and
//! `u = A^T r + e_1` (negacyclic products over the integers, reduced modulo
//! `2^k`), `t . r - s . u = e . r - s . e_1`, so decryption leaves the
//! message plus small noise, and a 1-bit message survives noise below a
//! quarter of the modulus.
use vstd::prelude::*;
use vstd::arithmetic::div_mod::*;
use vstd::arithmetic::mul::*;
use crate::field_laws::{fsum, lemma_fsum_ext, lemma_fsum_add};
use crate::lagrange_laws::lemma_fsum_congr;
use crate::kpke_laws::lemma_fsum_swap;
use crate::negacyclic::{nega_dot, ints32, compress_2k_spec, decompress_2k_spec};
use crate::params::K_BITS;
use crate::ring::{ring_coeffs, Ring, Compressed};
use crate::kpke::{
    modulus_2k,
    matrix_2k_entry,
    cbd_poly_2k,
    cbd_vector_2k,
    rho_of,
    sigma_of,
    public_t_2k,
    cipher_u_2k,
    cipher_v_2k,
    decrypt_diff_2k,
    is_key_pair_2k_from_seed,
    KpkeKeyGenOutput,
    KpkeEncryptionKey,
    Cyphertext,
};
use vstd::arithmetic::power2::{pow2, lemma2_to64};
use crate::nega_laws::{
    nconv,
    nprod,
    lemma_nconv_comm,
    lemma_nconv_assoc,
    lemma_nega_dot_nconv,
    lemma_nconv_sum_left,
    lemma_nconv_sum_right,
    lemma_nconv_congr_left,
    lemma_nconv_congr_right,
};

verus! {

/// `(sum_j a(i, j) * s_j + e_i) mod m` for the rows `i < k`: the vectors
/// `A s + e` and, for the transposed matrix, `A^T r + e_1`.
pub open spec fn mat_vec_2k(a: spec_fn(int, int) -> Seq<u32>, s: Seq<Seq<u32>>, e: Seq<Seq<u32>>, k: nat, m: int) -> Seq<
    Seq<u32>,
> {
    Seq::new(
        k,
        |i: int|
            Seq::new(
                256,
                |x: int| ((nega_dot(Seq::new(k, |j: int| a(i, j)), s, x, k as int) + e[i][x]) % m) as u32,
            ),
    )
}

/// The integer vector `sum_j a(i, j) * s_j + e_i` before reduction.
spec fn mat_vec_int(a: spec_fn(int, int) -> Seq<u32>, s: Seq<Seq<u32>>, e: Seq<Seq<u32>>, k: nat, i: int) -> Seq<int> {
    Seq::new(256, |x: int| fsum(|j: int| nconv(ints32(a(i, j)), ints32(s[j]), x), k) + e[i][x])
}

/// Row `i` of `A s + e` reduced modulo `m` is congruent to the integer row.
proof fn lemma_mat_vec_row(a: spec_fn(int, int) -> Seq<u32>, s: Seq<Seq<u32>>, e: Seq<Seq<u32>>, k: nat, m: int, i: int)
    requires
        m > 0,
        m <= 0x1_0000_0000,
        0 <= i < k,
        forall|p: int, j: int| 0 <= p < k && 0 <= j < k ==> (#[trigger] a(p, j)).len() == 256,
    ensures
        forall|x: int|
            0 <= x < 256 ==> #[trigger] ints32(mat_vec_2k(a, s, e, k, m)[i])[x] % m == mat_vec_int(a, s, e, k, i)[x] % m,
{
    let q = m;
    assert forall|x: int| 0 <= x < 256 implies #[trigger] ints32(mat_vec_2k(a, s, e, k, m)[i])[x] % m
        == mat_vec_int(a, s, e, k, i)[x] % m by {
        let row = Seq::new(k, |j: int| a(i, j));
        lemma_nega_dot_nconv(row, s, x, k);
        lemma_fsum_ext(
            |j: int| nconv(ints32(row[j]), ints32(s[j]), x),
            |j: int| nconv(ints32(a(i, j)), ints32(s[j]), x),
            k,
        );
        let v = nega_dot(row, s, x, k as int) + e[i][x];
        lemma_mod_bound(v, m);
        lemma_mod_twice(v, m);
    }
}

/// One term of `t . r`: `(A s + e)_i * r_i = sum_j s_j * (a(i, j) * r_i) + e_i * r_i`.
proof fn lemma_t_term(a: spec_fn(int, int) -> Seq<u32>, s: Seq<Seq<u32>>, e: Seq<Seq<u32>>, r: Seq<Seq<u32>>, k: nat, m: int, i: int, c: int)
    requires
        m > 0,
        m <= 0x1_0000_0000,
        0 <= i < k,
        0 <= c < 256,
        forall|p: int, j: int| 0 <= p < k && 0 <= j < k ==> (#[trigger] a(p, j)).len() == 256,
        e[i].len() == 256,
    ensures
        nconv(ints32(mat_vec_2k(a, s, e, k, m)[i]), ints32(r[i]), c) % m == (fsum(
            |j: int| nconv(ints32(s[j]), nprod(ints32(a(i, j)), ints32(r[i])), c),
            k,
        ) + nconv(ints32(e[i]), ints32(r[i]), c)) % m,
{
    let tt = mat_vec_int(a, s, e, k, i);
    let ri = ints32(r[i]);
    lemma_mat_vec_row(a, s, e, k, m, i);
    lemma_nconv_congr_left(ints32(mat_vec_2k(a, s, e, k, m)[i]), tt, ri, c, m);
    // tt is the sum of the k products and e_i
    let xs = |p: int| if p < k { nprod(ints32(a(i, p)), ints32(s[p])) } else { ints32(e[i]) };
    assert forall|x: int| 0 <= x < 256 implies #[trigger] tt[x] == fsum(|p: int| xs(p)[x], k + 1) by {
        lemma_fsum_ext(|j: int| nconv(ints32(a(i, j)), ints32(s[j]), x), |p: int| xs(p)[x], k);
        assert(fsum(|p: int| xs(p)[x], k + 1) == fsum(|p: int| xs(p)[x], k) + xs(k as int)[x]);
        assert(xs(k as int)[x] == e[i][x]);
    }
    lemma_nconv_sum_left(xs, k + 1, tt, ri, c);
    let terms = |p: int| nconv(xs(p), ri, c);
    assert(fsum(terms, k + 1) == fsum(terms, k) + terms(k as int));
    assert forall|j: int| 0 <= j < k implies #[trigger] terms(j) == nconv(ints32(s[j]), nprod(ints32(a(i, j)), ri), c) by {
        let aij = ints32(a(i, j));
        let sj = ints32(s[j]);
        assert(nprod(aij, sj) =~= nprod(sj, aij)) by {
            assert forall|x: int| 0 <= x < 256 implies #[trigger] nprod(aij, sj)[x] == nprod(sj, aij)[x] by {
                lemma_nconv_comm(aij, sj, x);
            }
        }
        lemma_nconv_assoc(sj, aij, ri, c);
    }
    lemma_fsum_ext(terms, |j: int| nconv(ints32(s[j]), nprod(ints32(a(i, j)), ri), c), k);
}

/// One term of `s . u`: `s_j * (A^T r + e_1)_j = sum_i s_j * (a(i, j) * r_i) + s_j * e1_j`.
proof fn lemma_u_term(a: spec_fn(int, int) -> Seq<u32>, r: Seq<Seq<u32>>, e1: Seq<Seq<u32>>, s: Seq<Seq<u32>>, k: nat, m: int, j: int, c: int)
    requires
        m > 0,
        m <= 0x1_0000_0000,
        0 <= j < k,
        0 <= c < 256,
        forall|p: int, l: int| 0 <= p < k && 0 <= l < k ==> (#[trigger] a(p, l)).len() == 256,
        e1[j].len() == 256,
    ensures
        nconv(ints32(s[j]), ints32(mat_vec_2k(|p: int, l: int| a(l, p), r, e1, k, m)[j]), c) % m == (fsum(
            |i: int| nconv(ints32(s[j]), nprod(ints32(a(i, j)), ints32(r[i])), c),
            k,
        ) + nconv(ints32(s[j]), ints32(e1[j]), c)) % m,
{
    let at = |p: int, l: int| a(l, p);
    let uu = mat_vec_int(at, r, e1, k, j);
    let sj = ints32(s[j]);
    lemma_mat_vec_row(at, r, e1, k, m, j);
    lemma_nconv_congr_right(sj, ints32(mat_vec_2k(at, r, e1, k, m)[j]), uu, c, m);
    let ys = |p: int| if p < k { nprod(ints32(a(p, j)), ints32(r[p])) } else { ints32(e1[j]) };
    assert forall|x: int| 0 <= x < 256 implies #[trigger] uu[x] == fsum(|p: int| ys(p)[x], k + 1) by {
        lemma_fsum_ext(|l: int| nconv(ints32(at(j, l)), ints32(r[l]), x), |p: int| ys(p)[x], k);
        assert(fsum(|p: int| ys(p)[x], k + 1) == fsum(|p: int| ys(p)[x], k) + ys(k as int)[x]);
        assert(ys(k as int)[x] == e1[j][x]);
    }
    lemma_nconv_sum_right(ys, k + 1, sj, uu, c);
    let terms = |p: int| nconv(sj, ys(p), c);
    assert(fsum(terms, k + 1) == fsum(terms, k) + terms(k as int));
    lemma_fsum_ext(terms, |i: int| nconv(ints32(s[j]), nprod(ints32(a(i, j)), ints32(r[i])), c), k);
}

/// The matrix cancels: `(A s + e) . r - s . (A^T r + e_1) = e . r - s . e_1`
/// modulo `m`, all products negacyclic over the integers.
pub proof fn lemma_cancel_2k(
    a: spec_fn(int, int) -> Seq<u32>,
    s: Seq<Seq<u32>>,
    e: Seq<Seq<u32>>,
    r: Seq<Seq<u32>>,
    e1: Seq<Seq<u32>>,
    k: nat,
    m: int,
    c: int,
)
    requires
        m > 0,
        m <= 0x1_0000_0000,
        0 <= c < 256,
        forall|p: int, l: int| 0 <= p < k && 0 <= l < k ==> (#[trigger] a(p, l)).len() == 256,
        forall|p: int| 0 <= p < k ==> (#[trigger] s[p]).len() == 256,
        forall|p: int| 0 <= p < k ==> (#[trigger] e[p]).len() == 256,
        forall|p: int| 0 <= p < k ==> (#[trigger] e1[p]).len() == 256,
    ensures
        (nega_dot(mat_vec_2k(a, s, e, k, m), r, c, k as int) - nega_dot(
            s,
            mat_vec_2k(|p: int, l: int| a(l, p), r, e1, k, m),
            c,
            k as int,
        )) % m == (nega_dot(e, r, c, k as int) - nega_dot(s, e1, c, k as int)) % m,
{
    let tv = mat_vec_2k(a, s, e, k, m);
    let uv = mat_vec_2k(|p: int, l: int| a(l, p), r, e1, k, m);
    let w = |i: int, j: int| nconv(ints32(s[j]), nprod(ints32(a(i, j)), ints32(r[i])), c);
    // t . r
    lemma_nega_dot_nconv(tv, r, c, k);
    let tl = |i: int| nconv(ints32(tv[i]), ints32(r[i]), c);
    let ter = |i: int| nconv(ints32(e[i]), ints32(r[i]), c);
    let tr = |i: int| fsum(|j: int| w(i, j), k) + ter(i);
    assert forall|i: int| 0 <= i < k implies #[trigger] tl(i) % m == tr(i) % m by {
        lemma_t_term(a, s, e, r, k, m, i, c);
        lemma_fsum_ext(|j: int| nconv(ints32(s[j]), nprod(ints32(a(i, j)), ints32(r[i])), c), |j: int| w(i, j), k);
    }
    lemma_fsum_congr(tl, tr, k, m);
    lemma_fsum_add(|i: int| fsum(|j: int| w(i, j), k), ter, tr, k);
    // s . u
    lemma_nega_dot_nconv(s, uv, c, k);
    let ul = |j: int| nconv(ints32(s[j]), ints32(uv[j]), c);
    let use1 = |j: int| nconv(ints32(s[j]), ints32(e1[j]), c);
    let ur = |j: int| fsum(|i: int| w(i, j), k) + use1(j);
    assert forall|j: int| 0 <= j < k implies #[trigger] ul(j) % m == ur(j) % m by {
        lemma_u_term(a, r, e1, s, k, m, j, c);
        lemma_fsum_ext(|i: int| nconv(ints32(s[j]), nprod(ints32(a(i, j)), ints32(r[i])), c), |i: int| w(i, j), k);
    }
    lemma_fsum_congr(ul, ur, k, m);
    lemma_fsum_add(|j: int| fsum(|i: int| w(i, j), k), use1, ur, k);
    lemma_fsum_swap(w, k, k);
    // the noise terms
    lemma_nega_dot_nconv(e, r, c, k);
    lemma_nega_dot_nconv(s, e1, c, k);
    lemma_fsum_ext(|i: int| nconv(ints32(e[i]), ints32(r[i]), c), ter, k);
    lemma_fsum_ext(|j: int| nconv(ints32(s[j]), ints32(e1[j]), c), use1, k);
    let big = fsum(|i: int| fsum(|j: int| w(i, j), k), k);
    let x1 = nega_dot(tv, r, c, k as int);
    let x2 = nega_dot(s, uv, c, k as int);
    let ne = nega_dot(e, r, c, k as int);
    let ns = nega_dot(s, e1, c, k as int);
    assert(x1 % m == (big + ne) % m);
    assert(x2 % m == (big + ns) % m);
    lemma_sub_mod_noop(x1, x2, m);
    lemma_sub_mod_noop(big + ne, big + ns, m);
    assert(big + ne - (big + ns) == ne - ns);
}

/// The noise of decryption over `2^k` at coefficient `c`:
/// `e . r + e_2 - s . e_1`, negacyclic products over the integers.
pub open spec fn decryption_noise_2k(d: Seq<u8>, rand: Seq<u8>, eta1: int, eta2: int, k: nat, c: int) -> int {
    nega_dot(Seq::new(k, |i: int| cbd_poly_2k(sigma_of(d), k + i, eta1)), cbd_vector_2k(rand, 0, eta1, k), c, k as int)
        + cbd_poly_2k(rand, 2 * k as int, eta2)[c] - nega_dot(
        cbd_vector_2k(sigma_of(d), 0, eta1, k),
        Seq::new(k, |i: int| cbd_poly_2k(rand, k + i, eta2)),
        c,
        k as int,
    )
}

/// Decryption over `2^k` of an uncompressed ciphertext leaves the message
/// plus the noise: `v - s . u = Decompress_1(m) + e . r + e_2 - s . e_1`
/// modulo `2^k`, for the key pair generated from `d` and the ciphertext
/// encrypted with `rand`.
pub proof fn lemma_kpke_2k_noise(d: Seq<u8>, rand: Seq<u8>, m: Seq<u32>, eta1: int, eta2: int, k: nat, c: int)
    requires
        0 <= c < 256,
    ensures
        (cipher_v_2k(Seq::new(k, |i: int| public_t_2k(rho_of(d), sigma_of(d), eta1, k, i)), m, rand, eta1, eta2, k)[c]
            - nega_dot(
            cbd_vector_2k(sigma_of(d), 0, eta1, k),
            Seq::new(k, |i: int| cipher_u_2k(rho_of(d), rand, eta1, eta2, k, i)),
            c,
            k as int,
        )) % modulus_2k() == (decompress_2k_spec(m[c], 1, K_BITS) + decryption_noise_2k(d, rand, eta1, eta2, k, c))
            % modulus_2k(),
{
    let mm = modulus_2k();
    let rho = rho_of(d);
    let sigma = sigma_of(d);
    let a = |i: int, j: int| matrix_2k_entry(rho, i, j);
    let ss = cbd_vector_2k(sigma, 0, eta1, k);
    let ee = Seq::new(k, |i: int| cbd_poly_2k(sigma, k + i, eta1));
    let rr = cbd_vector_2k(rand, 0, eta1, k);
    let e1 = Seq::new(k, |i: int| cbd_poly_2k(rand, k + i, eta2));
    let tt = Seq::new(k, |i: int| public_t_2k(rho, sigma, eta1, k, i));
    let uu = Seq::new(k, |i: int| cipher_u_2k(rho, rand, eta1, eta2, k, i));
    assert(tt =~= mat_vec_2k(a, ss, ee, k, mm)) by {
        assert forall|i: int| 0 <= i < k implies #[trigger] tt[i] =~= mat_vec_2k(a, ss, ee, k, mm)[i] by {
            assert(Seq::new(k, |j: int| matrix_2k_entry(rho, i, j)) =~= Seq::new(k, |j: int| a(i, j)));
        }
    }
    let at = |p: int, l: int| a(l, p);
    assert(uu =~= mat_vec_2k(at, rr, e1, k, mm)) by {
        assert forall|i: int| 0 <= i < k implies #[trigger] uu[i] =~= mat_vec_2k(at, rr, e1, k, mm)[i] by {
            assert(Seq::new(k, |j: int| matrix_2k_entry(rho, j, i)) =~= Seq::new(k, |j: int| at(i, j)));
        }
    }
    lemma_cancel_2k(a, ss, ee, rr, e1, k, mm, c);
    let x1 = nega_dot(tt, rr, c, k as int);
    let x2 = nega_dot(ss, uu, c, k as int);
    let e2 = cbd_poly_2k(rand, 2 * k as int, eta2)[c] as int;
    let dm = decompress_2k_spec(m[c], 1, K_BITS);
    let v = cipher_v_2k(tt, m, rand, eta1, eta2, k)[c] as int;
    assert(v == (x1 + e2 + dm) % mm);
    lemma_mod_twice(x1 + e2 + dm, mm);
    lemma_sub_mod_noop(v, x2, mm);
    lemma_sub_mod_noop(x1 + e2 + dm, x2, mm);
    let ne = nega_dot(ee, rr, c, k as int);
    let ns = nega_dot(ss, e1, c, k as int);
    assert((x1 - x2) % mm == (ne - ns) % mm);
    assert(x1 + e2 + dm - x2 == (x1 - x2) + (e2 + dm));
    lemma_add_mod_noop(x1 - x2, e2 + dm, mm);
    lemma_add_mod_noop(ne - ns, e2 + dm, mm);
    assert(ne - ns + (e2 + dm) == dm + (ne + e2 - ns));
}

/// `n` is within a quarter of `2^k` of a multiple of `2^k`.
pub open spec fn noise_small_2k(n: int) -> bool {
    n % modulus_2k() < modulus_2k() / 4 || n % modulus_2k() > modulus_2k() - modulus_2k() / 4
}

/// A 1-bit message coefficient plus small noise, reduced modulo `2^k`,
/// compresses back to the message bit.
pub proof fn lemma_decode_bit_2k(y: u32, b: u32, n: int)
    requires
        y < modulus_2k(),
        b == 0 || b == 1,
        y as int % modulus_2k() == (decompress_2k_spec(b, 1, K_BITS) + n) % modulus_2k(),
        noise_small_2k(n),
    ensures
        compress_2k_spec(y, 1, K_BITS) == b,
{
    let mm = modulus_2k();
    lemma2_to64();
    assert(pow2(29) == 0x2000_0000);
    assert(pow2(28) == 0x1000_0000);
    assert(pow2(1) == 2);
    let dm = decompress_2k_spec(b, 1, K_BITS);
    assert(K_BITS == 30);
    assert(((K_BITS - 1u32) as nat) == 29);
    assert(dm == (b * 0x2000_0000) % 0x1_0000_0000);
    if b == 0 {
        assert(dm == 0);
    } else {
        assert(dm == 0x2000_0000);
    }
    let r = n % mm;
    lemma_mod_bound(n, mm);
    lemma_small_mod(y as nat, mm as nat);
    lemma_add_mod_noop(dm, n, mm);
    lemma_small_mod(dm as nat, mm as nat);
    assert(y == (dm + r) % mm);
    if dm + r < mm {
        lemma_small_mod((dm + r) as nat, mm as nat);
    } else {
        lemma_mod_sub_multiples_vanish(dm + r, mm);
        lemma_small_mod((dm + r - mm) as nat, mm as nat);
    }
    assert(compress_2k_spec(y, 1, K_BITS) == (((y + 0x1000_0000) % 0x1_0000_0000) / 0x2000_0000) % 2);
    assert((y + 0x1000_0000) % 0x1_0000_0000 == y + 0x1000_0000);
}

/// `c` is what `encrypt_2k` returns for the key `ek`, the message `m` and
/// the randomness `rand`.
pub open spec fn is_encryption_2k<const K: usize, const D_U: usize, const D_V: usize>(
    c: Cyphertext<K, D_U, D_V>,
    ek: KpkeEncryptionKey<K>,
    m: Compressed<1, Ring>,
    rand: Seq<u8>,
    eta1: int,
    eta2: int,
) -> bool {
    &&& forall|i: int, x: int|
        0 <= i < K && 0 <= x < 256 ==> (#[trigger] c.0.0.data[i].data[x]) == compress_2k_spec(
            cipher_u_2k(ek.1@, rand, eta1, eta2, K as nat, i)[x],
            D_U as u32,
            K_BITS,
        )
    &&& forall|x: int|
        0 <= x < 256 ==> (#[trigger] c.1.0.data[x]) == compress_2k_spec(
            cipher_v_2k(ring_coeffs(ek.0.data@), m.0.data@, rand, eta1, eta2, K as nat)[x],
            D_V as u32,
            K_BITS,
        )
}

/// The whole noise left by decrypting a ciphertext of `m` over `2^k`: the
/// noise of the scheme plus the rounding of compressing `v`, minus the
/// rounding of compressing `u` carried through the product with `s`.
pub open spec fn total_noise_2k<const K: usize, const D_U: usize, const D_V: usize>(
    d: Seq<u8>,
    rand: Seq<u8>,
    m: Seq<u32>,
    c: Cyphertext<K, D_U, D_V>,
    eta1: int,
    eta2: int,
    x: int,
) -> int {
    let k = K as nat;
    let ss = cbd_vector_2k(sigma_of(d), 0, eta1, k);
    let v = cipher_v_2k(Seq::new(k, |i: int| public_t_2k(rho_of(d), sigma_of(d), eta1, k, i)), m, rand, eta1, eta2, k)[x]
        as int;
    let inner = nega_dot(ss, Seq::new(k, |i: int| cipher_u_2k(rho_of(d), rand, eta1, eta2, k, i)), x, K as int);
    let uc = Seq::new(
        k,
        |j: int| Seq::new(256, |y: int| decompress_2k_spec(c.0.0.data[j].data[y], D_U as u32, K_BITS) as u32),
    );
    let inner_c = nega_dot(ss, uc, x, K as int);
    decryption_noise_2k(d, rand, eta1, eta2, k, x) + (decompress_2k_spec(c.1.0.data[x], D_V as u32, K_BITS) - v) - (
    inner_c - inner)
}

/// K-PKE round trip over `2^k`: a 1-bit message encrypted under the key pair
/// generated from the seed `d` decrypts to itself wherever the total noise is
/// below a quarter of `2^k`.
pub proof fn lemma_kpke_2k_round_trip<const K: usize, const D_U: usize, const D_V: usize>(
    d: Seq<u8>,
    keys: KpkeKeyGenOutput<K>,
    m: Compressed<1, Ring>,
    rand: Seq<u8>,
    eta1: int,
    eta2: int,
    c: Cyphertext<K, D_U, D_V>,
    x: int,
)
    requires
        is_key_pair_2k_from_seed(keys, d, eta1),
        is_encryption_2k(c, keys.0, m, rand, eta1, eta2),
        0 <= x < 256,
        m.0.data[x] <= 1,
        noise_small_2k(total_noise_2k(d, rand, m.0.data@, c, eta1, eta2, x)),
    ensures
        compress_2k_spec(decrypt_diff_2k(keys.1, c)[x], 1, K_BITS) == m.0.data[x],
{
    let mm = modulus_2k();
    let k = K as nat;
    let ss = cbd_vector_2k(sigma_of(d), 0, eta1, k);
    assert(ring_coeffs(keys.0.0.data@) =~= Seq::new(k, |i: int| public_t_2k(rho_of(d), sigma_of(d), eta1, k, i)));
    assert(ring_coeffs(keys.1.data@) =~= ss);
    lemma_kpke_2k_noise(d, rand, m.0.data@, eta1, eta2, k, x);
    let v = cipher_v_2k(Seq::new(k, |i: int| public_t_2k(rho_of(d), sigma_of(d), eta1, k, i)), m.0.data@, rand, eta1, eta2, k)[x]
        as int;
    let inner = nega_dot(ss, Seq::new(k, |i: int| cipher_u_2k(rho_of(d), rand, eta1, eta2, k, i)), x, K as int);
    let uc = Seq::new(
        k,
        |j: int| Seq::new(256, |y: int| decompress_2k_spec(c.0.0.data[j].data[y], D_U as u32, K_BITS) as u32),
    );
    let inner_c = nega_dot(ss, uc, x, K as int);
    let vc = decompress_2k_spec(c.1.0.data[x], D_V as u32, K_BITS);
    let dd = decrypt_diff_2k(keys.1, c)[x];
    assert(dd as int == (vc - inner_c) % mm);
    let dm = decompress_2k_spec(m.0.data[x], 1, K_BITS);
    let noise = decryption_noise_2k(d, rand, eta1, eta2, k, x);
    let tn = total_noise_2k(d, rand, m.0.data@, c, eta1, eta2, x);
    assert(tn == noise + (vc - v) - (inner_c - inner));
    assert((v - inner) % mm == (dm + noise) % mm);
    assert(vc - inner_c == (v - inner) + (vc - v - (inner_c - inner)));
    lemma_add_mod_noop(v - inner, vc - v - (inner_c - inner), mm);
    lemma_add_mod_noop(dm + noise, vc - v - (inner_c - inner), mm);
    assert(dm + noise + (vc - v - (inner_c - inner)) == dm + tn);
    lemma_mod_bound(vc - inner_c, mm);
    lemma_mod_twice(vc - inner_c, mm);
    lemma_decode_bit_2k(dd, m.0.data[x], tn);
}

} // verus!
