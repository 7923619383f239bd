//! K-PKE: key generation, encryption and decryption of the module-LWE
//! public-key scheme over the prime ring `Z_q[X]/(X^256 + 1)` (with NTT).
//!
//! The public matrix `A` is expanded from the seed `rho` through the SHAKE128
//! stream, the secret and error polynomials are centred binomial samples of
//! SHAKE256 output, and the key seed `d` is split by SHA3-512 into
//! `(rho, sigma)`.
use vstd::prelude::*;
use crate::params::field_q;
use crate::ring::{
    Compressed,
    Matrix,
    Ring,
    RingRepresentation,
    Vector,
    add_mod_spec,
    coeffs_below,
    compress_coeff,
    decompress_coeff,
    inner_product_spec,
    intt_spec,
    ntt_spec,
    ring_coeffs,
    lemma_inner_product_bound,
    lemma_intt_bound,
    lemma_ntt_bound,
};
use crate::crypt::{XOF, g, prf, random_bytes, sha3_512, shake256_prefix};
use crate::sample::{sample_ntt, sample_poly_cbd, ntt_candidate, cbd_coeff};
use crate::crypt::shake128_byte;
use crate::params::{Q, K_BITS};
use crate::negacyclic::{
    compress_2k_spec,
    compress_ring_2k,
    compress_vector_2k,
    decompress_2k_spec,
    decompress_ring_2k,
    decompress_vector_2k,
    nega_dot,
    nega_entry,
    ints32,
    reduce_coeff_2k,
    matrix_to_block_negacyclic,
    matrix_to_block_negacyclic_transposed,
    vector_to_row_negacyclic,
    vector_to_column,
    column_to_vector,
    reduce_mod_2k,
    lemma_nega_rows_dot,
    lemma_in_block,
    lemma_div_bound_256,
};
use crate::linalg::{matrix_rows, column_entries, matrix_dot_column, column_add, column_get};
use vstd::arithmetic::power2::{pow2, lemma2_to64, lemma2_to64_rest};
use vstd::arithmetic::div_mod::{lemma_mod_bound, lemma_fundamental_div_mod};

verus! {

/// The encryption key: the vector `t = A s + e` and the seed of `A`.
pub type KpkeEncryptionKey<const K: usize> = (Vector<K>, [u8; 32]);

/// The decryption key: the secret vector `s`.
pub type KpkeDecryptionKey<const K: usize> = Vector<K>;

/// The output of key generation: the encryption and decryption keys.
pub type KpkeKeyGenOutput<const K: usize> = (KpkeEncryptionKey<K>, KpkeDecryptionKey<K>);

/// A ciphertext: `u` compressed to `D_U` bits, `v` compressed to `D_V` bits.
pub type Cyphertext<const K: usize, const D_U: usize, const D_V: usize> = (
    Compressed<D_U, Vector<K>>,
    Compressed<D_V, Ring>,
);

/// Polynomial `(i, j)` of the public matrix `A`, in NTT form: sampled from
/// the SHAKE128 stream on `rho || i || j`.
pub open spec fn matrix_entry(rho: Seq<u8>, i: int, j: int) -> Seq<u32> {
    Seq::new(256, |c: int| ntt_candidate(rho.push(i as u8).push(j as u8), 0, c) as u32)
}

/// Row `i` of `A`.
pub open spec fn matrix_row(rho: Seq<u8>, i: int, k: nat) -> Seq<Seq<u32>> {
    Seq::new(k, |j: int| matrix_entry(rho, i, j))
}

/// Column `i` of `A`.
pub open spec fn matrix_col(rho: Seq<u8>, i: int, k: nat) -> Seq<Seq<u32>> {
    Seq::new(k, |j: int| matrix_entry(rho, j, i))
}

/// The centred binomial polynomial of parameter `eta` from
/// `PRF_eta(seed, n)`, in coefficient form.
pub open spec fn cbd_poly(seed: Seq<u8>, n: int, eta: int) -> Seq<u32> {
    Seq::new(
        256,
        |c: int| cbd_coeff(shake256_prefix(seed.push(n as u8), (64 * eta) as nat), eta, c) as u32,
    )
}

/// The NTT forms of the `k` binomial polynomials from `seed` with counters
/// `first .. first + k`.
pub open spec fn cbd_ntt_vector(seed: Seq<u8>, first: int, eta: int, k: nat) -> Seq<Seq<u32>> {
    Seq::new(k, |j: int| ntt_spec(cbd_poly(seed, first + j, eta)))
}

/// `rho`: the first half of `G(d)`.
pub open spec fn rho_of(d: Seq<u8>) -> Seq<u8> {
    sha3_512(d).subrange(0, 32)
}

/// `sigma`: the second half of `G(d)`.
pub open spec fn sigma_of(d: Seq<u8>) -> Seq<u8> {
    sha3_512(d).subrange(32, 64)
}

/// Ring `i` of `t = A s + e` in NTT form, from the seeds `rho` and `sigma`.
pub open spec fn public_t(rho: Seq<u8>, sigma: Seq<u8>, eta1: int, k: nat, i: int) -> Seq<u32> {
    add_mod_spec(
        inner_product_spec(matrix_row(rho, i, k), cbd_ntt_vector(sigma, 0, eta1, k), k as int),
        ntt_spec(cbd_poly(sigma, k + i, eta1)),
    )
}

/// `r` is the key pair generated from the seed `d`: `t = A s + e` with `A`
/// expanded from `rho`, `s` and `e` sampled from `sigma`, all in NTT form.
pub open spec fn is_key_pair_from_seed<const K: usize>(r: KpkeKeyGenOutput<K>, d: Seq<u8>, eta1: int) -> bool {
    &&& r.0.1@ == rho_of(d)
    &&& forall|i: int|
        0 <= i < K ==> (#[trigger] r.0.0.data[i]).t == RingRepresentation::NTT && r.0.0.data[i].data@
            == public_t(rho_of(d), sigma_of(d), eta1, K as nat, i)
    &&& forall|i: int|
        0 <= i < K ==> (#[trigger] r.1.data[i]).t == RingRepresentation::NTT && r.1.data[i].data@
            == ntt_spec(cbd_poly(sigma_of(d), i, eta1))
}

/// The parameter `eta` of a binomial distribution the samplers accept.
pub open spec fn eta_ok(eta: usize) -> bool {
    &&& 512 * eta <= usize::MAX
    &&& eta <= field_q()
}

/// `K` binomial polynomials from `PRF(seed, first + j)`, `j < K`.
fn sample_cbd_vector<const K: usize>(seed: &[u8; 32], first: usize, eta: usize) -> (v: Vector<K>)
    requires
        eta_ok(eta),
        first + K <= usize::MAX,
    ensures
        forall|j: int|
            0 <= j < K ==> (#[trigger] v.data[j]).t == RingRepresentation::Degree255 && v.data[j].data@
                == cbd_poly(seed@, first + j, eta as int),
{
    let mut v = Vector::<K>::new_degree255();
    let mut j: usize = 0;
    while j < K
        invariant
            j <= K,
            eta_ok(eta),
            first + K <= usize::MAX,
            forall|a: int|
                0 <= a < j ==> (#[trigger] v.data[a]).t == RingRepresentation::Degree255 && v.data[a].data@
                    == cbd_poly(seed@, first + a, eta as int),
        decreases K - j,
    {
        let n = first + j;
        let bytes = prf(seed, n as u8, eta);
        let ring = sample_poly_cbd(bytes.as_slice(), eta);
        proof {
            assert(ring.data@ =~= cbd_poly(seed@, first + j, eta as int));
        }
        v.data[j] = ring;
        j = j + 1;
    }
    v
}

/// The public matrix `A`, expanded from `rho` in NTT form.
fn sample_matrix<const K: usize>(rho: &[u8; 32]) -> (a: Matrix<K>)
    ensures
        forall|i: int, j: int|
            0 <= i < K && 0 <= j < K ==> (#[trigger] a.data[i][j]).t == RingRepresentation::NTT
                && a.data[i][j].data@ == matrix_entry(rho@, i, j),
{
    let mut a = Matrix::<K>::new_ntt();
    let mut i: usize = 0;
    while i < K
        invariant
            i <= K,
            forall|x: int, y: int|
                0 <= x < i && 0 <= y < K ==> (#[trigger] a.data[x][y]).t == RingRepresentation::NTT
                    && a.data[x][y].data@ == matrix_entry(rho@, x, y),
        decreases K - i,
    {
        let mut row = a.data[i];
        let mut j: usize = 0;
        while j < K
            invariant
                j <= K,
                i < K,
                forall|y: int|
                    0 <= y < j ==> (#[trigger] row[y]).t == RingRepresentation::NTT && row[y].data@
                        == matrix_entry(rho@, i as int, y),
            decreases K - j,
        {
            let xof = XOF::new(rho, i as u8, j as u8);
            let ring = sample_ntt(xof);
            proof {
                assert(ring.data@ =~= matrix_entry(rho@, i as int, j as int));
            }
            row[j] = ring;
            j = j + 1;
        }
        a.data[i] = row;
        i = i + 1;
    }
    a
}

/// Every ring of the matrix is in NTT form with coefficients below `2^31`.
proof fn lemma_matrix_ntt_below<const K: usize>(a: Matrix<K>, rho: Seq<u8>)
    requires
        forall|i: int, j: int|
            0 <= i < K && 0 <= j < K ==> (#[trigger] a.data[i][j]).t == RingRepresentation::NTT
                && a.data[i][j].data@ == matrix_entry(rho, i, j),
    ensures
        forall|i: int| 0 <= i < K ==> crate::ring::ntt_rings_below(#[trigger] a.data[i]@),
{
    assert forall|i: int| 0 <= i < K implies crate::ring::ntt_rings_below(#[trigger] a.data[i]@) by {
        assert forall|j: int| 0 <= j < K implies (#[trigger] a.data[i]@[j]).t == RingRepresentation::NTT
            && coeffs_below(a.data[i]@[j].data@, 0x8000_0000) by {
            assert(a.data[i]@[j] == a.data[i][j]);
            assert forall|c: int| 0 <= c < 256 implies #[trigger] a.data[i][j].data@[c] < 0x8000_0000 by {
                let input = rho.push(i as u8).push(j as u8);
                let b2 = crate::crypt::shake128_byte(input, (0 + 3 * c + 2) as nat) as int;
                assert(b2 % 128 < 128);
            }
        }
    }
}

/// Key generation from the seed `d`: `(rho, sigma) = G(d)`, `A` expanded
/// from `rho`, `s` and `e` sampled from `sigma` with parameter `eta_1`,
/// `t = A s + e` in NTT form. Returns `((t, rho), s)`.
pub fn key_gen_from_seed<const K: usize>(d: &[u8; 32], eta_1: usize) -> (r: KpkeKeyGenOutput<K>)
    requires
        K > 0,
        2 * K <= usize::MAX,
        eta_ok(eta_1),
    ensures
        is_key_pair_from_seed(r, d@, eta_1 as int),
{
    let (rho, sigma) = g(d);
    proof {
        assert(rho@ =~= rho_of(d@));
        assert(sigma@ =~= sigma_of(d@));
    }
    let a = sample_matrix::<K>(&rho);
    let s = sample_cbd_vector::<K>(&sigma, 0, eta_1);
    let e = sample_cbd_vector::<K>(&sigma, K, eta_1);
    let s = s.ntt();
    let e = e.ntt();
    proof {
        lemma_matrix_ntt_below(a, rho@);
        assert forall|j: int| 0 <= j < K implies (#[trigger] s.data@[j]).t == RingRepresentation::NTT
            && coeffs_below(s.data@[j].data@, 0x8000_0000) by {
            lemma_ntt_bound(cbd_poly(sigma@, j, eta_1 as int));
        }
        assert(ring_coeffs(s.data@) =~= cbd_ntt_vector(sigma@, 0, eta_1 as int, K as nat));
    }
    let mut t = a.right_vector_multiply(&s);
    proof {
        assert forall|i: int, c: int| 0 <= i < K && 0 <= c < 256 implies t.data[i].data[c] + e.data[i].data[c]
            <= u32::MAX by {
            lemma_inner_product_bound(ring_coeffs(a.data[i]@), ring_coeffs(s.data@), K as int);
            lemma_ntt_bound(cbd_poly(sigma@, K + i, eta_1 as int));
            assert(t.data[i].data@[c] < field_q());
            assert(e.data[i].data@[c] < field_q());
        }
    }
    t.add(&e);
    proof {
        assert forall|i: int| 0 <= i < K implies (#[trigger] t.data[i]).t == RingRepresentation::NTT
            && t.data[i].data@ == public_t(rho@, sigma@, eta_1 as int, K as nat, i) by {
            assert(ring_coeffs(a.data[i]@) =~= matrix_row(rho@, i, K as nat));
        }
    }
    ((t, rho), s)
}

/// Key generation with a fresh random seed: the output is the key pair
/// generated from some 32-byte seed.
pub fn key_gen<const K: usize>(eta_1: usize) -> (r: KpkeKeyGenOutput<K>)
    requires
        K > 0,
        2 * K <= usize::MAX,
        eta_ok(eta_1),
    ensures
        exists|d: Seq<u8>| d.len() == 32 && #[trigger] is_key_pair_from_seed(r, d, eta_1 as int),
{
    let d = random_bytes::<32>();
    let r = key_gen_from_seed::<K>(&d, eta_1);
    proof {
        assert(is_key_pair_from_seed(r, d@, eta_1 as int));
    }
    r
}

/// The coefficient sequences of the rings of `u` decompressed from `d` bits.
pub open spec fn decompress_all<const K: usize>(u: Vector<K>, d: nat) -> Seq<Seq<u32>> {
    Seq::new(K as nat, |k: int| Seq::new(256, |c: int| decompress_coeff(u.data[k].data[c] as int, d)))
}

/// Ring `i` of `u = A^T r + e_1` in coefficient form, before compression.
pub open spec fn cipher_u(rho: Seq<u8>, rand: Seq<u8>, eta1: int, eta2: int, k: nat, i: int) -> Seq<u32> {
    add_mod_spec(
        intt_spec(inner_product_spec(matrix_col(rho, i, k), cbd_ntt_vector(rand, 0, eta1, k), k as int)),
        cbd_poly(rand, k + i, eta2),
    )
}

/// `v = r . t + e_2 + Decompress_1(m)` in coefficient form, before compression.
pub open spec fn cipher_v(
    t: Seq<Seq<u32>>,
    m: Seq<u32>,
    rand: Seq<u8>,
    eta1: int,
    eta2: int,
    k: nat,
) -> Seq<u32> {
    add_mod_spec(
        add_mod_spec(
            intt_spec(inner_product_spec(cbd_ntt_vector(rand, 0, eta1, k), t, k as int)),
            cbd_poly(rand, 2 * k as int, eta2),
        ),
        Seq::new(256, |c: int| decompress_coeff(m[c] as int, 1)),
    )
}

/// Encryption of the 1-bit-compressed message `m` under `(t, rho)` with the
/// randomness `rand`: `u = A^T r + e_1` compressed to `D_U` bits and
/// `v = r . t + e_2 + Decompress_1(m)` compressed to `D_V` bits, with `r`,
/// `e_1`, `e_2` sampled from `rand`.
pub fn encrypt<const K: usize, const D_U: usize, const D_V: usize>(
    ek_pke: KpkeEncryptionKey<K>,
    m: Compressed<1, Ring>,
    rand: [u8; 32],
    eta_1: usize,
    eta_2: usize,
) -> (c: Cyphertext<K, D_U, D_V>)
    requires
        K > 0,
        2 * K + 1 <= usize::MAX,
        1 <= D_U < 32,
        1 <= D_V < 32,
        eta_ok(eta_1),
        eta_ok(eta_2),
        crate::ring::ntt_rings_below(ek_pke.0.data@),
        forall|i: int| 0 <= i < 256 ==> decompress_coeff(#[trigger] m.0.data[i] as int, 1) + field_q() <= u32::MAX,
    ensures
        forall|i: int, x: int|
            0 <= i < K && 0 <= x < 256 ==> (#[trigger] c.0.0.data[i].data[x]) == compress_coeff(
                cipher_u(ek_pke.1@, rand@, eta_1 as int, eta_2 as int, K as nat, i)[x] as int,
                D_U as nat,
            ),
        forall|i: int| 0 <= i < K ==> (#[trigger] c.0.0.data[i]).t == RingRepresentation::Degree255,
        forall|x: int|
            0 <= x < 256 ==> (#[trigger] c.1.0.data[x]) == compress_coeff(
                cipher_v(ring_coeffs(ek_pke.0.data@), m.0.data@, rand@, eta_1 as int, eta_2 as int, K as nat)[x] as int,
                D_V as nat,
            ),
        c.1.0.t == RingRepresentation::Degree255,
{
    let (t, rho) = ek_pke;
    let a = sample_matrix::<K>(&rho);
    let r = sample_cbd_vector::<K>(&rand, 0, eta_1);
    let e_1 = sample_cbd_vector::<K>(&rand, K, eta_2);
    let e_2_vec = sample_cbd_vector::<1>(&rand, 2 * K, eta_2);
    let e_2 = e_2_vec.data[0];
    let r = r.ntt();
    proof {
        lemma_matrix_ntt_below(a, rho@);
        assert forall|j: int| 0 <= j < K implies (#[trigger] r.data@[j]).t == RingRepresentation::NTT
            && coeffs_below(r.data@[j].data@, 0x8000_0000) by {
            lemma_ntt_bound(cbd_poly(rand@, j, eta_1 as int));
        }
        assert(ring_coeffs(r.data@) =~= cbd_ntt_vector(rand@, 0, eta_1 as int, K as nat));
        assert forall|i: int| 0 <= i < K implies coeffs_below(
            inner_product_spec(crate::ring::ring_coeffs(crate::ring::column(a.data, i)), ring_coeffs(r.data@), K as int),
            field_q(),
        ) by {
            lemma_inner_product_bound(crate::ring::ring_coeffs(crate::ring::column(a.data, i)), ring_coeffs(r.data@), K as int);
        }
    }
    let u_ntt = a.left_vector_multiply(&r);
    let mut u = u_ntt.inverse_ntt();
    proof {
        assert forall|i: int, x: int| 0 <= i < K && 0 <= x < 256 implies u.data[i].data[x] + e_1.data[i].data[x]
            <= u32::MAX by {
            lemma_intt_bound(u_ntt.data[i].data@);
            assert(u.data[i].data@[x] < field_q());
            assert(e_1.data[i].data@[x] < field_q());
        }
    }
    u.add(&e_1);
    let u_compressed = Compressed::<D_U, Vector<K>>::compress(u);
    let m_dec = m.decompress();
    proof {
        lemma_inner_product_bound(ring_coeffs(r.data@), ring_coeffs(t.data@), K as int);
    }
    let mut v = r.inner_product(t);
    let ghost v_ntt = v.data@;
    v.inverse_ntt();
    proof {
        lemma_intt_bound(v_ntt);
        assert forall|x: int| 0 <= x < 256 implies v.data[x] + e_2.data[x] <= u32::MAX by {
            assert(v.data@[x] < field_q());
            assert(e_2_vec.data[0].data@[x] < field_q());
        }
    }
    v.add(&e_2);
    proof {
        assert forall|x: int| 0 <= x < 256 implies v.data[x] + m_dec.data[x] <= u32::MAX by {
            vstd::arithmetic::div_mod::lemma_mod_bound(v_ntt[x] as int, field_q());
        }
    }
    v.add(&m_dec);
    let v_compressed = Compressed::<D_V, Ring>::compress(v);
    proof {
        assert forall|i: int| 0 <= i < K implies #[trigger] u.data[i].data@ == cipher_u(
            rho@,
            rand@,
            eta_1 as int,
            eta_2 as int,
            K as nat,
            i,
        ) by {
            assert(ring_coeffs(crate::ring::column(a.data, i)) =~= matrix_col(rho@, i, K as nat));
            assert(u.data[i].data@ =~= cipher_u(rho@, rand@, eta_1 as int, eta_2 as int, K as nat, i));
        }
        assert(v.data@ =~= cipher_v(ring_coeffs(t.data@), m.0.data@, rand@, eta_1 as int, eta_2 as int, K as nat));
    }
    (u_compressed, v_compressed)
}

/// The message polynomial `v - s . u` (coefficient form) that decryption
/// compresses, from the decompressed ciphertext.
pub open spec fn decrypt_diff<const K: usize, const D_U: usize, const D_V: usize>(
    dk: Vector<K>,
    c: Cyphertext<K, D_U, D_V>,
) -> Seq<u32> {
    let inner = intt_spec(
        inner_product_spec(
            ring_coeffs(dk.data@),
            Seq::new(K as nat, |k: int| ntt_spec(decompress_all(c.0.0, D_U as nat)[k])),
            K as int,
        ),
    );
    Seq::new(
        256,
        |x: int|
            ((decompress_coeff(c.1.0.data[x] as int, D_V as nat) + field_q() - inner[x]) % field_q()) as u32,
    )
}

/// Decryption: decompress `u` and `v`, compute `v - s . u` and compress it
/// to one bit per coefficient.
pub fn decrypt<const K: usize, const D_U: usize, const D_V: usize>(
    dk_kpe: Vector<K>,
    c: Cyphertext<K, D_U, D_V>,
) -> (m: Compressed<1, Ring>)
    requires
        K > 0,
        1 <= D_U < 32,
        1 <= D_V < 32,
        crate::ring::ntt_rings_below(dk_kpe.data@),
        forall|k: int| 0 <= k < K ==> (#[trigger] c.0.0.data[k]).t == RingRepresentation::Degree255,
        forall|x: int| 0 <= x < 256 ==> decompress_coeff(#[trigger] c.1.0.data[x] as int, D_V as nat) + field_q() <= u32::MAX,
    ensures
        m.0.t == c.1.0.t,
        forall|x: int| 0 <= x < 256 ==> (#[trigger] m.0.data[x]) == compress_coeff(decrypt_diff(dk_kpe, c)[x] as int, 1),
{
    let (u_compressed, v_compressed) = c;
    let u = u_compressed.decompress();
    let mut v = v_compressed.decompress();
    let u_ntt = u.ntt();
    proof {
        assert forall|j: int| 0 <= j < K implies (#[trigger] u_ntt.data@[j]).t == RingRepresentation::NTT
            && coeffs_below(u_ntt.data@[j].data@, 0x8000_0000) by {
            lemma_ntt_bound(u.data[j].data@);
        }
        lemma_inner_product_bound(ring_coeffs(dk_kpe.data@), ring_coeffs(u_ntt.data@), K as int);
    }
    let mut inner = dk_kpe.inner_product(u_ntt);
    let ghost ip = inner.data@;
    inner.inverse_ntt();
    proof {
        lemma_intt_bound(ip);
        assert forall|x: int| 0 <= x < 256 implies inner.data[x] <= v.data[x] + field_q() by {
            assert(inner.data@[x] < field_q());
        }
    }
    v.sub(&inner);
    proof {
        assert forall|k: int| 0 <= k < K implies #[trigger] ring_coeffs(u_ntt.data@)[k] == ntt_spec(
            decompress_all(c.0.0, D_U as nat)[k],
        ) by {
            assert(u.data[k].data@ =~= decompress_all(c.0.0, D_U as nat)[k]);
        }
        assert(ring_coeffs(u_ntt.data@) =~= Seq::new(
            K as nat,
            |k: int| ntt_spec(decompress_all(c.0.0, D_U as nat)[k]),
        ));
        assert(v.data@ =~= decrypt_diff(dk_kpe, c));
    }
    Compressed::<1, Ring>::compress(v)
}

/// `2^K_BITS`, the modulus of the power-of-two branch.
pub open spec fn modulus_2k() -> int {
    0x4000_0000
}

proof fn lemma_modulus_2k()
    ensures
        pow2(K_BITS as nat) == modulus_2k(),
{
    lemma2_to64();
}

/// Coefficient `c` of a uniform polynomial modulo `2^K_BITS` read from the
/// stream on `input` from `start`: the low `K_BITS` bits of two 24-bit
/// little-endian draws `lo + 2^24 hi`.
pub open spec fn uniform_2k_coeff(input: Seq<u8>, start: nat, c: int) -> int {
    let b0 = shake128_byte(input, (start + 6 * c) as nat) as int;
    let b1 = shake128_byte(input, (start + 6 * c + 1) as nat) as int;
    let b2 = shake128_byte(input, (start + 6 * c + 2) as nat) as int;
    let b3 = shake128_byte(input, (start + 6 * c + 3) as nat) as int;
    let b4 = shake128_byte(input, (start + 6 * c + 4) as nat) as int;
    let b5 = shake128_byte(input, (start + 6 * c + 5) as nat) as int;
    ((b0 + 256 * b1 + 65536 * b2) + 0x100_0000 * (b3 + 256 * b4 + 65536 * b5)) % modulus_2k()
}

/// A uniform coefficient-form polynomial modulo `2^K_BITS` from the XOF
/// stream: every coefficient takes the low `K_BITS` bits of 48 stream bits.
fn sample_uniform_2k(xof: XOF) -> (ring: Ring)
    requires
        xof.wf(),
        xof.position() + 1539 <= usize::MAX / 2,
    ensures
        ring.t == RingRepresentation::Degree255,
        forall|c: int| 0 <= c < 256 ==> ring.data[c] == uniform_2k_coeff(xof.input(), xof.position(), c),
{
    let mut xof = xof;
    let ghost input = xof.input();
    let ghost start = xof.position();
    let top: u64 = 1u64 << K_BITS;
    assert(top == 0x4000_0000) by (bit_vector)
        requires
            top == 1u64 << 30u32,
    ;
    let mask: u64 = top - 1;
    let mut ring = Ring::zeroes_degree255();
    let mut three = [0u8; 3];
    let mut c: usize = 0;
    while c < 256
        invariant
            c <= 256,
            mask == 0x3fff_ffff,
            xof.wf(),
            xof.input() == input,
            xof.position() == start + 6 * c,
            start + 1539 <= usize::MAX / 2,
            ring.t == RingRepresentation::Degree255,
            forall|i: int| 0 <= i < c ==> ring.data[i] == uniform_2k_coeff(input, start, i),
        decreases 256 - c,
    {
        xof.get_3_bytes(&mut three);
        let lo = (three[0] as u64) | ((three[1] as u64) << 8) | ((three[2] as u64) << 16);
        let (b0, b1, b2) = (three[0] as u64, three[1] as u64, three[2] as u64);
        xof.get_3_bytes(&mut three);
        let hi = (three[0] as u64) | ((three[1] as u64) << 8) | ((three[2] as u64) << 16);
        let (b3, b4, b5) = (three[0] as u64, three[1] as u64, three[2] as u64);
        let d: u64 = lo | (hi << 24);
        let v = (d & mask) as u32;
        assert(v == ((b0 + 256 * b1 + 65536 * b2) + 0x100_0000 * (b3 + 256 * b4 + 65536 * b5)) % 0x4000_0000)
            by (bit_vector)
            requires
                lo == b0 | (b1 << 8) | (b2 << 16),
                hi == b3 | (b4 << 8) | (b5 << 16),
                b0 < 256,
                b1 < 256,
                b2 < 256,
                b3 < 256,
                b4 < 256,
                b5 < 256,
                d == lo | (hi << 24),
                v == (d & mask) as u32,
                mask == 0x3fff_ffff,
        ;
        ring.data[c] = v;
        c = c + 1;
    }
    ring
}

/// A coefficient of `[0, q)` as a signed value of `(-q/2, q/2]`, reduced
/// modulo `2^K_BITS`.
pub open spec fn reduce_2k_spec(v: int) -> int {
    (if v > field_q() / 2 {
        v - field_q()
    } else {
        v
    }) % modulus_2k()
}

/// Re-express coefficients of `[0, q)` modulo `2^K_BITS` through their
/// signed representatives.
fn reduce_ring_mod_2k(r: &mut Ring)
    requires
        forall|c: int| 0 <= c < 256 ==> old(r).data[c] < field_q(),
    ensures
        final(r).t == old(r).t,
        forall|c: int| 0 <= c < 256 ==> final(r).data[c] == reduce_2k_spec(old(r).data[c] as int),
{
    let q = Q;
    let half = q / 2;
    proof {
        lemma_modulus_2k();
    }
    let mut c: usize = 0;
    while c < 256
        invariant
            c <= 256,
            q == Q,
            half == Q / 2,
            pow2(K_BITS as nat) == modulus_2k(),
            r.t == old(r).t,
            forall|i: int| 0 <= i < c ==> r.data[i] == reduce_2k_spec(old(r).data[i] as int),
            forall|i: int| c <= i < 256 ==> r.data[i] == old(r).data[i],
        decreases 256 - c,
    {
        let v = r.data[c];
        let signed: i128 = if v > half {
            v as i128 - q as i128
        } else {
            v as i128
        };
        r.data[c] = reduce_coeff_2k(signed, K_BITS);
        c = c + 1;
    }
}

/// Polynomial `(i, j)` of the public matrix of the power-of-two branch, in
/// coefficient form.
pub open spec fn matrix_2k_entry(rho: Seq<u8>, i: int, j: int) -> Seq<u32> {
    Seq::new(256, |c: int| uniform_2k_coeff(rho.push(i as u8).push(j as u8), 0, c) as u32)
}

/// The binomial polynomial from `PRF(seed, n)` re-expressed modulo `2^K_BITS`.
pub open spec fn cbd_poly_2k(seed: Seq<u8>, n: int, eta: int) -> Seq<u32> {
    Seq::new(256, |c: int| reduce_2k_spec(cbd_poly(seed, n, eta)[c] as int) as u32)
}

/// The `k` binomial polynomials modulo `2^K_BITS` with counters
/// `first .. first + k`.
pub open spec fn cbd_vector_2k(seed: Seq<u8>, first: int, eta: int, k: nat) -> Seq<Seq<u32>> {
    Seq::new(k, |j: int| cbd_poly_2k(seed, first + j, eta))
}

/// Ring `i` of `t = A s + e` modulo `2^K_BITS`, with the negacyclic products
/// taken over the integers.
pub open spec fn public_t_2k(rho: Seq<u8>, sigma: Seq<u8>, eta1: int, k: nat, i: int) -> Seq<u32> {
    Seq::new(
        256,
        |c: int|
            ((nega_dot(
                Seq::new(k, |j: int| matrix_2k_entry(rho, i, j)),
                cbd_vector_2k(sigma, 0, eta1, k),
                c,
                k as int,
            ) + cbd_poly_2k(sigma, k + i, eta1)[c]) % modulus_2k()) as u32,
    )
}

/// `r` is the power-of-two key pair generated from the seed `d`.
pub open spec fn is_key_pair_2k_from_seed<const K: usize>(r: KpkeKeyGenOutput<K>, d: Seq<u8>, eta1: int) -> bool {
    &&& r.0.1@ == rho_of(d)
    &&& forall|i: int|
        0 <= i < K ==> (#[trigger] r.0.0.data[i]).t == RingRepresentation::Degree255 && r.0.0.data[i].data@
            == public_t_2k(rho_of(d), sigma_of(d), eta1, K as nat, i)
    &&& forall|i: int|
        0 <= i < K ==> (#[trigger] r.1.data[i]).t == RingRepresentation::Degree255 && r.1.data[i].data@
            == cbd_poly_2k(sigma_of(d), i, eta1)
}

/// `K` binomial polynomials modulo `2^K_BITS` from `PRF(seed, first + j)`.
fn sample_cbd_vector_2k<const K: usize>(seed: &[u8; 32], first: usize, eta: usize) -> (v: Vector<K>)
    requires
        eta_ok(eta),
        first + K <= usize::MAX,
    ensures
        forall|j: int|
            0 <= j < K ==> (#[trigger] v.data[j]).t == RingRepresentation::Degree255 && v.data[j].data@
                == cbd_poly_2k(seed@, first + j, eta as int),
{
    let mut v = sample_cbd_vector::<K>(seed, first, eta);
    let mut j: usize = 0;
    while j < K
        invariant
            j <= K,
            forall|a: int|
                0 <= a < j ==> (#[trigger] v.data[a]).t == RingRepresentation::Degree255 && v.data[a].data@
                    == cbd_poly_2k(seed@, first + a, eta as int),
            forall|a: int|
                j <= a < K ==> (#[trigger] v.data[a]).t == RingRepresentation::Degree255 && v.data[a].data@
                    == cbd_poly(seed@, first + a, eta as int),
        decreases K - j,
    {
        let mut ring = v.data[j];
        proof {
            assert forall|c: int| 0 <= c < 256 implies ring.data[c] < field_q() by {
                vstd::arithmetic::div_mod::lemma_mod_bound(
                    crate::sample::bit_count(
                        shake256_prefix(seed@.push((first + j) as u8), (64 * eta) as nat),
                        2 * eta * c,
                        eta as int,
                    ) + field_q() - crate::sample::bit_count(
                        shake256_prefix(seed@.push((first + j) as u8), (64 * eta) as nat),
                        2 * eta * c + eta,
                        eta as int,
                    ),
                    field_q(),
                );
                assert(ring.data@[c] == cbd_poly(seed@, first + j, eta as int)[c]);
            }
        }
        reduce_ring_mod_2k(&mut ring);
        proof {
            assert(ring.data@ =~= cbd_poly_2k(seed@, first + j, eta as int));
        }
        v.data[j] = ring;
        j = j + 1;
    }
    v
}

/// The public matrix of the power-of-two branch, expanded from `rho`.
fn sample_matrix_2k<const K: usize>(rho: &[u8; 32]) -> (a: Matrix<K>)
    ensures
        forall|i: int, j: int|
            0 <= i < K && 0 <= j < K ==> (#[trigger] a.data[i][j]).t == RingRepresentation::Degree255
                && a.data[i][j].data@ == matrix_2k_entry(rho@, i, j),
{
    let mut a = Matrix::<K>::new_ntt();
    let mut i: usize = 0;
    while i < K
        invariant
            i <= K,
            forall|x: int, y: int|
                0 <= x < i && 0 <= y < K ==> (#[trigger] a.data[x][y]).t == RingRepresentation::Degree255
                    && a.data[x][y].data@ == matrix_2k_entry(rho@, x, y),
        decreases K - i,
    {
        let mut row = a.data[i];
        let mut j: usize = 0;
        while j < K
            invariant
                j <= K,
                i < K,
                forall|y: int|
                    0 <= y < j ==> (#[trigger] row[y]).t == RingRepresentation::Degree255 && row[y].data@
                        == matrix_2k_entry(rho@, i as int, y),
            decreases K - j,
        {
            let xof = XOF::new(rho, i as u8, j as u8);
            let ring = sample_uniform_2k(xof);
            proof {
                assert(ring.data@ =~= matrix_2k_entry(rho@, i as int, j as int));
            }
            row[j] = ring;
            j = j + 1;
        }
        a.data[i] = row;
        i = i + 1;
    }
    a
}

proof fn lemma_square_small(k: int)
    requires
        k >= 0,
        256 * k * 256 * k * 16 <= isize::MAX,
    ensures
        k <= 0x100_0000,
{
    assert(k <= 256 * k * 256 * k * 16) by (nonlinear_arith)
        requires
            k >= 0,
    ;
    assert(isize::MAX < 0x1_0000_0000_0000_0000);
    if k > 0x100_0000 {
        assert(256 * k * 256 * k * 16 > 0x1_0000_0000_0000_0000) by (nonlinear_arith)
            requires
                k > 0x100_0000,
        ;
    }
}

proof fn lemma_square_bound(k: int)
    requires
        k >= 0,
        256 * k * 256 * k * 16 <= isize::MAX,
    ensures
        256 * k * 16 <= isize::MAX,
{
    assert(256 * k * 16 <= 256 * k * 256 * k * 16) by (nonlinear_arith)
        requires
            k >= 0,
    ;
}

/// Key generation of the power-of-two branch from the seed `d`: no NTT;
/// `A` uniform modulo `2^K_BITS`, `s` and `e` binomial and re-expressed
/// modulo `2^K_BITS`, `t = A s + e` with negacyclic products over the
/// integers reduced modulo `2^K_BITS`. Returns `((t, rho), s)`.
pub fn key_gen_2k_from_seed<const K: usize>(d: &[u8; 32], eta_1: usize) -> (r: KpkeKeyGenOutput<K>)
    requires
        2 * K <= 255,
        256 * K * 256 * K * 16 <= isize::MAX,
        eta_ok(eta_1),
    ensures
        is_key_pair_2k_from_seed(r, d@, eta_1 as int),
{
    let (rho, sigma) = g(d);
    proof {
        assert(rho@ =~= rho_of(d@));
        assert(sigma@ =~= sigma_of(d@));
        lemma_modulus_2k();
        lemma_square_bound(K as int);
    }
    let a = sample_matrix_2k::<K>(&rho);
    let s = sample_cbd_vector_2k::<K>(&sigma, 0, eta_1);
    let e = sample_cbd_vector_2k::<K>(&sigma, K, eta_1);
    // t = A s + e through one product of the negacyclic block matrix of A
    // with the stacked column of s.
    let a_hat = matrix_to_block_negacyclic::<K>(&a);
    let s_col = vector_to_column::<K>(&s);
    let e_col = vector_to_column::<K>(&e);
    let ghost xs = |i: int| Seq::new(K as nat, |j: int| matrix_2k_entry(rho@, i, j));
    let ghost ys = cbd_vector_2k(sigma@, 0, eta_1 as int, K as nat);
    proof {
        assert forall|r: int, c: int| 0 <= r < 256 * K && 0 <= c < 256 * K implies #[trigger] matrix_rows(a_hat)[r][c]
            == nega_entry(ints32(xs(r / 256)[c / 256]), r % 256, c % 256) by {
            lemma_div_bound_256(r, K as int);
            lemma_div_bound_256(c, K as int);
        }
        assert forall|c: int| 0 <= c < 256 * K implies #[trigger] column_entries(s_col)[c] == ys[c / 256][c % 256] by {
            lemma_div_bound_256(c, K as int);
        }
        assert forall|r: int, b: int| 0 <= r < 256 * K && 0 <= b < K implies (#[trigger] xs(r / 256)[b]).len() == 256 by {}
        lemma_nega_rows_dot(matrix_rows(a_hat), column_entries(s_col), xs, ys, 256 * K, K as int);
    }
    let prod = matrix_dot_column(&a_hat, &s_col);
    let mut t_col = column_add(prod, e_col);
    reduce_mod_2k(&mut t_col, K_BITS);
    proof {
        assert forall|r: int| 0 <= r < 256 * K implies 0 <= #[trigger] column_entries(t_col)[r] <= u32::MAX by {
            lemma_mod_bound(column_entries(prod)[r] + column_entries(e_col)[r], modulus_2k());
        }
    }
    let t = column_to_vector::<K>(&t_col);
    proof {
        assert forall|i: int| 0 <= i < K implies (#[trigger] t.data[i]).t == RingRepresentation::Degree255 && t.data[i].data@
            == public_t_2k(rho@, sigma@, eta_1 as int, K as nat, i) by {
            assert forall|c: int| 0 <= c < 256 implies #[trigger] t.data[i].data[c] == public_t_2k(
                rho@,
                sigma@,
                eta_1 as int,
                K as nat,
                i,
            )[c] by {
                let r = 256 * i + c;
                lemma_in_block(i, r);
                assert(r < 256 * K) by (nonlinear_arith)
                    requires
                        i < K,
                        c < 256,
                        r == 256 * i + c,
                ;
                assert(xs(i) =~= Seq::new(K as nat, |j: int| matrix_2k_entry(rho@, i, j)));
            }
            assert(t.data[i].data@ =~= public_t_2k(rho@, sigma@, eta_1 as int, K as nat, i));
        }
    }
    ((t, rho), s)
}

/// Key generation of the power-of-two branch with a fresh random seed.
pub fn key_gen_2k<const K: usize>(eta_1: usize) -> (r: KpkeKeyGenOutput<K>)
    requires
        2 * K <= 255,
        256 * K * 256 * K * 16 <= isize::MAX,
        eta_ok(eta_1),
    ensures
        exists|d: Seq<u8>| d.len() == 32 && #[trigger] is_key_pair_2k_from_seed(r, d, eta_1 as int),
{
    let d = random_bytes::<32>();
    let r = key_gen_2k_from_seed::<K>(&d, eta_1);
    proof {
        assert(is_key_pair_2k_from_seed(r, d@, eta_1 as int));
    }
    r
}

/// Ring `i` of `u = A^T r + e_1` modulo `2^K_BITS`, before compression.
pub open spec fn cipher_u_2k(rho: Seq<u8>, rand: Seq<u8>, eta1: int, eta2: int, k: nat, i: int) -> Seq<u32> {
    Seq::new(
        256,
        |c: int|
            ((nega_dot(
                Seq::new(k, |j: int| matrix_2k_entry(rho, j, i)),
                cbd_vector_2k(rand, 0, eta1, k),
                c,
                k as int,
            ) + cbd_poly_2k(rand, k + i, eta2)[c]) % modulus_2k()) as u32,
    )
}

/// `v = t . r + e_2 + Decompress_1(m)` modulo `2^K_BITS`, before compression.
pub open spec fn cipher_v_2k(
    t: Seq<Seq<u32>>,
    m: Seq<u32>,
    rand: Seq<u8>,
    eta1: int,
    eta2: int,
    k: nat,
) -> Seq<u32> {
    Seq::new(
        256,
        |c: int|
            ((nega_dot(t, cbd_vector_2k(rand, 0, eta1, k), c, k as int) + cbd_poly_2k(rand, 2 * k as int, eta2)[c]
                + decompress_2k_spec(m[c], 1, K_BITS)) % modulus_2k()) as u32,
    )
}

/// Encryption of the power-of-two branch: `u = A^T r + e_1` and
/// `v = t . r + e_2 + Decompress_1(m)` with negacyclic products over the
/// integers reduced modulo `2^K_BITS`, then compressed to `D_U` and `D_V`
/// bits.
pub fn encrypt_2k<const K: usize, const D_U: usize, const D_V: usize>(
    ek_pke: KpkeEncryptionKey<K>,
    m: Compressed<1, Ring>,
    rand: [u8; 32],
    eta_1: usize,
    eta_2: usize,
) -> (c: Cyphertext<K, D_U, D_V>)
    requires
        2 * K + 1 <= 255,
        256 * K * 256 * K * 16 <= isize::MAX,
        1 <= D_U <= 30,
        1 <= D_V <= 30,
        eta_ok(eta_1),
        eta_ok(eta_2),
    ensures
        forall|i: int, x: int|
            0 <= i < K && 0 <= x < 256 ==> (#[trigger] c.0.0.data[i].data[x]) == compress_2k_spec(
                cipher_u_2k(ek_pke.1@, rand@, eta_1 as int, eta_2 as int, K as nat, i)[x],
                D_U as u32,
                K_BITS,
            ),
        forall|i: int| 0 <= i < K ==> (#[trigger] c.0.0.data[i]).t == RingRepresentation::Degree255,
        forall|x: int|
            0 <= x < 256 ==> (#[trigger] c.1.0.data[x]) == compress_2k_spec(
                cipher_v_2k(ring_coeffs(ek_pke.0.data@), m.0.data@, rand@, eta_1 as int, eta_2 as int, K as nat)[x],
                D_V as u32,
                K_BITS,
            ),
        c.1.0.t == RingRepresentation::Degree255,
{
    proof {
        lemma_modulus_2k();
        lemma_square_bound(K as int);
    }
    let (t, rho) = ek_pke;
    let a = sample_matrix_2k::<K>(&rho);
    let r = sample_cbd_vector_2k::<K>(&rand, 0, eta_1);
    let e_1 = sample_cbd_vector_2k::<K>(&rand, K, eta_2);
    let e_2v = sample_cbd_vector_2k::<1>(&rand, 2 * K, eta_2);
    let e_2 = e_2v.data[0];
    let ghost ys = cbd_vector_2k(rand@, 0, eta_1 as int, K as nat);
    // u = A^T r + e_1 through the block matrix of A^T (blocks swapped, each
    // block kept as it is).
    let a_hat_t = matrix_to_block_negacyclic_transposed::<K>(&a);
    let r_col = vector_to_column::<K>(&r);
    let e1_col = vector_to_column::<K>(&e_1);
    let ghost xs = |i: int| Seq::new(K as nat, |j: int| matrix_2k_entry(rho@, j, i));
    proof {
        assert forall|x: int, c: int| 0 <= x < 256 * K && 0 <= c < 256 * K implies #[trigger] matrix_rows(a_hat_t)[x][c]
            == nega_entry(ints32(xs(x / 256)[c / 256]), x % 256, c % 256) by {
            lemma_div_bound_256(x, K as int);
            lemma_div_bound_256(c, K as int);
        }
        assert forall|c: int| 0 <= c < 256 * K implies #[trigger] column_entries(r_col)[c] == ys[c / 256][c % 256] by {
            lemma_div_bound_256(c, K as int);
        }
        assert forall|x: int, b: int| 0 <= x < 256 * K && 0 <= b < K implies (#[trigger] xs(x / 256)[b]).len() == 256 by {}
        lemma_nega_rows_dot(matrix_rows(a_hat_t), column_entries(r_col), xs, ys, 256 * K, K as int);
    }
    let prod = matrix_dot_column(&a_hat_t, &r_col);
    let mut u_col = column_add(prod, e1_col);
    reduce_mod_2k(&mut u_col, K_BITS);
    proof {
        assert forall|x: int| 0 <= x < 256 * K implies 0 <= #[trigger] column_entries(u_col)[x] <= u32::MAX by {
            lemma_mod_bound(column_entries(prod)[x] + column_entries(e1_col)[x], modulus_2k());
        }
    }
    let u = column_to_vector::<K>(&u_col);
    proof {
        assert forall|i: int, x: int| 0 <= i < K && 0 <= x < 256 implies #[trigger] u.data[i].data[x] == cipher_u_2k(
            rho@,
            rand@,
            eta_1 as int,
            eta_2 as int,
            K as nat,
            i,
        )[x] by {
            let y = 256 * i + x;
            lemma_in_block(i, y);
            assert(y < 256 * K) by (nonlinear_arith)
                requires
                    i < K,
                    x < 256,
                    y == 256 * i + x,
            ;
            assert(xs(i) =~= Seq::new(K as nat, |j: int| matrix_2k_entry(rho@, j, i)));
        }
    }
    // v = t . r + e_2 + Decompress_1(m) through the row of blocks of t.
    let m_poly = decompress_ring_2k(&m.0, 1, K_BITS);
    let t_row = vector_to_row_negacyclic::<K>(&t);
    let ghost xt = |i: int| ring_coeffs(t.data@);
    proof {
        assert forall|x: int, c: int| 0 <= x < 256 && 0 <= c < 256 * K implies #[trigger] matrix_rows(t_row)[x][c]
            == nega_entry(ints32(xt(x / 256)[c / 256]), x % 256, c % 256) by {
            lemma_div_bound_256(c, K as int);
            lemma_in_block(0, x);
        }
        assert forall|x: int, b: int| 0 <= x < 256 && 0 <= b < K implies (#[trigger] xt(x / 256)[b]).len() == 256 by {}
        lemma_nega_rows_dot(matrix_rows(t_row), column_entries(r_col), xt, ys, 256, K as int);
    }
    let v_partial = matrix_dot_column(&t_row, &r_col);
    let mut v_ring = Ring::zeroes_degree255();
    let mut c: usize = 0;
    while c < 256
        invariant
            c <= 256,
            pow2(K_BITS as nat) == modulus_2k(),
            column_entries(v_partial).len() == 256,
            ys == cbd_vector_2k(rand@, 0, eta_1 as int, K as nat),
            forall|y: int|
                0 <= y < 256 ==> #[trigger] column_entries(v_partial)[y] == nega_dot(ring_coeffs(t.data@), ys, y, K as int)
                    && -0x1_0000_0000_0000_0000_0000_0000 <= nega_dot(ring_coeffs(t.data@), ys, y, K as int)
                    <= 0x1_0000_0000_0000_0000_0000_0000,
            e_2.data@ == cbd_poly_2k(rand@, 2 * K, eta_2 as int),
            forall|y: int| 0 <= y < 256 ==> m_poly.data[y] == decompress_2k_spec(m.0.data[y], 1, K_BITS),
            v_ring.t == RingRepresentation::Degree255,
            forall|y: int|
                0 <= y < c ==> v_ring.data[y] == cipher_v_2k(
                    ring_coeffs(t.data@),
                    m.0.data@,
                    rand@,
                    eta_1 as int,
                    eta_2 as int,
                    K as nat,
                )[y],
        decreases 256 - c,
    {
        proof {
            lemma_in_block(0, c as int);
        }
        let mut x: i128 = column_get(&v_partial, c);
        x = x + e_2.data[c] as i128;
        x = x + m_poly.data[c] as i128;
        v_ring.data[c] = reduce_coeff_2k(x, K_BITS);
        c = c + 1;
    }
    let u_compressed_ring = compress_vector_2k(&u, D_U as u32, K_BITS);
    let v_compressed_ring = compress_ring_2k(&v_ring, D_V as u32, K_BITS);
    (Compressed::<D_U, Vector<K>>(u_compressed_ring), Compressed::<D_V, Ring>(v_compressed_ring))
}

/// The message polynomial `v - s . u` modulo `2^K_BITS` that decryption of
/// the power-of-two branch compresses, from the decompressed ciphertext.
pub open spec fn decrypt_diff_2k<const K: usize, const D_U: usize, const D_V: usize>(
    dk: Vector<K>,
    c: Cyphertext<K, D_U, D_V>,
) -> Seq<u32> {
    let u = Seq::new(
        K as nat,
        |k: int| Seq::new(256, |x: int| decompress_2k_spec(c.0.0.data[k].data[x], D_U as u32, K_BITS) as u32),
    );
    Seq::new(
        256,
        |x: int|
            ((decompress_2k_spec(c.1.0.data[x], D_V as u32, K_BITS) - nega_dot(ring_coeffs(dk.data@), u, x, K as int))
                % modulus_2k()) as u32,
    )
}

/// Decryption of the power-of-two branch: decompress `u` and `v` (exact
/// shifts), compute `v - s . u` with negacyclic products over the integers
/// modulo `2^K_BITS`, and compress it to one bit per coefficient.
pub fn decrypt_2k<const K: usize, const D_U: usize, const D_V: usize>(
    dk_kpe: Vector<K>,
    c: Cyphertext<K, D_U, D_V>,
) -> (m: Compressed<1, Ring>)
    requires
        256 * K * 256 * K * 16 <= isize::MAX,
        1 <= D_U <= 30,
        1 <= D_V <= 30,
    ensures
        m.0.t == RingRepresentation::Degree255,
        forall|x: int|
            0 <= x < 256 ==> (#[trigger] m.0.data[x]) == compress_2k_spec(decrypt_diff_2k(dk_kpe, c)[x], 1, K_BITS),
{
    proof {
        lemma_modulus_2k();
        lemma_square_bound(K as int);
        lemma_square_small(K as int);
    }
    let (u_compressed, v_compressed) = c;
    let u = decompress_vector_2k(&u_compressed.0, D_U as u32, K_BITS);
    let v = decompress_ring_2k(&v_compressed.0, D_V as u32, K_BITS);
    // s . u through the row of blocks of s times the stacked column of u.
    let s_row = vector_to_row_negacyclic::<K>(&dk_kpe);
    let u_col = vector_to_column::<K>(&u);
    let ghost us = Seq::new(
        K as nat,
        |k: int| Seq::new(256, |x: int| decompress_2k_spec(c.0.0.data[k].data[x], D_U as u32, K_BITS) as u32),
    );
    let ghost xd = |i: int| ring_coeffs(dk_kpe.data@);
    proof {
        assert forall|x: int, y: int| 0 <= x < 256 && 0 <= y < 256 * K implies #[trigger] matrix_rows(s_row)[x][y]
            == nega_entry(ints32(xd(x / 256)[y / 256]), x % 256, y % 256) by {
            lemma_div_bound_256(y, K as int);
            lemma_in_block(0, x);
        }
        assert forall|y: int| 0 <= y < 256 * K implies #[trigger] column_entries(u_col)[y] == us[y / 256][y % 256] by {
            lemma_div_bound_256(y, K as int);
            lemma_fundamental_div_mod(y, 256);
            lemma_mod_bound(y, 256);
        }
        assert forall|x: int, b: int| 0 <= x < 256 && 0 <= b < K implies (#[trigger] xd(x / 256)[b]).len() == 256 by {}
        lemma_nega_rows_dot(matrix_rows(s_row), column_entries(u_col), xd, us, 256, K as int);
    }
    let su = matrix_dot_column(&s_row, &u_col);
    let mut diff = Ring::zeroes_degree255();
    let mut x: usize = 0;
    while x < 256
        invariant
            x <= 256,
            pow2(K_BITS as nat) == modulus_2k(),
            column_entries(su).len() == 256,
            forall|y: int|
                0 <= y < 256 ==> #[trigger] column_entries(su)[y] == nega_dot(ring_coeffs(dk_kpe.data@), us, y, K as int)
                    && -0x1_0000_0000_0000_0000_0000_0000 <= nega_dot(ring_coeffs(dk_kpe.data@), us, y, K as int)
                    <= 0x1_0000_0000_0000_0000_0000_0000,
            us == Seq::new(
                K as nat,
                |k: int| Seq::new(256, |z: int| decompress_2k_spec(c.0.0.data[k].data[z], D_U as u32, K_BITS) as u32),
            ),
            forall|y: int| 0 <= y < 256 ==> v.data[y] == decompress_2k_spec(c.1.0.data[y], D_V as u32, K_BITS),
            diff.t == RingRepresentation::Degree255,
            forall|y: int| 0 <= y < x ==> diff.data[y] == decrypt_diff_2k(dk_kpe, c)[y],
        decreases 256 - x,
    {
        proof {
            lemma_in_block(0, x as int);
        }
        let d = (v.data[x] as i128) - column_get(&su, x);
        diff.data[x] = reduce_coeff_2k(d, K_BITS);
        x = x + 1;
    }
    let m_ring = compress_ring_2k(&diff, 1, K_BITS);
    proof {
        assert forall|y: int| 0 <= y < 256 implies m_ring.data[y] == compress_2k_spec(
            decrypt_diff_2k(dk_kpe, c)[y],
            1,
            K_BITS,
        ) by {
            assert(diff.data@[y] == decrypt_diff_2k(dk_kpe, c)[y]);
        }
    }
    Compressed::<1, Ring>(m_ring)
}


/// Each coefficient of a uniform polynomial modulo `2^K_BITS` is the
/// 48-bit little-endian number of the six stream bytes it consumes, reduced
/// modulo `2^30`: its low 24 bits are the first three bytes
/// `b0 + 2^8 b1 + 2^16 b2`, and its bits 24 to 29 are the low six bits of
/// the fourth byte `b3`.
pub proof fn lemma_uniform_2k_coeff_is_48_bit_draw(input: Seq<u8>, start: nat, c: int)
    requires
        c >= 0,
    ensures
        ({
            let b0 = shake128_byte(input, (start + 6 * c) as nat) as int;
            let b1 = shake128_byte(input, (start + 6 * c + 1) as nat) as int;
            let b2 = shake128_byte(input, (start + 6 * c + 2) as nat) as int;
            let b3 = shake128_byte(input, (start + 6 * c + 3) as nat) as int;
            let b4 = shake128_byte(input, (start + 6 * c + 4) as nat) as int;
            let b5 = shake128_byte(input, (start + 6 * c + 5) as nat) as int;
            let v = uniform_2k_coeff(input, start, c);
            &&& v == (b0 + 0x100 * b1 + 0x1_0000 * b2 + 0x100_0000 * b3 + 0x1_0000_0000 * b4 + 0x100_0000_0000 * b5)
                % 0x4000_0000
            &&& v % 0x100_0000 == b0 + 0x100 * b1 + 0x1_0000 * b2
            &&& v / 0x100_0000 == b3 % 64
            &&& 0 <= v < 0x4000_0000
        }),
{
    let b0 = shake128_byte(input, (start + 6 * c) as nat) as int;
    let b1 = shake128_byte(input, (start + 6 * c + 1) as nat) as int;
    let b2 = shake128_byte(input, (start + 6 * c + 2) as nat) as int;
    let b3 = shake128_byte(input, (start + 6 * c + 3) as nat) as int;
    let b4 = shake128_byte(input, (start + 6 * c + 4) as nat) as int;
    let b5 = shake128_byte(input, (start + 6 * c + 5) as nat) as int;
    let lo = b0 + 256 * b1 + 65536 * b2;
    let hi = b3 + 256 * b4 + 65536 * b5;
    assert(0 <= lo < 0x100_0000);
    assert(hi == 64 * (4 * b4 + 1024 * b5) + b3);
    vstd::arithmetic::div_mod::lemma_mod_multiples_vanish(4 * b4 + 1024 * b5, b3, 64);
    lemma_fundamental_div_mod(hi, 64);
    lemma_mod_bound(hi, 64);
    lemma_mod_bound(b3, 64);
    let r = hi % 64;
    let qh = hi / 64;
    assert(hi % 64 == b3 % 64);
    let total = lo + 0x100_0000 * hi;
    assert(total == 0x4000_0000 * qh + (lo + 0x100_0000 * r)) by (nonlinear_arith)
        requires
            total == lo + 0x100_0000 * hi,
            hi == 64 * qh + r,
    ;
    assert(0 <= lo + 0x100_0000 * r < 0x4000_0000) by (nonlinear_arith)
        requires
            0 <= lo < 0x100_0000,
            0 <= r < 64,
    ;
    vstd::arithmetic::div_mod::lemma_fundamental_div_mod_converse(total, 0x4000_0000, qh, lo + 0x100_0000 * r);
    let v = lo + 0x100_0000 * r;
    assert(uniform_2k_coeff(input, start, c) == v);
    vstd::arithmetic::div_mod::lemma_fundamental_div_mod_converse(v, 0x100_0000, r, lo);
    assert(b0 + 0x100 * b1 + 0x1_0000 * b2 + 0x100_0000 * b3 + 0x1_0000_0000 * b4 + 0x100_0000_0000 * b5 == total);
}

} // verus!
