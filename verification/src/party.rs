//! A member of the threshold-decryption committee (Shamir branch).
//!
//! Each party holds its Shamir share of the NTT-form secret key and its
//! additive double share `(<r>^{q'}, <r>^{mu'})`. Partial decryption first
//! turns the Shamir key share into an additive one by its Lagrange
//! coefficient over the active set, then computes
//! `<w>^q = (v if holder) - <u, lambda * s_j>`, switches it to `Z_{q'}`
//! (`<w'>^{q'}`) and reduces it modulo `mu'` (`<e'>^{mu'}`). Masking and
//! finalisation are coefficient-wise arithmetic modulo `mu'` and `q'`.
use vstd::prelude::*;
use vstd::arithmetic::div_mod::*;
use vstd::arithmetic::mul::*;
use crate::params::{Q, field_q};
use crate::ring::{
    Ring,
    RingRepresentation,
    Vector,
    Compressed,
    inner_product_spec,
    intt_spec,
    ntt_spec,
    ring_coeffs,
    coeffs_below,
    decompress_coeff,
    lemma_inner_product_bound,
    lemma_ntt_bound,
    lemma_intt_bound,
};
use crate::shamir::{lagrange_coeff, lagrange_coeff_at_zero, lagrange_den};
use crate::shamir_ring::VectorShare;
use crate::dealer::{DoubleShare, ThrParams, lemma_thr_moduli};
use crate::kpke::Cyphertext;

verus! {

/// `round(to * x / from) mod to`, the quotient taken to 64 bits first.
pub open spec fn mod_switch_spec(x: int, from: int, to: int) -> int {
    (((to * x + from / 2) / from) % 0x1_0000_0000_0000_0000) % to
}

/// Modulus switch of one coefficient from `Z_from` to `Z_to`:
/// `round(to / from * x) mod to`, computed in 128 bits.
pub fn mod_switch_coeff(x: u64, from: u64, to: u64) -> (r: u64)
    requires
        from > 0,
        to > 0,
    ensures
        r == mod_switch_spec(x as int, from as int, to as int),
{
    proof {
        lemma_mul_upper_bound(to as int, 0xffff_ffff_ffff_ffff, x as int, 0xffff_ffff_ffff_ffff);
    }
    let num: u128 = (to as u128) * (x as u128) + (from as u128) / 2;
    let quo: u128 = num / (from as u128);
    let low: u64 = quo as u64;
    assert(low == quo % 0x1_0000_0000_0000_0000) by (bit_vector)
        requires
            low == quo as u64,
    ;
    low % to
}

/// The coefficients of ring `k` of the key share scaled by `lambda` mod q.
pub open spec fn scaled_key(sk: Seq<Ring>, lambda: int) -> Seq<Seq<u32>> {
    Seq::new(sk.len(), |k: int| Seq::new(256, |c: int| ((sk[k].data[c] * lambda) % field_q()) as u32))
}

/// The NTT of every coefficient sequence.
pub open spec fn ntt_all(u: Seq<Seq<u32>>) -> Seq<Seq<u32>> {
    Seq::new(u.len(), |k: int| ntt_spec(u[k]))
}

/// `<u, lambda * sk>` back in coefficient form: the inner product of the NTT
/// of `u` with the scaled NTT-form key share, followed by the inverse NTT.
pub open spec fn key_inner_product(u: Seq<Seq<u32>>, sk: Seq<Ring>, lambda: int) -> Seq<u32> {
    intt_spec(inner_product_spec(ntt_all(u), scaled_key(sk, lambda), sk.len() as int))
}

/// One coefficient of `<w>^q`: `v - inner` for the holder of `v`, `-inner`
/// for the others, modulo q.
pub open spec fn w_share_coeff(v: int, inner: int, holder: bool) -> int {
    if holder {
        (v + field_q() - inner) % field_q()
    } else {
        (field_q() - inner) % field_q()
    }
}

/// `<w'>^{q'}`: the share `<w>^q` of the linear decryption of `(u, v)`
/// under `lambda * sk`, switched from `Z_q` to `Z_{q'}`.
pub open spec fn w_prime_spec(
    u: Seq<Seq<u32>>,
    v: Seq<u32>,
    sk: Seq<Ring>,
    lambda: int,
    holder: bool,
    thr: ThrParams,
) -> Seq<u64> {
    let inner = key_inner_product(u, sk, lambda);
    Seq::new(
        256,
        |c: int|
            mod_switch_spec(w_share_coeff(v[c] as int, inner[c] as int, holder), thr.q as int, thr.q_prime as int) as u64,
    )
}

/// `<e'>^{mu'}`: every coefficient of `w'` reduced modulo `mu'`.
pub open spec fn e_prime_spec(w_prime: Seq<u64>, thr: ThrParams) -> Seq<u64> {
    Seq::new(256, |c: int| (w_prime[c] % thr.mu_prime) as u64)
}

/// One coefficient of a party's share of `mu' * m` in round `j`:
/// `<e'>^{q'} = (e~ if holder) - <d>^{q'}`, then `<w'>^{q'} - <e'>^{q'}`,
/// all modulo `q'`.
pub open spec fn finalize_coeff(w: int, e_tilde: int, d: int, holder: bool, q_prime: int) -> int {
    let e = if holder {
        (e_tilde % q_prime + q_prime - d % q_prime) % q_prime
    } else {
        (q_prime - d % q_prime) % q_prime
    };
    (w % q_prime + q_prime - e) % q_prime
}

/// Output of partial decryption: `<w'>^{q'}` and `<e'>^{mu'}`.
#[derive(Clone, Copy, Debug)]
pub struct PartialDecOutput {
    pub w_prime: [u64; 256],
    pub e_prime: [u64; 256],
}

/// A party of the threshold-decryption committee.
#[derive(Clone, Debug)]
pub struct Party<const K: usize> {
    pub id: u32,
    pub sk_share: VectorShare<K>,
    pub dbl: DoubleShare,
    pub thr: ThrParams,
}

/// Coefficient form of the decompression of a `D`-bit compressed vector.
pub open spec fn decompressed_vector<const K: usize>(c: Vector<K>, d: nat) -> Seq<Seq<u32>> {
    Seq::new(K as nat, |k: int| Seq::new(256, |i: int| decompress_coeff(c.data[k].data[i] as int, d)))
}

/// Coefficient form of the decompression of a `D`-bit compressed ring.
pub open spec fn decompressed_ring(c: Ring, d: nat) -> Seq<u32> {
    Seq::new(256, |i: int| decompress_coeff(c.data[i] as int, d))
}

impl<const K: usize> Party<K> {
    /// A party whose id is the evaluation point of its key share and the id
    /// of its double share.
    pub fn new(id: u32, sk_share: VectorShare<K>, dbl: DoubleShare, thr: ThrParams) -> (p: Self)
        requires
            id == sk_share.x,
            id == dbl.party_id,
        ensures
            p.id == id,
            p.sk_share == sk_share,
            p.dbl == dbl,
            p.thr == thr,
    {
        Party { id, sk_share, dbl, thr }
    }

    /// The key share is in NTT form, ready for partial decryption.
    pub open spec fn key_ready(&self) -> bool {
        forall|k: int| 0 <= k < K ==> (#[trigger] self.sk_share.vector.data[k]).t == RingRepresentation::NTT
    }

    /// Linear decryption, modulus switch and error isolation on the
    /// decompressed ciphertext `(u, v)`:
    /// `<w>^q := (v if holder) - <u, lambda_j * s_j>` mod q,
    /// `<w'>^{q'} := round(q'/q * <w>^q) mod q'`, `<e'>^{mu'} := <w'>^{q'} mod mu'`,
    /// with `lambda_j` the Lagrange coefficient of this party over `active_ids`.
    pub fn partial_decrypt(&self, u: &Vector<K>, v: &Ring, active_ids: &[u32], is_v_holder: bool) -> (out:
        PartialDecOutput)
        requires
            K > 0,
            self.thr.wf(),
            self.key_ready(),
            self.id <= field_q(),
            lagrange_den(active_ids@, self.id) % field_q() != 0,
            forall|k: int| 0 <= k < K ==> (#[trigger] u.data[k]).t == RingRepresentation::Degree255,
            forall|c: int| 0 <= c < 256 ==> v.data[c] + field_q() <= u32::MAX,
        ensures
            out.w_prime@ == w_prime_spec(
                ring_coeffs(u.data@),
                v.data@,
                self.sk_share.vector.data@,
                lagrange_coeff(active_ids@, self.id),
                is_v_holder,
                self.thr,
            ),
            out.e_prime@ == e_prime_spec(out.w_prime@, self.thr),
    {
        proof {
            lemma_thr_moduli(self.thr);
        }
        let lambda = lagrange_coeff_at_zero(active_ids, self.id);
        let ghost sk = self.sk_share.vector.data@;
        let mut s_add: Vector<K> = self.sk_share.vector;
        let mut k: usize = 0;
        while k < K
            invariant
                k <= K,
                sk == self.sk_share.vector.data@,
                self.key_ready(),
                forall|a: int|
                    0 <= a < k ==> (#[trigger] s_add.data[a]).t == RingRepresentation::NTT
                        && s_add.data[a].data@ == scaled_key(sk, lambda as int)[a],
                forall|a: int| k <= a < K ==> #[trigger] s_add.data[a] == sk[a],
            decreases K - k,
        {
            let mut r = s_add.data[k];
            r.scalar_mul(lambda);
            proof {
                assert(r.data@ =~= scaled_key(sk, lambda as int)[k as int]);
            }
            s_add.data[k] = r;
            k = k + 1;
        }
        let u_ntt = u.ntt();
        proof {
            assert forall|a: int| 0 <= a < K implies (#[trigger] u_ntt.data@[a]).t == RingRepresentation::NTT
                && coeffs_below(u_ntt.data@[a].data@, 0x8000_0000) by {
                lemma_ntt_bound(u.data[a].data@);
            }
            assert forall|a: int| 0 <= a < K implies (#[trigger] s_add.data@[a]).t == RingRepresentation::NTT
                && coeffs_below(s_add.data@[a].data@, 0x8000_0000) by {
                assert forall|c: int| 0 <= c < 256 implies #[trigger] s_add.data@[a].data@[c] < 0x8000_0000 by {
                    lemma_mod_bound(sk[a].data[c] * lambda, field_q());
                }
            }
            assert(ring_coeffs(u_ntt.data@) =~= ntt_all(ring_coeffs(u.data@)));
            assert(ring_coeffs(s_add.data@) =~= scaled_key(sk, lambda as int));
            lemma_inner_product_bound(ring_coeffs(u_ntt.data@), ring_coeffs(s_add.data@), K as int);
        }
        let mut inner = u_ntt.inner_product(s_add);
        let ghost ip = inner.data@;
        inner.inverse_ntt();
        let ghost inner_spec = key_inner_product(ring_coeffs(u.data@), sk, lambda as int);
        proof {
            assert(inner.data@ == inner_spec);
            lemma_intt_bound(ip);
        }
        let mut w_share_q: [u32; 256] = [0u32; 256];
        let mut c: usize = 0;
        while c < 256
            invariant
                c <= 256,
                coeffs_below(inner.data@, field_q()),
                forall|i: int| 0 <= i < 256 ==> v.data[i] + field_q() <= u32::MAX,
                forall|i: int|
                    0 <= i < c ==> w_share_q[i] == w_share_coeff(v.data[i] as int, inner.data[i] as int, is_v_holder),
            decreases 256 - c,
        {
            assert(inner.data@[c as int] < field_q());
            if is_v_holder {
                w_share_q[c] = (v.data[c] + Q - inner.data[c]) % Q;
            } else {
                w_share_q[c] = (Q - inner.data[c]) % Q;
            }
            c = c + 1;
        }
        let q_prime = self.thr.q_prime;
        let q = self.thr.q;
        let mu_prime = self.thr.mu_prime;
        let mut w_prime = [0u64; 256];
        let mut e_prime = [0u64; 256];
        let mut c: usize = 0;
        while c < 256
            invariant
                c <= 256,
                q == self.thr.q,
                q_prime == self.thr.q_prime,
                mu_prime == self.thr.mu_prime,
                q > 0,
                q_prime > 0,
                mu_prime > 0,
                forall|i: int|
                    0 <= i < c ==> w_prime[i] == mod_switch_spec(w_share_q[i] as int, q as int, q_prime as int),
                forall|i: int| 0 <= i < c ==> e_prime[i] == w_prime[i] % mu_prime,
            decreases 256 - c,
        {
            w_prime[c] = mod_switch_coeff(w_share_q[c] as u64, q, q_prime);
            e_prime[c] = w_prime[c] % mu_prime;
            c = c + 1;
        }
        proof {
            assert(w_prime@ =~= w_prime_spec(
                ring_coeffs(u.data@),
                v.data@,
                sk,
                lambda as int,
                is_v_holder,
                self.thr,
            ));
            assert(e_prime@ =~= e_prime_spec(w_prime@, self.thr));
        }
        PartialDecOutput { w_prime, e_prime }
    }

    /// Partial decryption of a compressed ciphertext: decompress `u` from
    /// `D_U` and `v` from `D_V` bits, then run `partial_decrypt`.
    pub fn partial_decrypt_compressed<const D_U: usize, const D_V: usize>(
        &self,
        c: Cyphertext<K, D_U, D_V>,
        active_ids: &[u32],
        is_v_holder: bool,
    ) -> (out: PartialDecOutput)
        requires
            K > 0,
            1 <= D_U < 32,
            1 <= D_V < 32,
            self.thr.wf(),
            self.key_ready(),
            self.id <= field_q(),
            lagrange_den(active_ids@, self.id) % field_q() != 0,
            forall|k: int| 0 <= k < K ==> (#[trigger] c.0.0.data[k]).t == RingRepresentation::Degree255,
            forall|i: int| 0 <= i < 256 ==> decompress_coeff(#[trigger] c.1.0.data[i] as int, D_V as nat) + field_q() <= u32::MAX,
        ensures
            out.w_prime@ == w_prime_spec(
                decompressed_vector(c.0.0, D_U as nat),
                decompressed_ring(c.1.0, D_V as nat),
                self.sk_share.vector.data@,
                lagrange_coeff(active_ids@, self.id),
                is_v_holder,
                self.thr,
            ),
            out.e_prime@ == e_prime_spec(out.w_prime@, self.thr),
    {
        let (cu, cv) = c;
        let u = cu.decompress();
        let v = cv.decompress();
        proof {
            assert forall|k: int| 0 <= k < K implies #[trigger] ring_coeffs(u.data@)[k] =~= decompressed_vector(
                c.0.0,
                D_U as nat,
            )[k] by {
                assert(ring_coeffs(u.data@)[k] == u.data[k].data@);
            }
            assert(ring_coeffs(u.data@) =~= decompressed_vector(c.0.0, D_U as nat));
            assert(v.data@ =~= decompressed_ring(c.1.0, D_V as nat));
        }
        self.partial_decrypt(&u, &v, active_ids, is_v_holder)
    }

    /// Masking, once per parallel double sharing `j`:
    /// `<e~_j>^{mu'} := <e'>^{mu'} + <d_j>^{mu'}` modulo `mu'`.
    pub fn mask(&self, e_prime: &[u64; 256]) -> (out: Vec<[u64; 256]>)
        requires
            self.thr.wf(),
            self.dbl.wf(),
            forall|j: int, c: int|
                0 <= j < self.dbl.mu_prime@.len() && 0 <= c < 256 ==> e_prime[c] + (
                #[trigger] self.dbl.mu_prime@[j][c]) <= u64::MAX,
        ensures
            out@.len() == self.dbl.mu_prime@.len(),
            forall|j: int, c: int|
                0 <= j < out@.len() && 0 <= c < 256 ==> (#[trigger] out@[j][c]) == (e_prime[c]
                    + self.dbl.mu_prime@[j][c]) % (self.thr.mu_prime as int),
    {
        proof {
            lemma_thr_moduli(self.thr);
        }
        let mu_prime = self.thr.mu_prime;
        let ell = self.dbl.ell();
        let mut out: Vec<[u64; 256]> = Vec::with_capacity(ell);
        let mut j: usize = 0;
        while j < ell
            invariant
                j <= ell,
                ell == self.dbl.mu_prime@.len(),
                mu_prime == self.thr.mu_prime,
                mu_prime > 0,
                forall|a: int, c: int|
                    0 <= a < self.dbl.mu_prime@.len() && 0 <= c < 256 ==> e_prime[c] + (
                    #[trigger] self.dbl.mu_prime@[a][c]) <= u64::MAX,
                out@.len() == j,
                forall|a: int, c: int|
                    0 <= a < j && 0 <= c < 256 ==> (#[trigger] out@[a][c]) == (e_prime[c]
                        + self.dbl.mu_prime@[a][c]) % (mu_prime as int),
            decreases ell - j,
        {
            let d = &self.dbl.mu_prime[j];
            let mut masked = [0u64; 256];
            let mut c: usize = 0;
            while c < 256
                invariant
                    c <= 256,
                    mu_prime > 0,
                    *d == self.dbl.mu_prime@[j as int],
                    forall|i: int| 0 <= i < 256 ==> e_prime[i] + d[i] <= u64::MAX,
                    forall|i: int| 0 <= i < c ==> masked[i] == (e_prime[i] + d[i]) % (mu_prime as int),
                decreases 256 - c,
            {
                masked[c] = (e_prime[c] + d[c]) % mu_prime;
                c = c + 1;
            }
            out.push(masked);
            j = j + 1;
        }
        out
    }

    /// Finalisation, once per parallel double sharing `j`, from the opened
    /// `e~_j`: `<e'>^{q'}_j := (e~_j if holder) - <d_j>^{q'}` and
    /// `<mu' m>^{q'}_j := <w'>^{q'} - <e'>^{q'}_j`, all modulo `q'`.
    pub fn finalize(&self, w_prime: &[u64; 256], e_tilde_opened: &[[u64; 256]], is_v_holder: bool) -> (out:
        Vec<[u64; 256]>)
        requires
            self.thr.wf(),
            self.dbl.wf(),
            e_tilde_opened@.len() == self.dbl.q_prime@.len(),
        ensures
            out@.len() == self.dbl.q_prime@.len(),
            forall|j: int, c: int|
                0 <= j < out@.len() && 0 <= c < 256 ==> (#[trigger] out@[j][c]) == finalize_coeff(
                    w_prime[c] as int,
                    e_tilde_opened@[j][c] as int,
                    self.dbl.q_prime@[j][c] as int,
                    is_v_holder,
                    self.thr.q_prime as int,
                ),
    {
        proof {
            lemma_thr_moduli(self.thr);
        }
        let q_prime = self.thr.q_prime;
        let ell = self.dbl.ell();
        let mut out: Vec<[u64; 256]> = Vec::with_capacity(ell);
        let mut j: usize = 0;
        while j < ell
            invariant
                j <= ell,
                ell == self.dbl.q_prime@.len(),
                e_tilde_opened@.len() == ell,
                q_prime == self.thr.q_prime,
                q_prime == 0x2000_0000,
                out@.len() == j,
                forall|a: int, c: int|
                    0 <= a < j && 0 <= c < 256 ==> (#[trigger] out@[a][c]) == finalize_coeff(
                        w_prime[c] as int,
                        e_tilde_opened@[a][c] as int,
                        self.dbl.q_prime@[a][c] as int,
                        is_v_holder,
                        q_prime as int,
                    ),
            decreases ell - j,
        {
            let e_tilde_j = &e_tilde_opened[j];
            let d_qprime_j = &self.dbl.q_prime[j];
            let mut mu_m = [0u64; 256];
            let mut c: usize = 0;
            while c < 256
                invariant
                    c <= 256,
                    q_prime == 0x2000_0000,
                    *e_tilde_j == e_tilde_opened@[j as int],
                    *d_qprime_j == self.dbl.q_prime@[j as int],
                    forall|i: int|
                        0 <= i < c ==> mu_m[i] == finalize_coeff(
                            w_prime[i] as int,
                            e_tilde_j[i] as int,
                            d_qprime_j[i] as int,
                            is_v_holder,
                            q_prime as int,
                        ),
                decreases 256 - c,
            {
                let e_prime_qprime = if is_v_holder {
                    (e_tilde_j[c] % q_prime + q_prime - d_qprime_j[c] % q_prime) % q_prime
                } else {
                    (q_prime - d_qprime_j[c] % q_prime) % q_prime
                };
                mu_m[c] = (w_prime[c] % q_prime + q_prime - e_prime_qprime) % q_prime;
                c = c + 1;
            }
            out.push(mu_m);
            j = j + 1;
        }
        out
    }
}


/// The compressed path is the plain path on the decompressed ciphertext:
/// when `u` and `v` are what `Compressed::decompress` gives from `c`, the
/// requirements of `partial_decrypt_compressed` on `c` give those of
/// `partial_decrypt` on `(u, v)`, and both return the same `w'` (and so the
/// same `e'`).
pub proof fn lemma_compressed_path_is_plain_path<const K: usize, const D_U: usize, const D_V: usize>(
    party: Party<K>,
    c: Cyphertext<K, D_U, D_V>,
    u: Vector<K>,
    v: Ring,
    active_ids: Seq<u32>,
    is_v_holder: bool,
)
    requires
        forall|i: int, j: int|
            0 <= i < K && 0 <= j < 256 ==> (#[trigger] u.data[i].data[j]) == decompress_coeff(
                c.0.0.data[i].data[j] as int,
                D_U as nat,
            ),
        forall|i: int| 0 <= i < K ==> (#[trigger] u.data[i]).t == c.0.0.data[i].t,
        forall|j: int| 0 <= j < 256 ==> v.data[j] == decompress_coeff(c.1.0.data[j] as int, D_V as nat),
    ensures
        (forall|k: int| 0 <= k < K ==> (#[trigger] c.0.0.data[k]).t == RingRepresentation::Degree255) ==> (forall|
            k: int,
        |
            0 <= k < K ==> (#[trigger] u.data[k]).t == RingRepresentation::Degree255),
        (forall|i: int|
            0 <= i < 256 ==> decompress_coeff(#[trigger] c.1.0.data[i] as int, D_V as nat) + field_q() <= u32::MAX)
            ==> (forall|i: int| 0 <= i < 256 ==> #[trigger] v.data[i] + field_q() <= u32::MAX),
        w_prime_spec(
            decompressed_vector(c.0.0, D_U as nat),
            decompressed_ring(c.1.0, D_V as nat),
            party.sk_share.vector.data@,
            lagrange_coeff(active_ids, party.id),
            is_v_holder,
            party.thr,
        ) == w_prime_spec(
            ring_coeffs(u.data@),
            v.data@,
            party.sk_share.vector.data@,
            lagrange_coeff(active_ids, party.id),
            is_v_holder,
            party.thr,
        ),
{
    assert forall|k: int| 0 <= k < K implies #[trigger] ring_coeffs(u.data@)[k] =~= decompressed_vector(
        c.0.0,
        D_U as nat,
    )[k] by {
        assert(ring_coeffs(u.data@)[k] == u.data[k].data@);
    }
    assert(ring_coeffs(u.data@) =~= decompressed_vector(c.0.0, D_U as nat));
    assert(v.data@ =~= decompressed_ring(c.1.0, D_V as nat));
}

} // verus!
