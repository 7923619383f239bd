//! Trusted dealer of the dishonest-majority (SPDZ2k) branch.
//!
//! The dealer shares the secret key additively over the lifted ring
//! `Z_{2^(k+s)}` across all `n` parties (reconstruction needs all of them),
//! and produces `ell` additive double sharings `(<d_j>^{q'}, <d_j>^{mu'})`
//! of masking polynomials over the power-of-two rings `Z_{q'}` and `Z_{mu'}`.
use vstd::prelude::*;
use vstd::arithmetic::power2::*;
use vstd::arithmetic::div_mod::*;
use crate::additive_2k::{self, AddShare, SpdzParams, is_additive_sharing, is_pow2_u128, lemma_share_modulus_fits};
use crate::crypt::{new_rng, rng_below_u128};
use crate::additive_ring::{VectorShare128, share_vector_lifted, is_vector_sharing};
use crate::kpke::{KpkeEncryptionKey, key_gen_2k, is_key_pair_2k_from_seed, eta_ok, cbd_poly_2k, sigma_of};
use crate::ring::Vector;
use crate::params::K_BITS;

verus! {

/// One party's additive double share of the masking polynomials
/// `d_1, ..., d_ell`: `q_prime[j]` over `Z_{q'}`, `mu_prime[j]` over `Z_{mu'}`.
#[derive(Clone, Debug)]
pub struct DoubleShare {
    pub party_id: u32,
    pub q_prime: Vec<[u128; 256]>,
    pub mu_prime: Vec<[u128; 256]>,
}

impl DoubleShare {
    /// Both share lists hold one entry per parallel sharing.
    pub open spec fn wf(&self) -> bool {
        self.q_prime@.len() == self.mu_prime@.len()
    }

    /// Number of parallel double sharings this share carries.
    pub fn ell(&self) -> (r: usize)
        requires
            self.wf(),
        ensures
            r == self.q_prime@.len(),
            r == self.mu_prime@.len(),
    {
        self.q_prime.len()
    }
}

/// Coefficient `c` of every party's share, with party ids `1..=n`.
pub open spec fn share_column(shares: Seq<[u128; 256]>, c: int) -> Seq<AddShare> {
    Seq::new(shares.len(), |i: int| AddShare { x: (i + 1) as u32, y: shares[i][c] })
}

/// `shares` are `n` additive shares modulo `m` of the 256 values `secret`.
pub open spec fn is_coeff_sharing(shares: Seq<[u128; 256]>, secret: Seq<u128>, n: int, m: int) -> bool {
    &&& shares.len() == n
    &&& forall|c: int|
        0 <= c < 256 ==> is_additive_sharing(#[trigger] share_column(shares, c), secret[c] as int, n, m)
}

/// One round of a double sharing: `d` has 256 values in `[0, mu')`, shared
/// additively by `qs` modulo `q'` and by `ms` modulo `mu'` across `n` parties.
pub open spec fn is_double_round(
    qs: Seq<[u128; 256]>,
    ms: Seq<[u128; 256]>,
    d: Seq<u128>,
    n: int,
    thr: SpdzParams,
) -> bool {
    &&& d.len() == 256
    &&& forall|c: int| 0 <= c < 256 ==> d[c] < thr.mu_prime
    &&& is_coeff_sharing(qs, d, n, thr.q_prime as int)
    &&& is_coeff_sharing(ms, d, n, thr.mu_prime as int)
}

/// The shares of round `j` over `Z_{q'}`, party by party.
pub open spec fn q_round(out: Seq<DoubleShare>, j: int) -> Seq<[u128; 256]> {
    Seq::new(out.len(), |i: int| out[i].q_prime@[j])
}

/// The shares of round `j` over `Z_{mu'}`, party by party.
pub open spec fn mu_round(out: Seq<DoubleShare>, j: int) -> Seq<[u128; 256]> {
    Seq::new(out.len(), |i: int| out[i].mu_prime@[j])
}

/// `out` holds `ell` parallel double sharings across `n` parties of the
/// masking values `masks[j]`, with party ids `1..=n`.
pub open spec fn is_double_sharing_of(
    out: Seq<DoubleShare>,
    n: int,
    ell: int,
    thr: SpdzParams,
    masks: Seq<Seq<u128>>,
) -> bool {
    &&& out.len() == n
    &&& masks.len() == ell
    &&& forall|i: int|
        0 <= i < n ==> (#[trigger] out[i]).party_id == (i + 1) as u32 && out[i].q_prime@.len() == ell
            && out[i].mu_prime@.len() == ell
    &&& forall|j: int|
        0 <= j < ell ==> #[trigger] is_double_round(q_round(out, j), mu_round(out, j), masks[j], n, thr)
}

/// `out` holds `ell` parallel double sharings across `n` parties: ids
/// `1..=n`, and in every round `j` some masking values `d_j` in `[0, mu')`
/// additively shared both modulo `q'` and modulo `mu'`.
pub open spec fn is_double_sharing(out: Seq<DoubleShare>, n: int, ell: int, thr: SpdzParams) -> bool {
    exists|masks: Seq<Seq<u128>>| #[trigger] is_double_sharing_of(out, n, ell, thr, masks)
}

/// The output of key generation with lifted secret-key sharing: the
/// encryption key and the `n` additive shares of the secret key.
pub struct KeyShares<const K: usize> {
    pub ek: KpkeEncryptionKey<K>,
    pub sk_shares: Vec<VectorShare128<K>>,
}

/// The dishonest-majority trusted dealer for `n` parties.
pub struct DealerSpdz {
    pub n: usize,
    pub thr: SpdzParams,
}

/// Well-formed parameters have moduli `mu' <= q' <= 2^127`, `mu' >= 1`.
pub proof fn lemma_spdz_moduli(thr: SpdzParams)
    requires
        thr.wf(),
    ensures
        1 <= thr.mu_prime <= thr.q_prime,
        thr.q_prime < 0x8000_0000_0000_0000_0000_0000_0000_0000,
        thr.q_prime == thr.m_base,
        thr.q == thr.q_prime,
        thr.p >= 1,
        1 <= thr.m_share <= 0x8000_0000_0000_0000_0000_0000_0000_0000,
{
    lemma_share_modulus_fits(thr);
    lemma_pow2_strictly_increases(thr.k as nat, 127);
    crate::additive_2k::lemma_u128_shl_pow2(127);
    assert((1u128 << 127u32) == 0x8000_0000_0000_0000_0000_0000_0000_0000) by (bit_vector);
    let e = choose|e: nat| e < 128 && thr.p == pow2(e);
    lemma_pow2_pos(e);
    lemma_pow2_pos(thr.k as nat);
    let q = pow2(thr.k as nat) as int;
    let p = thr.p as int;
    lemma_fundamental_div_mod(q, p);
    if q / p == 0 {
        assert(q == p * 0);
    }
    lemma_div_is_ordered_by_denominator(q, 1, p);
}

impl DealerSpdz {
    /// A dealer for `n >= 2` parties at parameters `(k, s, p)`.
    pub fn new(n: usize, k: u32, s: u32, p: u128) -> (d: Self)
        requires
            n >= 2,
            is_pow2_u128(p),
            k + s <= 120,
            k >= 1,
            pow2(k as nat) % (p as nat) == 0,
        ensures
            d.n == n,
            d.thr.derived(k, s, p),
            d.thr.wf(),
    {
        DealerSpdz { n, thr: SpdzParams::new(k, s, p) }
    }

    /// The dealer's parameters.
    pub fn params(&self) -> (r: &SpdzParams)
        ensures
            *r == self.thr,
    {
        &self.thr
    }

    /// `ell` independent additive double sharings `(<d_j>^{q'}, <d_j>^{mu'})`
    /// for the `n` parties: each `d_j` has coefficients uniform in `[0, mu')`
    /// and is shared independently over `Z_{q'}` and `Z_{mu'}`.
    pub fn generate_double_sharing(&self, ell: usize) -> (out: Vec<DoubleShare>)
        requires
            ell >= 1,
            self.n >= 2,
            self.thr.wf(),
        ensures
            is_double_sharing(out@, self.n as int, ell as int, self.thr),
    {
        proof {
            lemma_spdz_moduli(self.thr);
        }
        let n = self.n;
        let mut rng = new_rng();
        let mut rounds_q: Vec<Vec<[u128; 256]>> = Vec::with_capacity(ell);
        let mut rounds_mu: Vec<Vec<[u128; 256]>> = Vec::with_capacity(ell);
        let ghost mut masks: Seq<Seq<u128>> = Seq::empty();
        let mut j: usize = 0;
        while j < ell
            invariant
                j <= ell,
                n == self.n,
                n >= 2,
                self.thr.wf(),
                1 <= self.thr.mu_prime <= self.thr.q_prime,
                self.thr.q_prime <= 0x8000_0000_0000_0000_0000_0000_0000_0000,
                rounds_q@.len() == j,
                rounds_mu@.len() == j,
                masks.len() == j,
                forall|a: int| 0 <= a < j ==> (#[trigger] rounds_q@[a]@).len() == n,
                forall|a: int| 0 <= a < j ==> (#[trigger] rounds_mu@[a]@).len() == n,
                forall|a: int|
                    0 <= a < j ==> is_double_round(
                        #[trigger] rounds_q@[a]@,
                        rounds_mu@[a]@,
                        masks[a],
                        n as int,
                        self.thr,
                    ),
            decreases ell - j,
        {
            let mut d = [0u128; 256];
            let mut c: usize = 0;
            while c < 256
                invariant
                    c <= 256,
                    self.thr.mu_prime >= 1,
                    forall|cc: int| 0 <= cc < c ==> d[cc] < self.thr.mu_prime,
                decreases 256 - c,
            {
                d[c] = rng_below_u128(&mut rng, self.thr.mu_prime);
                c = c + 1;
            }
            let qs = self.share_coeffs(&d, self.thr.q_prime, &mut rng);
            let ms = self.share_coeffs(&d, self.thr.mu_prime, &mut rng);
            let ghost oldq = rounds_q@;
            let ghost oldmu = rounds_mu@;
            rounds_q.push(qs);
            rounds_mu.push(ms);
            proof {
                masks = masks.push(d@);
                assert(rounds_q@[j as int]@ == qs@);
                assert(rounds_mu@[j as int]@ == ms@);
                assert(is_double_round(qs@, ms@, d@, n as int, self.thr));
                assert forall|a: int| 0 <= a < j + 1 implies is_double_round(
                    #[trigger] rounds_q@[a]@,
                    rounds_mu@[a]@,
                    masks[a],
                    n as int,
                    self.thr,
                ) by {
                    if a < j {
                        assert(rounds_q@[a] == oldq[a]);
                        assert(rounds_mu@[a] == oldmu[a]);
                    }
                }
            }
            j = j + 1;
        }
        let mut out: Vec<DoubleShare> = Vec::with_capacity(n);
        let mut i: usize = 0;
        while i < n
            invariant
                i <= n,
                n == self.n,
                rounds_q@.len() == ell,
                rounds_mu@.len() == ell,
                masks.len() == ell,
                forall|a: int| 0 <= a < ell ==> (#[trigger] rounds_q@[a]@).len() == n,
                forall|a: int| 0 <= a < ell ==> (#[trigger] rounds_mu@[a]@).len() == n,
                forall|a: int|
                    0 <= a < ell ==> is_double_round(
                        #[trigger] rounds_q@[a]@,
                        rounds_mu@[a]@,
                        masks[a],
                        n as int,
                        self.thr,
                    ),
                out@.len() == i,
                forall|b: int|
                    0 <= b < i ==> (#[trigger] out@[b]).party_id == (b + 1) as u32 && out@[b].q_prime@.len() == ell
                        && out@[b].mu_prime@.len() == ell,
                forall|b: int, a: int|
                    0 <= b < i && 0 <= a < ell ==> #[trigger] out@[b].q_prime@[a] == rounds_q@[a]@[b],
                forall|b: int, a: int|
                    0 <= b < i && 0 <= a < ell ==> #[trigger] out@[b].mu_prime@[a] == rounds_mu@[a]@[b],
            decreases n - i,
        {
            let mut q_list: Vec<[u128; 256]> = Vec::with_capacity(ell);
            let mut mu_list: Vec<[u128; 256]> = Vec::with_capacity(ell);
            let mut a: usize = 0;
            while a < ell
                invariant
                    a <= ell,
                    i < n,
                    rounds_q@.len() == ell,
                    rounds_mu@.len() == ell,
                    forall|b: int| 0 <= b < ell ==> (#[trigger] rounds_q@[b]@).len() == n,
                    forall|b: int| 0 <= b < ell ==> (#[trigger] rounds_mu@[b]@).len() == n,
                    q_list@.len() == a,
                    mu_list@.len() == a,
                    forall|b: int| 0 <= b < a ==> #[trigger] q_list@[b] == rounds_q@[b]@[i as int],
                    forall|b: int| 0 <= b < a ==> #[trigger] mu_list@[b] == rounds_mu@[b]@[i as int],
                decreases ell - a,
            {
                proof {
                    assert(rounds_q@[a as int]@.len() == n);
                    assert(rounds_mu@[a as int]@.len() == n);
                }
                q_list.push(rounds_q[a][i]);
                mu_list.push(rounds_mu[a][i]);
                a = a + 1;
            }
            out.push(DoubleShare { party_id: (i + 1) as u32, q_prime: q_list, mu_prime: mu_list });
            i = i + 1;
        }
        proof {
            assert forall|a: int| 0 <= a < ell implies #[trigger] is_double_round(
                q_round(out@, a),
                mu_round(out@, a),
                masks[a],
                n as int,
                self.thr,
            ) by {
                assert(q_round(out@, a) =~= rounds_q@[a]@);
                assert(mu_round(out@, a) =~= rounds_mu@[a]@);
            }
            assert(is_double_sharing_of(out@, n as int, ell as int, self.thr, masks));
        }
        out
    }

    /// Share each of the 256 values of `d` additively modulo `m` across the
    /// `n` parties, coefficient by coefficient, and regroup the shares by
    /// party.
    fn share_coeffs(&self, d: &[u128; 256], m: u128, rng: &mut rand::rngs::StdRng) -> (shares: Vec<[u128; 256]>)
        requires
            self.n >= 2,
            m <= 0x8000_0000_0000_0000_0000_0000_0000_0000,
            forall|c: int| 0 <= c < 256 ==> d[c] < m,
        ensures
            is_coeff_sharing(shares@, d@, self.n as int, m as int),
    {
        let n = self.n;
        let mut per_coeff: Vec<Vec<AddShare>> = Vec::with_capacity(256);
        let mut c: usize = 0;
        while c < 256
            invariant
                c <= 256,
                n == self.n,
                n >= 2,
                m <= 0x8000_0000_0000_0000_0000_0000_0000_0000,
                forall|cc: int| 0 <= cc < 256 ==> d[cc] < m,
                per_coeff@.len() == c,
                forall|cc: int|
                    0 <= cc < c ==> is_additive_sharing(#[trigger] per_coeff@[cc]@, d[cc] as int, n as int, m as int),
            decreases 256 - c,
        {
            let s = additive_2k::share_with_rng(d[c], n, m, rng);
            per_coeff.push(s);
            c = c + 1;
        }
        let mut shares: Vec<[u128; 256]> = Vec::with_capacity(n);
        let mut i: usize = 0;
        while i < n
            invariant
                i <= n,
                n == self.n,
                per_coeff@.len() == 256,
                forall|cc: int|
                    0 <= cc < 256 ==> is_additive_sharing(#[trigger] per_coeff@[cc]@, d[cc] as int, n as int, m as int),
                shares@.len() == i,
                forall|b: int, cc: int|
                    0 <= b < i && 0 <= cc < 256 ==> #[trigger] shares@[b][cc] == per_coeff@[cc]@[b].y,
            decreases n - i,
        {
            let mut row = [0u128; 256];
            let mut c: usize = 0;
            while c < 256
                invariant
                    c <= 256,
                    i < n,
                    per_coeff@.len() == 256,
                    forall|cc: int|
                        0 <= cc < 256 ==> is_additive_sharing(
                            #[trigger] per_coeff@[cc]@,
                            d[cc] as int,
                            n as int,
                            m as int,
                        ),
                    forall|cc: int| 0 <= cc < c ==> row[cc] == per_coeff@[cc]@[i as int].y,
                decreases 256 - c,
            {
                proof {
                    assert(per_coeff@[c as int]@.len() == n);
                }
                row[c] = per_coeff[c][i].y;
                c = c + 1;
            }
            shares.push(row);
            i = i + 1;
        }
        proof {
            assert forall|cc: int| 0 <= cc < 256 implies is_additive_sharing(
                #[trigger] share_column(shares@, cc),
                d@[cc] as int,
                n as int,
                m as int,
            ) by {
                let col = per_coeff@[cc]@;
                assert forall|b: int| 0 <= b < n implies #[trigger] share_column(shares@, cc)[b] == col[b] by {
                    assert(col[b].x == (b + 1) as u32);
                }
                assert(share_column(shares@, cc) =~= col);
            }
        }
        shares
    }
}

impl DealerSpdz {
    /// Run the power-of-two K-PKE key generation and share the secret key
    /// additively over `Z_{2^(k+s)}` across the `n` parties.
    pub fn generate_keypair<const K: usize>(&self, eta_1: usize) -> (ks: KeyShares<K>)
        requires
            2 * K <= 255,
            256 * K * 256 * K * 16 <= isize::MAX,
            eta_ok(eta_1),
            self.n >= 2,
            self.thr.wf(),
            self.thr.k >= K_BITS,
        ensures
            exists|d: Seq<u8>, s: Vector<K>|
                #![trigger is_key_pair_2k_from_seed((ks.ek, s), d, eta_1 as int)]
                d.len() == 32 && is_key_pair_2k_from_seed((ks.ek, s), d, eta_1 as int) && is_vector_sharing(
                    ks.sk_shares@,
                    s,
                    self.n as int,
                    self.thr.m_share as int,
                ),
    {
        let (ek, s) = key_gen_2k::<K>(eta_1);
        proof {
            let d = choose|d: Seq<u8>| d.len() == 32 && #[trigger] is_key_pair_2k_from_seed((ek, s), d, eta_1 as int);
            lemma_key_2k_below_m_base(ek, s, d, eta_1 as int, self.thr);
        }
        let sk_shares = share_vector_lifted(&s, self.n, &self.thr);
        let ks = KeyShares { ek, sk_shares };
        proof {
            let d = choose|d: Seq<u8>| d.len() == 32 && #[trigger] is_key_pair_2k_from_seed((ek, s), d, eta_1 as int);
            assert(d.len() == 32 && is_key_pair_2k_from_seed((ks.ek, s), d, eta_1 as int) && is_vector_sharing(
                ks.sk_shares@,
                s,
                self.n as int,
                self.thr.m_share as int,
            ));
        }
        ks
    }
}


/// The secret key of a power-of-two key pair from a seed lies below
/// `m_base = 2^k` for `k >= K_BITS`.
proof fn lemma_key_2k_below_m_base<const K: usize>(
    ek: KpkeEncryptionKey<K>,
    s: Vector<K>,
    d: Seq<u8>,
    eta_1: int,
    thr: SpdzParams,
)
    requires
        thr.wf(),
        thr.k >= K_BITS,
        is_key_pair_2k_from_seed((ek, s), d, eta_1),
    ensures
        forall|k: int, c: int| 0 <= k < K && 0 <= c < 256 ==> s.data[k].data[c] < thr.m_base,
{
    assert forall|k: int, c: int| 0 <= k < K && 0 <= c < 256 implies s.data[k].data[c] < thr.m_base by {
        assert(s.data[k].data@ == cbd_poly_2k(sigma_of(d), k, eta_1));
        let v = crate::kpke::cbd_poly(sigma_of(d), k, eta_1)[c] as int;
        let sv = if v > crate::params::field_q() / 2 { v - crate::params::field_q() } else { v };
        lemma_mod_bound(sv, 0x4000_0000);
        if thr.k > K_BITS {
            lemma_pow2_strictly_increases(K_BITS as nat, thr.k as nat);
        }
        vstd::arithmetic::power2::lemma2_to64();
    }
}

/// The key shares that `generate_keypair` hands out add up to the secret
/// key: for shares as its `ensures` describes them, they can be summed, and
/// lifted reconstruction (`reconstruct_vector_lifted`) of all `n` of them
/// gives back every coefficient of the secret key of the key pair.
pub proof fn lemma_generated_key_reconstructs_2k<const K: usize>(dealer: DealerSpdz, ks: KeyShares<K>, eta_1: usize)
    requires
        dealer.thr.wf(),
        dealer.thr.k >= K_BITS,
        exists|d: Seq<u8>, s: Vector<K>|
            #![trigger is_key_pair_2k_from_seed((ks.ek, s), d, eta_1 as int)]
            d.len() == 32 && is_key_pair_2k_from_seed((ks.ek, s), d, eta_1 as int) && is_vector_sharing(
                ks.sk_shares@,
                s,
                dealer.n as int,
                dealer.thr.m_share as int,
            ),
    ensures
        crate::additive_ring::vector_shares_summable(ks.sk_shares@, dealer.thr.m_share as int),
        exists|d: Seq<u8>, s: Vector<K>|
            #![trigger is_key_pair_2k_from_seed((ks.ek, s), d, eta_1 as int)]
            d.len() == 32 && is_key_pair_2k_from_seed((ks.ek, s), d, eta_1 as int) && forall|k: int, c: int|
                0 <= k < K && 0 <= c < 256 ==> additive_2k::share_sum(
                    #[trigger] crate::additive_ring::vector_column(ks.sk_shares@, k, c),
                    dealer.thr.m_share as int,
                ) % (dealer.thr.m_base as int) == s.data[k].data[c],
{
    let (d, s) = choose|d: Seq<u8>, s: Vector<K>|
        #![trigger is_key_pair_2k_from_seed((ks.ek, s), d, eta_1 as int)]
        d.len() == 32 && is_key_pair_2k_from_seed((ks.ek, s), d, eta_1 as int) && is_vector_sharing(
            ks.sk_shares@,
            s,
            dealer.n as int,
            dealer.thr.m_share as int,
        );
    lemma_key_2k_below_m_base(ks.ek, s, d, eta_1 as int, dealer.thr);
    crate::additive_ring::lemma_vector_lifted_reconstructs(ks.sk_shares@, s, dealer.n as int, dealer.thr);
}

} // verus!
