//! Trusted dealer of the threshold (Shamir) branch.
//!
//! The dealer runs K-PKE key generation, Shamir-shares the NTT-form secret
//! key across `n` parties, and produces additive double sharings
//! `(<r>^{q'}, <r>^{mu'})` of masking polynomials over the two rings
//! `Z_{q'}` and `Z_{mu'}`, where `q' = 2^round(log2 q)`, `mu = q / p` and
//! `mu' = q' / p`.
use vstd::prelude::*;
use vstd::arithmetic::power2::*;
use vstd::arithmetic::div_mod::*;
use crate::params::Q64;
use crate::arith::{sum_mod, lemma_sum_mod_bound};
use crate::additive_2k::lemma_u128_shl_pow2;
use crate::crypt::{new_rng, rng_below_u64};
use rand::rngs::StdRng;
use crate::params::field_q;
use crate::ring::Vector;
use crate::shamir_ring::{VectorShare, share_vector, is_vector_shamir_sharing};
use crate::kpke::{KpkeEncryptionKey, key_gen, is_key_pair_from_seed, eta_ok};

verus! {

/// `floor(log2 x)` for `x >= 1`.
pub open spec fn floor_log2(x: nat) -> nat
    decreases x,
{
    if x < 2 {
        0
    } else {
        1 + floor_log2(x / 2)
    }
}

/// The exponent of the power of two nearest to `x` on a logarithmic scale:
/// `round(log2 x)`, i.e. `f + 1` when `x^2 >= 2^(2f+1)` for `f = floor(log2 x)`.
pub open spec fn nearest_log2(x: nat) -> nat {
    let f = floor_log2(x);
    if x * x >= pow2(2 * f + 1) {
        f + 1
    } else {
        f
    }
}

proof fn lemma_floor_log2_bound(x: nat)
    requires
        x >= 1,
    ensures
        pow2(floor_log2(x)) <= x,
    decreases x,
{
    lemma2_to64();
    if x >= 2 {
        lemma_floor_log2_bound(x / 2);
        lemma_pow2_unfold(floor_log2(x));
    }
}

/// `round(log2 q)`, computed exactly over the integers.
fn nearest_pow2_exponent(q: u64) -> (k: u32)
    requires
        q >= 1,
    ensures
        k == nearest_log2(q as nat),
{
    let mut x: u64 = q;
    let mut f: u32 = 0;
    proof {
        lemma2_to64();
    }
    while x >= 2
        invariant
            1 <= x <= q,
            f + floor_log2(x as nat) == floor_log2(q as nat),
            pow2(f as nat) * x <= q,
            f < 64,
        decreases x,
    {
        proof {
            lemma_pow2_unfold((f + 1) as nat);
            lemma_fundamental_div_mod(x as int, 2);
            vstd::arithmetic::mul::lemma_mul_is_distributive_add(pow2(f as nat) as int, 2 * (x as int / 2), x as int % 2);
            vstd::arithmetic::mul::lemma_mul_is_associative(pow2(f as nat) as int, 2, x as int / 2);
            vstd::arithmetic::mul::lemma_mul_nonnegative(pow2(f as nat) as int, x as int % 2);
            lemma2_to64_rest();
            if f + 1 > 64 {
                lemma_pow2_strictly_increases(64, (f + 1) as nat);
            }
        }
        x = x / 2;
        f = f + 1;
        proof {
            lemma_pow2_pos(f as nat);
            vstd::arithmetic::mul::lemma_mul_increases(x as int, pow2(f as nat) as int);
            vstd::arithmetic::mul::lemma_mul_is_commutative(x as int, pow2(f as nat) as int);
            lemma2_to64_rest();
            if f > 64 {
                lemma_pow2_strictly_increases(64, f as nat);
            }
        }
    }
    proof {
        lemma2_to64();
        lemma_u128_shl_pow2((2 * f + 1) as u32);
        vstd::arithmetic::mul::lemma_mul_upper_bound(q as int, 0xffff_ffff_ffff_ffff, q as int, 0xffff_ffff_ffff_ffff);
    }
    let sq: u128 = (q as u128) * (q as u128);
    if sq >= (1u128 << (2 * f + 1)) {
        f + 1
    } else {
        f
    }
}

/// `p` is a power of two below `2^64`.
pub open spec fn is_pow2_u64(p: u64) -> bool {
    exists|e: nat| e < 64 && p == pow2(e)
}

/// The switched modulus `q' = 2^round(log2 q) = 2^29` of `q = 687659009`.
pub open spec fn q_prime_value() -> int {
    0x2000_0000
}

proof fn lemma_q_prime_exponent()
    ensures
        nearest_log2(Q64 as nat) == 29,
        pow2(29) == q_prime_value(),
{
    reveal_with_fuel(floor_log2, 31);
    assert(floor_log2(687659009) == 29);
    lemma2_to64();
    lemma2_to64_rest();
    assert(pow2(59) == 0x800_0000_0000_0000);
    assert(687659009 * 687659009 < 0x800_0000_0000_0000);
}

/// Parameters of the mask-then-open threshold decryption, derived from the
/// ciphertext modulus `q` and a power-of-two plaintext modulus `p`.
#[derive(Clone, Copy, Debug)]
pub struct ThrParams {
    pub q: u64,
    pub p: u64,
    pub mu: u64,
    pub q_prime: u64,
    pub mu_prime: u64,
}

impl ThrParams {
    /// Parameters as `new` derives them from `p`.
    pub open spec fn wf(self) -> bool {
        &&& self.q == Q64
        &&& is_pow2_u64(self.p)
        &&& self.q_prime == q_prime_value()
        &&& self.q_prime % self.p == 0
        &&& self.mu == Q64 / self.p
        &&& self.mu_prime == self.q_prime / self.p
    }

    /// Build from `q` and a power-of-two plaintext modulus `p`; `q'` is the
    /// power of two nearest to `q`, and `p` must divide it.
    pub fn new(p: u64) -> (r: Self)
        requires
            is_pow2_u64(p),
            q_prime_value() % (p as int) == 0,
        ensures
            r.wf(),
            r.p == p,
    {
        let q = Q64;
        let k = nearest_pow2_exponent(q);
        proof {
            lemma_q_prime_exponent();
            lemma_u128_shl_pow2(29);
            let e = choose|e: nat| e < 64 && p == pow2(e);
            lemma_pow2_pos(e);
        }
        let q_prime: u64 = 1u64 << k;
        proof {
            assert(k == 29);
            assert((1u64 << 29u32) == 0x2000_0000) by (bit_vector);
        }
        ThrParams { q, p, mu: q / p, q_prime, mu_prime: q_prime / p }
    }
}

/// One party's additive share of the masking polynomials `r_1, ..., r_ell`
/// over both rings: `q_prime[j]` over `Z_{q'}`, `mu_prime[j]` over `Z_{mu'}`.
#[derive(Clone, Debug)]
pub struct DoubleShare {
    pub party_id: u32,
    pub q_prime: Vec<[u64; 256]>,
    pub mu_prime: Vec<[u64; 256]>,
}

impl DoubleShare {
    /// Both share lists hold one entry per parallel sharing.
    pub open spec fn wf(&self) -> bool {
        self.q_prime@.len() == self.mu_prime@.len()
    }

    /// Number of parallel double sharings this share carries.
    pub fn ell(&self) -> (r: usize)
        requires
            self.wf(),
        ensures
            r == self.q_prime@.len(),
            r == self.mu_prime@.len(),
    {
        self.q_prime.len()
    }
}

/// Coefficient `c` of every share, as integers.
pub open spec fn share_coeff_column(shares: Seq<[u64; 256]>, c: int) -> Seq<int> {
    Seq::new(shares.len(), |i: int| shares[i][c] as int)
}

/// `shares` are `n` additive shares modulo `m` of the 256 values of
/// `secret` reduced modulo `m`, every share in `[0, m)`.
pub open spec fn is_coeff_sharing(shares: Seq<[u64; 256]>, secret: Seq<u64>, n: int, m: int) -> bool {
    &&& shares.len() == n
    &&& forall|i: int, c: int| 0 <= i < n && 0 <= c < 256 ==> #[trigger] shares[i][c] < m
    &&& forall|c: int|
        0 <= c < 256 ==> sum_mod(#[trigger] share_coeff_column(shares, c), m) == secret[c] as int % m
}

/// Additively share the 256 values of `secret` modulo `m` across `n`
/// parties: `n - 1` uniform shares, the last one completing the sum.
fn additive_share_coeffs(secret: &[u64; 256], n: usize, m: u64, rng: &mut StdRng) -> (shares: Vec<
    [u64; 256],
>)
    requires
        n >= 1,
        m > 0,
        m <= 0x8000_0000_0000_0000,
    ensures
        is_coeff_sharing(shares@, secret@, n as int, m as int),
{
    let mut shares: Vec<[u64; 256]> = Vec::with_capacity(n);
    let mut i: usize = 0;
    while i < n
        invariant
            i <= n,
            shares@.len() == i,
            forall|a: int, c: int| 0 <= a < i && 0 <= c < 256 ==> #[trigger] shares@[a][c] == 0,
        decreases n - i,
    {
        shares.push([0u64; 256]);
        i = i + 1;
    }
    let mut c: usize = 0;
    while c < 256
        invariant
            c <= 256,
            n >= 1,
            0 < m <= 0x8000_0000_0000_0000,
            shares@.len() == n,
            forall|a: int, cc: int| 0 <= a < n && 0 <= cc < c ==> #[trigger] shares@[a][cc] < m,
            forall|cc: int|
                0 <= cc < c ==> sum_mod(#[trigger] share_coeff_column(shares@, cc), m as int)
                    == secret@[cc] as int % m as int,
        decreases 256 - c,
    {
        let ghost before = shares@;
        let mut acc: u64 = 0;
        let mut a: usize = 0;
        while a < n - 1
            invariant
                a <= n - 1,
                c < 256,
                0 < m <= 0x8000_0000_0000_0000,
                shares@.len() == n,
                acc < m,
                acc == sum_mod(share_coeff_column(shares@, c as int).subrange(0, a as int), m as int),
                forall|b: int| 0 <= b < a ==> #[trigger] shares@[b][c as int] < m,
                forall|b: int, cc: int|
                    0 <= b < n && 0 <= cc < 256 && (cc != c || b >= a) ==> #[trigger] shares@[b][cc]
                        == before[b][cc],
            decreases n - 1 - a,
        {
            let r = rng_below_u64(rng, m);
            let mut sh = shares[a];
            sh[c] = r;
            let ghost prev = shares@;
            shares.set(a, sh);
            proof {
                let col = share_coeff_column(shares@, c as int);
                assert(col.subrange(0, a + 1).drop_last() =~= share_coeff_column(prev, c as int).subrange(0, a as int));
                lemma_mod_bound(acc + r, m as int);
            }
            acc = (acc + r) % m;
            a = a + 1;
        }
        let last = (secret[c] % m + m - acc) % m;
        let mut sh = shares[n - 1];
        sh[c] = last;
        let ghost prev = shares@;
        shares.set(n - 1, sh);
        proof {
            let col = share_coeff_column(shares@, c as int);
            assert(col.drop_last() =~= share_coeff_column(prev, c as int).subrange(0, n - 1));
            assert(col.subrange(0, n as int) =~= col);
            let sv = secret@[c as int] as int;
            let big_x = sv % (m as int) + m - acc;
            lemma_mod_bound(sv, m as int);
            assert(last as int == big_x % (m as int));
            assert(col.last() == last as int);
            assert(sum_mod(col, m as int) == (acc + last) % (m as int));
            lemma_add_mod_noop_right(acc as int, big_x, m as int);
            assert(acc + big_x == sv % (m as int) + m);
            lemma_mod_add_multiples_vanish(sv % (m as int), m as int);
            lemma_mod_twice(sv, m as int);
            assert(sum_mod(col, m as int) == sv % (m as int));
            assert forall|cc: int| 0 <= cc < c implies sum_mod(#[trigger] share_coeff_column(shares@, cc), m as int)
                == secret@[cc] as int % m as int by {
                assert(share_coeff_column(shares@, cc) =~= share_coeff_column(before, cc));
            }
        }
        c = c + 1;
    }
    shares
}


proof fn lemma_quotient_pos(a: int, b: int)
    requires
        a > 0,
        b > 0,
        a % b == 0,
    ensures
        a / b >= 1,
        a / b <= a,
{
    lemma_fundamental_div_mod(a, b);
    if a / b == 0 {
        assert(a == b * 0);
    }
    lemma_div_is_ordered_by_denominator(a, 1, b);
}

/// Well-formed parameters have positive moduli `q' = 2^29` and `mu' <= q'`.
pub proof fn lemma_thr_moduli(thr: ThrParams)
    requires
        thr.wf(),
    ensures
        thr.q_prime == 0x2000_0000,
        1 <= thr.mu_prime <= thr.q_prime,
        thr.p >= 1,
{
    let e = choose|e: nat| e < 64 && thr.p == pow2(e);
    lemma_pow2_pos(e);
    lemma_quotient_pos(thr.q_prime as int, thr.p as int);
}

/// The shares of round `j` over `Z_{q'}`, party by party.
pub open spec fn q_round(out: Seq<DoubleShare>, j: int) -> Seq<[u64; 256]> {
    Seq::new(out.len(), |i: int| out[i].q_prime@[j])
}

/// The shares of round `j` over `Z_{mu'}`, party by party.
pub open spec fn mu_round(out: Seq<DoubleShare>, j: int) -> Seq<[u64; 256]> {
    Seq::new(out.len(), |i: int| out[i].mu_prime@[j])
}

/// One round of a double sharing: `r` has 256 values in `[0, mu')`, shared
/// additively by `qs` modulo `q'` and by `ms` modulo `mu'` across `n` parties.
pub open spec fn is_double_round(qs: Seq<[u64; 256]>, ms: Seq<[u64; 256]>, r: Seq<u64>, n: int, thr: ThrParams) -> bool {
    &&& r.len() == 256
    &&& forall|c: int| 0 <= c < 256 ==> r[c] < thr.mu_prime
    &&& is_coeff_sharing(qs, r, n, thr.q_prime as int)
    &&& is_coeff_sharing(ms, r, n, thr.mu_prime as int)
}

/// `out` holds `ell` parallel double sharings across `n` parties, of the
/// masking values `masks[j]` in round `j`, with party ids `1..=n`.
pub open spec fn is_double_sharing_of(
    out: Seq<DoubleShare>,
    n: int,
    ell: int,
    thr: ThrParams,
    masks: Seq<Seq<u64>>,
) -> bool {
    &&& out.len() == n
    &&& masks.len() == ell
    &&& forall|i: int|
        0 <= i < n ==> (#[trigger] out[i]).party_id == (i + 1) as u32 && out[i].q_prime@.len() == ell
            && out[i].mu_prime@.len() == ell
    &&& forall|j: int|
        0 <= j < ell ==> #[trigger] is_double_round(q_round(out, j), mu_round(out, j), masks[j], n, thr)
}

/// `out` holds `ell` parallel double sharings across `n` parties: ids
/// `1..=n`, and in every round `j` some masking values `r_j` in `[0, mu')`
/// additively shared both modulo `q'` and modulo `mu'`.
pub open spec fn is_double_sharing(out: Seq<DoubleShare>, n: int, ell: int, thr: ThrParams) -> bool {
    exists|masks: Seq<Seq<u64>>| #[trigger] is_double_sharing_of(out, n, ell, thr, masks)
}

/// The output of key generation with secret-key sharing: the encryption key
/// and the `n` Shamir shares of the NTT-form secret key.
pub struct KeyShares<const K: usize> {
    pub ek: KpkeEncryptionKey<K>,
    pub sk_shares: Vec<VectorShare<K>>,
}

/// Trusted dealer holding the threshold configuration: Shamir polynomials of
/// degree `t`, `n` parties.
pub struct Dealer {
    pub t: usize,
    pub n: usize,
    pub thr: ThrParams,
}

impl Dealer {
    /// A dealer for a `(t, n)` threshold (`t < n`) and plaintext modulus `p`.
    pub fn new(t: usize, n: usize, p: u64) -> (d: Self)
        requires
            t < n,
            is_pow2_u64(p),
            q_prime_value() % (p as int) == 0,
        ensures
            d.t == t,
            d.n == n,
            d.thr.wf(),
            d.thr.p == p,
    {
        Dealer { t, n, thr: ThrParams::new(p) }
    }

    /// `ell` independent additive double sharings `(<r_j>^{q'}, <r_j>^{mu'})`
    /// for the `n` parties: each `r_j` has coefficients uniform in
    /// `[0, mu')` and is shared independently over `Z_{q'}` and `Z_{mu'}`.
    pub fn generate_double_sharing(&self, ell: usize) -> (out: Vec<DoubleShare>)
        requires
            ell >= 1,
            self.n >= 1,
            self.thr.wf(),
        ensures
            is_double_sharing(out@, self.n as int, ell as int, self.thr),
    {
        proof {
            lemma_thr_moduli(self.thr);
        }
        let n = self.n;
        let mut rng = new_rng();
        let mut rounds_q: Vec<Vec<[u64; 256]>> = Vec::with_capacity(ell);
        let mut rounds_mu: Vec<Vec<[u64; 256]>> = Vec::with_capacity(ell);
        let ghost mut masks: Seq<Seq<u64>> = Seq::empty();
        let mut j: usize = 0;
        while j < ell
            invariant
                j <= ell,
                n == self.n,
                n >= 1,
                self.thr.wf(),
                self.thr.q_prime == 0x2000_0000,
                1 <= self.thr.mu_prime <= self.thr.q_prime,
                rounds_q@.len() == j,
                rounds_mu@.len() == j,
                masks.len() == j,
                forall|a: int| 0 <= a < j ==> (#[trigger] rounds_q@[a]@).len() == n,
                forall|a: int| 0 <= a < j ==> (#[trigger] rounds_mu@[a]@).len() == n,
                forall|a: int|
                    0 <= a < j ==> is_double_round(
                        #[trigger] rounds_q@[a]@,
                        rounds_mu@[a]@,
                        masks[a],
                        n as int,
                        self.thr,
                    ),
            decreases ell - j,
        {
            let mut r = [0u64; 256];
            let mut c: usize = 0;
            while c < 256
                invariant
                    c <= 256,
                    self.thr.mu_prime >= 1,
                    forall|cc: int| 0 <= cc < c ==> r[cc] < self.thr.mu_prime,
                decreases 256 - c,
            {
                r[c] = rng_below_u64(&mut rng, self.thr.mu_prime);
                c = c + 1;
            }
            let qp_shares = additive_share_coeffs(&r, n, self.thr.q_prime, &mut rng);
            let mp_shares = additive_share_coeffs(&r, n, self.thr.mu_prime, &mut rng);
            let ghost oldq = rounds_q@;
            let ghost oldmu = rounds_mu@;
            rounds_q.push(qp_shares);
            rounds_mu.push(mp_shares);
            proof {
                masks = masks.push(r@);
                assert(rounds_q@[j as int]@ == qp_shares@);
                assert(rounds_mu@[j as int]@ == mp_shares@);
                assert(is_double_round(qp_shares@, mp_shares@, r@, n as int, self.thr));
                assert forall|a: int| 0 <= a < j + 1 implies is_double_round(
                    #[trigger] rounds_q@[a]@,
                    rounds_mu@[a]@,
                    masks[a],
                    n as int,
                    self.thr,
                ) by {
                    if a < j {
                        assert(rounds_q@[a] == oldq[a]);
                        assert(rounds_mu@[a] == oldmu[a]);
                    }
                }
            }
            j = j + 1;
        }
        let mut out: Vec<DoubleShare> = Vec::with_capacity(n);
        let mut i: usize = 0;
        while i < n
            invariant
                i <= n,
                n == self.n,
                rounds_q@.len() == ell,
                rounds_mu@.len() == ell,
                masks.len() == ell,
                forall|a: int| 0 <= a < ell ==> (#[trigger] rounds_q@[a]@).len() == n,
                forall|a: int| 0 <= a < ell ==> (#[trigger] rounds_mu@[a]@).len() == n,
                forall|a: int|
                    0 <= a < ell ==> is_double_round(
                        #[trigger] rounds_q@[a]@,
                        rounds_mu@[a]@,
                        masks[a],
                        n as int,
                        self.thr,
                    ),
                out@.len() == i,
                forall|b: int|
                    0 <= b < i ==> (#[trigger] out@[b]).party_id == (b + 1) as u32 && out@[b].q_prime@.len() == ell
                        && out@[b].mu_prime@.len() == ell,
                forall|b: int, a: int|
                    0 <= b < i && 0 <= a < ell ==> #[trigger] out@[b].q_prime@[a] == rounds_q@[a]@[b],
                forall|b: int, a: int|
                    0 <= b < i && 0 <= a < ell ==> #[trigger] out@[b].mu_prime@[a] == rounds_mu@[a]@[b],
            decreases n - i,
        {
            let mut q_list: Vec<[u64; 256]> = Vec::with_capacity(ell);
            let mut mu_list: Vec<[u64; 256]> = Vec::with_capacity(ell);
            let mut a: usize = 0;
            while a < ell
                invariant
                    a <= ell,
                    i < n,
                    rounds_q@.len() == ell,
                    rounds_mu@.len() == ell,
                    forall|b: int| 0 <= b < ell ==> (#[trigger] rounds_q@[b]@).len() == n,
                    forall|b: int| 0 <= b < ell ==> (#[trigger] rounds_mu@[b]@).len() == n,
                    q_list@.len() == a,
                    mu_list@.len() == a,
                    forall|b: int| 0 <= b < a ==> #[trigger] q_list@[b] == rounds_q@[b]@[i as int],
                    forall|b: int| 0 <= b < a ==> #[trigger] mu_list@[b] == rounds_mu@[b]@[i as int],
                decreases ell - a,
            {
                proof {
                    assert(rounds_q@[a as int]@.len() == n);
                    assert(rounds_mu@[a as int]@.len() == n);
                }
                q_list.push(rounds_q[a][i]);
                mu_list.push(rounds_mu[a][i]);
                a = a + 1;
            }
            out.push(DoubleShare { party_id: (i + 1) as u32, q_prime: q_list, mu_prime: mu_list });
            i = i + 1;
        }
        proof {
            assert forall|a: int| 0 <= a < ell implies #[trigger] is_double_round(
                q_round(out@, a),
                mu_round(out@, a),
                masks[a],
                n as int,
                self.thr,
            ) by {
                assert(q_round(out@, a) =~= rounds_q@[a]@);
                assert(mu_round(out@, a) =~= rounds_mu@[a]@);
            }
            assert(is_double_sharing_of(out@, n as int, ell as int, self.thr, masks));
        }
        out
    }
}

impl Dealer {
    /// Run K-PKE key generation and Shamir-share the NTT-form secret key
    /// (degree `t`, `n` parties; sharing is `F_q`-linear, so it commutes
    /// with the NTT).
    pub fn generate_keypair<const K: usize>(&self, eta_1: usize) -> (ks: KeyShares<K>)
        requires
            K > 0,
            2 * K <= usize::MAX,
            eta_ok(eta_1),
            self.t < self.n,
            self.n < field_q(),
        ensures
            exists|d: Seq<u8>, s: Vector<K>|
                #![trigger is_key_pair_from_seed((ks.ek, s), d, eta_1 as int)]
                d.len() == 32 && is_key_pair_from_seed((ks.ek, s), d, eta_1 as int) && is_vector_shamir_sharing(
                    ks.sk_shares@,
                    s,
                    self.t,
                    self.n,
                ),
    {
        let (ek, s) = key_gen::<K>(eta_1);
        let sk_shares = share_vector(&s, self.t, self.n);
        let ks = KeyShares { ek, sk_shares };
        proof {
            let d = choose|d: Seq<u8>| d.len() == 32 && #[trigger] is_key_pair_from_seed((ek, s), d, eta_1 as int);
            assert(d.len() == 32 && is_key_pair_from_seed((ks.ek, s), d, eta_1 as int) && is_vector_shamir_sharing(
                ks.sk_shares@,
                s,
                self.t,
                self.n,
            ));
        }
        ks
    }
}


/// Any `t + 1` or more of the key shares that `generate_keypair` hands
/// out, at distinct points, reconstruct the secret key: for shares as its
/// `ensures` describes them, the Lagrange sums at zero over such a subset
/// (what `reconstruct_vector` returns) give every coefficient of the
/// secret key of the key pair, modulo `q`.
pub proof fn lemma_generated_key_reconstructs<const K: usize>(
    dealer: Dealer,
    ks: KeyShares<K>,
    eta_1: usize,
    picked: Seq<VectorShare<K>>,
)
    requires
        dealer.n < field_q(),
        exists|d: Seq<u8>, s: Vector<K>|
            #![trigger is_key_pair_from_seed((ks.ek, s), d, eta_1 as int)]
            d.len() == 32 && is_key_pair_from_seed((ks.ek, s), d, eta_1 as int) && is_vector_shamir_sharing(
                ks.sk_shares@,
                s,
                dealer.t,
                dealer.n,
            ),
        picked.len() > dealer.t,
        forall|k: int| 0 <= k < picked.len() ==> ks.sk_shares@.contains(#[trigger] picked[k]),
        forall|k: int, l: int| 0 <= k < l < picked.len() ==> picked[k].x != picked[l].x,
    ensures
        K > 0 ==> crate::shamir::lagrange_defined(
            crate::shamir::share_points(crate::shamir_ring::vector_share_column(picked, 0, 0)),
        ),
        exists|d: Seq<u8>, s: Vector<K>|
            #![trigger is_key_pair_from_seed((ks.ek, s), d, eta_1 as int)]
            d.len() == 32 && is_key_pair_from_seed((ks.ek, s), d, eta_1 as int) && forall|i: int, c: int|
                0 <= i < K && 0 <= c < 256 ==> crate::shamir::lagrange_sum(
                    #[trigger] crate::shamir_ring::vector_share_column(picked, i, c),
                    crate::shamir::share_points(crate::shamir_ring::vector_share_column(picked, 0, 0)),
                ) == s.data[i].data[c] as int % field_q(),
{
    let (d, s) = choose|d: Seq<u8>, s: Vector<K>|
        #![trigger is_key_pair_from_seed((ks.ek, s), d, eta_1 as int)]
        d.len() == 32 && is_key_pair_from_seed((ks.ek, s), d, eta_1 as int) && is_vector_shamir_sharing(
            ks.sk_shares@,
            s,
            dealer.t,
            dealer.n,
        );
    crate::lagrange_laws::lemma_vector_shamir_reconstructs(ks.sk_shares@, s, dealer.t, dealer.n, picked);
}

} // verus!
