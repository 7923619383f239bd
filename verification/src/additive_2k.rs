//! Scalar additive secret sharing over `Z_{2^(k+s)}` (SPDZ2k lift).
//!
//! Reconstruction is the plain sum of all `n` shares. Secret values live in
//! `[0, 2^k)` and are shared in the lifted ring `Z_{2^(k+s)}`: the first
//! `n - 1` shares are uniform and the last one makes the sum equal to the
//! secret. Reducing the reconstruction modulo `2^k` recovers the base value.
use vstd::prelude::*;
use vstd::arithmetic::power2::*;
use vstd::arithmetic::div_mod::*;
use vstd::arithmetic::mul::*;
use crate::crypt::{new_rng, rng_below_u128};
use rand::rngs::StdRng;

verus! {

/// `1 << e` on `u128` is `2^e`.
pub proof fn lemma_u128_shl_pow2(e: u32)
    requires
        e < 128,
    ensures
        (1u128 << e) as nat == pow2(e as nat),
    decreases e,
{
    if e == 0 {
        assert((1u128 << 0u32) == 1) by (bit_vector);
        lemma2_to64();
    } else {
        lemma_u128_shl_pow2((e - 1) as u32);
        let em1 = (e - 1) as u32;
        assert((1u128 << e) == 2 * (1u128 << em1)) by (bit_vector)
            requires e < 128, em1 == e - 1, e > 0;
        lemma_pow2_unfold(e as nat);
    }
}

/// `p` is a power of two below `2^128`.
pub open spec fn is_pow2_u128(p: u128) -> bool {
    exists|e: nat| e < 128 && p == pow2(e)
}

/// SPDZ2k modulus parameters: the lifted ring `m_share = 2^(k+s)` that shares
/// the long-lived secret key, and the base rings `q = m_base = 2^k`,
/// `q' = 2^round(log2 q)` (equal to `q` here), `mu = q / p`, `mu' = q' / p`.
#[derive(Clone, Copy, Debug)]
pub struct SpdzParams {
    pub k: u32,
    pub s: u32,
    pub p: u128,
    pub m_base: u128,
    pub m_share: u128,
    pub q: u128,
    pub q_prime: u128,
    pub mu: u128,
    pub mu_prime: u128,
}

impl SpdzParams {
    /// The parameters derived from `(k, s, p)` as `new` computes them.
    pub open spec fn derived(self, k: u32, s: u32, p: u128) -> bool {
        &&& self.k == k
        &&& self.s == s
        &&& self.p == p
        &&& self.m_base == pow2(k as nat)
        &&& self.m_share == pow2((k + s) as nat)
        &&& self.q == pow2(k as nat)
        &&& self.q_prime == pow2(k as nat)
        &&& self.mu == pow2(k as nat) / (p as nat)
        &&& self.mu_prime == pow2(k as nat) / (p as nat)
    }

    /// Well-formed parameters: those `new` produces for some valid input.
    pub open spec fn wf(self) -> bool {
        &&& self.k >= 1
        &&& self.k + self.s <= 120
        &&& is_pow2_u128(self.p)
        &&& pow2(self.k as nat) % (self.p as nat) == 0
        &&& self.derived(self.k, self.s, self.p)
    }

    /// Requires a power-of-two `p` dividing `2^k`, `k >= 1` and `k + s <= 120`.
    /// `q' = 2^round(log2 q)` is `q` itself since `q = 2^k` is a power of two.
    pub fn new(k: u32, s: u32, p: u128) -> (r: Self)
        requires
            is_pow2_u128(p),
            k + s <= 120,
            k >= 1,
            pow2(k as nat) % (p as nat) == 0,
        ensures
            r.derived(k, s, p),
            r.wf(),
    {
        proof {
            lemma_u128_shl_pow2(k);
            lemma_u128_shl_pow2((k + s) as u32);
            let e = choose|e: nat| e < 128 && p == pow2(e);
            lemma_pow2_pos(e);
        }
        let m_base = 1u128 << k;
        let m_share = 1u128 << (k + s);
        let q = m_base;
        let q_prime: u128 = q;
        SpdzParams {
            k,
            s,
            p,
            m_base,
            m_share,
            q,
            q_prime,
            mu: q / p,
            mu_prime: q_prime / p,
        }
    }
}

/// One party's scalar additive share: its id and its share value.
#[derive(Clone, Copy, Debug, PartialEq, Eq, Structural)]
pub struct AddShare {
    pub x: u32,
    pub y: u128,
}

/// Sum of the share values modulo `modulus`, folding from the front.
pub open spec fn share_sum(shares: Seq<AddShare>, modulus: int) -> int
    decreases shares.len(),
{
    if shares.len() == 0 {
        0
    } else {
        (share_sum(shares.drop_last(), modulus) + shares.last().y) % modulus
    }
}

/// `shares` is an `n`-party additive sharing of `value` modulo `modulus`:
/// party ids `1..=n`, every share in `[0, modulus)`, sum equal to `value`.
pub open spec fn is_additive_sharing(shares: Seq<AddShare>, value: int, n: int, modulus: int) -> bool {
    &&& shares.len() == n
    &&& forall|i: int| 0 <= i < n ==> (#[trigger] shares[i]).x == (i + 1) as u32
    &&& forall|i: int| 0 <= i < n ==> (#[trigger] shares[i]).y < modulus
    &&& share_sum(shares, modulus) == value
}

/// The share values fit the summation in `u128`.
pub open spec fn shares_summable(shares: Seq<AddShare>, modulus: int) -> bool {
    forall|i: int| 0 <= i < shares.len() ==> (#[trigger] shares[i]).y + modulus <= u128::MAX + 1
}

proof fn lemma_share_sum_bound(shares: Seq<AddShare>, modulus: int)
    requires
        modulus > 0,
    ensures
        0 <= share_sum(shares, modulus) < modulus,
    decreases shares.len(),
{
    if shares.len() > 0 {
        lemma_mod_bound(share_sum(shares.drop_last(), modulus) + shares.last().y, modulus);
    }
}

/// Additively share `value` across `n` parties modulo `modulus`, with a
/// generator seeded from the system's entropy.
pub fn share(value: u128, n: usize, modulus: u128) -> (shares: Vec<AddShare>)
    requires
        n >= 2,
        value < modulus,
        modulus <= 0x8000_0000_0000_0000_0000_0000_0000_0000,
    ensures
        is_additive_sharing(shares@, value as int, n as int, modulus as int),
{
    let mut rng = new_rng();
    share_with_rng(value, n, modulus, &mut rng)
}

/// Additively share `value` across `n` parties modulo `modulus`: `n - 1`
/// uniform shares, and a last share that makes the sum equal to `value`.
pub fn share_with_rng(value: u128, n: usize, modulus: u128, rng: &mut StdRng) -> (shares: Vec<
    AddShare,
>)
    requires
        n >= 2,
        value < modulus,
        modulus <= 0x8000_0000_0000_0000_0000_0000_0000_0000,
    ensures
        is_additive_sharing(shares@, value as int, n as int, modulus as int),
{
    let mut shares: Vec<AddShare> = Vec::with_capacity(n);
    let mut acc: u128 = 0;
    let mut i: usize = 0;
    while i < n - 1
        invariant
            n >= 2,
            i <= n - 1,
            value < modulus,
            modulus <= 0x8000_0000_0000_0000_0000_0000_0000_0000,
            shares@.len() == i,
            forall|j: int| 0 <= j < i ==> (#[trigger] shares@[j]).x == (j + 1) as u32,
            forall|j: int| 0 <= j < i ==> (#[trigger] shares@[j]).y < modulus,
            acc == share_sum(shares@, modulus as int),
            acc < modulus,
        decreases n - 1 - i,
    {
        let v = rng_below_u128(rng, modulus);
        let ghost before = shares@;
        shares.push(AddShare { x: (i + 1) as u32, y: v });
        proof {
            assert(shares@.drop_last() =~= before);
            lemma_mod_bound(acc + v, modulus as int);
        }
        acc = (acc + v) % modulus;
        i = i + 1;
    }
    let last = if value >= acc {
        value - acc
    } else {
        modulus + value - acc
    };
    let ghost before = shares@;
    shares.push(AddShare { x: n as u32, y: last });
    proof {
        assert(shares@.drop_last() =~= before);
        if value >= acc {
            lemma_small_mod(value as nat, modulus as nat);
        } else {
            lemma_mod_add_multiples_vanish(value as int, modulus as int);
            lemma_small_mod(value as nat, modulus as nat);
        }
    }
    shares
}

/// Sum of all share values modulo `modulus`.
pub fn reconstruct(shares: &[AddShare], modulus: u128) -> (r: u128)
    requires
        modulus > 0,
        shares_summable(shares@, modulus as int),
    ensures
        r == share_sum(shares@, modulus as int),
{
    let mut acc: u128 = 0;
    let mut i: usize = 0;
    proof {
        assert(shares@.subrange(0, 0) =~= Seq::<AddShare>::empty());
    }
    while i < shares.len()
        invariant
            i <= shares.len(),
            modulus > 0,
            shares_summable(shares@, modulus as int),
            acc == share_sum(shares@.subrange(0, i as int), modulus as int),
            acc < modulus,
        decreases shares.len() - i,
    {
        proof {
            assert(shares@.subrange(0, i + 1).drop_last() =~= shares@.subrange(0, i as int));
            assert(shares@[i as int].y + modulus <= u128::MAX + 1);
            lemma_mod_bound(acc + shares@[i as int].y, modulus as int);
        }
        acc = (acc + shares[i].y) % modulus;
        i = i + 1;
    }
    proof {
        assert(shares@.subrange(0, shares@.len() as int) =~= shares@);
    }
    acc
}

/// The lifted modulus leaves room for the share summation, and the base
/// modulus divides into it.
pub proof fn lemma_share_modulus_fits(params: SpdzParams)
    requires
        params.wf(),
    ensures
        params.m_share <= 0x8000_0000_0000_0000_0000_0000_0000_0000,
        params.m_base <= params.m_share,
        params.m_base > 0,
        params.m_share > 0,
{
    if params.s > 0 {
        lemma_pow2_strictly_increases(params.k as nat, (params.k + params.s) as nat);
    }
    lemma_pow2_strictly_increases((params.k + params.s) as nat, 127);
    lemma_u128_shl_pow2(127);
    assert((1u128 << 127u32) == 0x8000_0000_0000_0000_0000_0000_0000_0000) by (bit_vector);
    lemma_pow2_pos(params.k as nat);
}

/// Share a secret of `[0, 2^k)` over the lifted ring `Z_{2^(k+s)}`.
pub fn share_lifted(secret_mod_2k: u128, n: usize, params: &SpdzParams) -> (shares: Vec<AddShare>)
    requires
        params.wf(),
        n >= 2,
        secret_mod_2k < params.m_base,
    ensures
        is_additive_sharing(shares@, secret_mod_2k as int, n as int, params.m_share as int),
{
    proof {
        lemma_share_modulus_fits(*params);
    }
    share(secret_mod_2k, n, params.m_share)
}

/// Reconstruct over the lifted ring, then reduce modulo `2^k`.
pub fn reconstruct_lifted(shares: &[AddShare], params: &SpdzParams) -> (r: u128)
    requires
        params.wf(),
        shares_summable(shares@, params.m_share as int),
    ensures
        r == share_sum(shares@, params.m_share as int) % (params.m_base as int),
{
    proof {
        lemma_pow2_pos((params.k + params.s) as nat);
        lemma_pow2_pos(params.k as nat);
    }
    let lifted = reconstruct(shares, params.m_share);
    lifted % params.m_base
}

/// An additive sharing modulo `modulus` reconstructs, by summation, to the
/// value that was shared.
pub proof fn lemma_additive_reconstructs(shares: Seq<AddShare>, value: int, n: int, modulus: int)
    requires
        is_additive_sharing(shares, value, n, modulus),
    ensures
        share_sum(shares, modulus) == value,
        modulus <= 0x8000_0000_0000_0000_0000_0000_0000_0000 ==> shares_summable(shares, modulus),
{
}

/// A lifted sharing of a secret in `[0, 2^k)` reconstructs, after reduction
/// modulo `2^k`, to that secret.
pub proof fn lemma_lifted_reconstructs(shares: Seq<AddShare>, secret: int, n: int, params: SpdzParams)
    requires
        params.wf(),
        0 <= secret < params.m_base,
        is_additive_sharing(shares, secret, n, params.m_share as int),
    ensures
        share_sum(shares, params.m_share as int) % (params.m_base as int) == secret,
{
    lemma_small_mod(secret as nat, params.m_base as nat);
}

} // verus!
