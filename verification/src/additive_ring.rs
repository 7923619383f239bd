//! Additive Ring/Vector sharing over `Z_{2^(k+s)}` (SPDZ2k lift).
//!
//! Every coefficient is shared independently with the scalar sharing of
//! `additive_2k`; party `j` collects the `j`-th share of every coefficient.
//! Secrets have `u32` coefficients in `[0, 2^k)`; shares are `u128` values in
//! `[0, 2^(k+s))`.
use vstd::prelude::*;
use vstd::arithmetic::power2::*;
use vstd::arithmetic::div_mod::*;
use crate::additive_2k::{self, AddShare, SpdzParams, share_sum, is_additive_sharing, shares_summable};
use crate::ring::{Ring, RingRepresentation, Vector};
use crate::crypt::new_rng;

verus! {

/// One party's additive share of a Ring: 256 `u128` coefficients and the
/// party id.
#[derive(Clone, Copy, Debug, PartialEq)]
pub struct RingShare128 {
    pub x: u32,
    pub data: [u128; 256],
}

impl RingShare128 {
    /// The all-zero share of party `x`.
    pub fn zero(x: u32) -> (r: Self)
        ensures
            r.x == x,
            forall|c: int| 0 <= c < 256 ==> r.data[c] == 0,
    {
        RingShare128 { x, data: [0u128; 256] }
    }
}

/// One party's additive share of a `Vector<K>`: `K` ring shares.
#[derive(Clone, Copy, Debug)]
pub struct VectorShare128<const K: usize> {
    pub x: u32,
    pub rings: [RingShare128; K],
}

/// The scalar shares of coefficient `c` held by the parties.
pub open spec fn coeff_column(shares: Seq<RingShare128>, c: int) -> Seq<AddShare> {
    Seq::new(shares.len(), |p: int| AddShare { x: shares[p].x, y: shares[p].data[c] })
}

/// The scalar shares of coefficient `c` of ring `k` held by the parties.
pub open spec fn vector_column<const K: usize>(shares: Seq<VectorShare128<K>>, k: int, c: int) -> Seq<
    AddShare,
> {
    Seq::new(
        shares.len(),
        |p: int| AddShare { x: shares[p].rings[k].x, y: shares[p].rings[k].data[c] },
    )
}

/// Every coefficient share leaves room to add a value below `modulus`.
pub open spec fn ring_shares_summable(shares: Seq<RingShare128>, modulus: int) -> bool {
    forall|p: int, c: int|
        0 <= p < shares.len() && 0 <= c < 256 ==> #[trigger] shares[p].data[c] + modulus
            <= u128::MAX + 1
}

/// `shares` is an `n`-party lifted sharing of the ring `secret`: ids
/// `1..=n`, and every coefficient column an additive sharing of the matching
/// coefficient modulo `2^(k+s)`.
pub open spec fn is_ring_sharing(shares: Seq<RingShare128>, secret: Seq<u32>, n: int, m: int) -> bool {
    &&& shares.len() == n
    &&& forall|p: int| 0 <= p < n ==> (#[trigger] shares[p]).x == (p + 1) as u32
    &&& forall|c: int|
        0 <= c < 256 ==> is_additive_sharing(#[trigger] coeff_column(shares, c), secret[c] as int, n, m)
}

/// Sum of coefficient `c` over all shares, modulo `modulus`.
fn column_sum(shares: &[RingShare128], c: usize, modulus: u128) -> (r: u128)
    requires
        c < 256,
        modulus > 0,
        ring_shares_summable(shares@, modulus as int),
    ensures
        r == share_sum(coeff_column(shares@, c as int), modulus as int),
        r < modulus,
{
    let ghost col = coeff_column(shares@, c as int);
    let mut acc: u128 = 0;
    let mut i: usize = 0;
    proof {
        assert(col.subrange(0, 0) =~= Seq::<AddShare>::empty());
    }
    while i < shares.len()
        invariant
            i <= shares.len(),
            c < 256,
            modulus > 0,
            ring_shares_summable(shares@, modulus as int),
            col == coeff_column(shares@, c as int),
            acc == share_sum(col.subrange(0, i as int), modulus as int),
            acc < modulus,
        decreases shares.len() - i,
    {
        proof {
            assert(col.subrange(0, i + 1).drop_last() =~= col.subrange(0, i as int));
            assert(shares@[i as int].data[c as int] + modulus <= u128::MAX + 1);
            lemma_mod_bound(acc + shares@[i as int].data[c as int], modulus as int);
        }
        acc = (acc + shares[i].data[c]) % modulus;
        i = i + 1;
    }
    proof {
        assert(col.subrange(0, col.len() as int) =~= col);
    }
    acc
}

/// Additively share a coefficient-form Ring with coefficients in `[0, 2^k)`
/// across `n` parties, lifted into `Z_{2^(k+s)}`.
pub fn share_ring_lifted(secret: &Ring, n: usize, params: &SpdzParams) -> (out: Vec<RingShare128>)
    requires
        params.wf(),
        n >= 2,
        forall|c: int| 0 <= c < 256 ==> secret.data[c] < params.m_base,
    ensures
        is_ring_sharing(out@, secret.data@, n as int, params.m_share as int),
{
    let mut rng = new_rng();
    let mut out: Vec<RingShare128> = Vec::with_capacity(n);
    let mut p: usize = 0;
    while p < n
        invariant
            p <= n,
            out@.len() == p,
            forall|q: int| 0 <= q < p ==> (#[trigger] out@[q]).x == (q + 1) as u32,
        decreases n - p,
    {
        out.push(RingShare128::zero((p + 1) as u32));
        p = p + 1;
    }
    proof {
        additive_2k::lemma_share_modulus_fits(*params);
    }
    let mut c: usize = 0;
    while c < 256
        invariant
            c <= 256,
            n >= 2,
            params.wf(),
            params.m_share <= 0x8000_0000_0000_0000_0000_0000_0000_0000,
            params.m_base <= params.m_share,
            forall|cc: int| 0 <= cc < 256 ==> secret.data[cc] < params.m_base,
            out@.len() == n,
            forall|q: int| 0 <= q < n ==> (#[trigger] out@[q]).x == (q + 1) as u32,
            forall|cc: int|
                0 <= cc < c ==> is_additive_sharing(
                    #[trigger] coeff_column(out@, cc),
                    secret.data[cc] as int,
                    n as int,
                    params.m_share as int,
                ),
        decreases 256 - c,
    {
        let secret_coeff = secret.data[c] as u128;
        let scalar_shares = additive_2k::share_with_rng(secret_coeff, n, params.m_share, &mut rng);
        let ghost before = out@;
        let mut q: usize = 0;
        while q < n
            invariant
                q <= n,
                c < 256,
                out@.len() == n,
                scalar_shares@.len() == n,
                forall|r: int| 0 <= r < n ==> (#[trigger] scalar_shares@[r]).x == (r + 1) as u32,
                forall|r: int| 0 <= r < n ==> (#[trigger] out@[r]).x == (r + 1) as u32,
                forall|r: int| 0 <= r < q ==> (#[trigger] out@[r]).data[c as int] == scalar_shares@[r].y,
                forall|r: int, cc: int|
                    0 <= r < n && 0 <= cc < 256 && cc != c ==> (#[trigger] out@[r].data[cc])
                        == before[r].data[cc],
            decreases n - q,
        {
            let mut rs = out[q];
            rs.data[c] = scalar_shares[q].y;
            out.set(q, rs);
            q = q + 1;
        }
        proof {
            assert(coeff_column(out@, c as int) =~= scalar_shares@);
            assert forall|cc: int| 0 <= cc < c implies is_additive_sharing(
                #[trigger] coeff_column(out@, cc),
                secret.data[cc] as int,
                n as int,
                params.m_share as int,
            ) by {
                assert(coeff_column(out@, cc) =~= coeff_column(before, cc));
            }
        }
        c = c + 1;
    }
    out
}

/// Reconstruct a coefficient-form Ring from all `n` shares: sum modulo
/// `2^(k+s)`, then reduce modulo `2^k`.
pub fn reconstruct_ring_lifted(shares: &[RingShare128], params: &SpdzParams) -> (out: Ring)
    requires
        params.wf(),
        ring_shares_summable(shares@, params.m_share as int),
        forall|c: int|
            0 <= c < 256 ==> share_sum(#[trigger] coeff_column(shares@, c), params.m_share as int) % (
            params.m_base as int) <= u32::MAX,
    ensures
        out.t == RingRepresentation::Degree255,
        forall|c: int|
            0 <= c < 256 ==> out.data[c] == share_sum(coeff_column(shares@, c), params.m_share as int)
                % (params.m_base as int),
{
    proof {
        lemma_pow2_pos(params.k as nat);
        lemma_pow2_pos((params.k + params.s) as nat);
        lemma2_to64();
    }
    let mut out = Ring::zeroes_degree255();
    let mut c: usize = 0;
    while c < 256
        invariant
            c <= 256,
            params.wf(),
            forall|cc: int|
                0 <= cc < 256 ==> share_sum(#[trigger] coeff_column(shares@, cc), params.m_share as int) % (
                params.m_base as int) <= u32::MAX,
            params.m_base > 0,
            params.m_share > 0,
            ring_shares_summable(shares@, params.m_share as int),
            out.t == RingRepresentation::Degree255,
            forall|cc: int|
                0 <= cc < c ==> out.data[cc] == share_sum(coeff_column(shares@, cc), params.m_share as int)
                    % (params.m_base as int),
        decreases 256 - c,
    {
        let sum = column_sum(shares, c, params.m_share);
        let base = sum % params.m_base;
        out.data[c] = base as u32;
        c = c + 1;
    }
    out
}

/// Sum the coefficient shares modulo an arbitrary `modulus`.
pub fn reconstruct_ring_mod(shares: &[RingShare128], modulus: u128) -> (out: [u128; 256])
    requires
        modulus > 0,
        ring_shares_summable(shares@, modulus as int),
    ensures
        forall|c: int| 0 <= c < 256 ==> out[c] == share_sum(coeff_column(shares@, c), modulus as int),
{
    let mut out = [0u128; 256];
    let mut c: usize = 0;
    while c < 256
        invariant
            c <= 256,
            modulus > 0,
            ring_shares_summable(shares@, modulus as int),
            forall|cc: int| 0 <= cc < c ==> out[cc] == share_sum(coeff_column(shares@, cc), modulus as int),
        decreases 256 - c,
    {
        out[c] = column_sum(shares, c, modulus);
        c = c + 1;
    }
    out
}


/// `shares` is an `n`-party lifted sharing of the vector `secret`: party ids
/// `1..=n` (on the vector share and on each of its rings), and every
/// coefficient column an additive sharing of the matching coefficient.
pub open spec fn is_vector_sharing<const K: usize>(
    shares: Seq<VectorShare128<K>>,
    secret: Vector<K>,
    n: int,
    m: int,
) -> bool {
    &&& shares.len() == n
    &&& forall|p: int| 0 <= p < n ==> (#[trigger] shares[p]).x == (p + 1) as u32
    &&& forall|p: int, k: int| 0 <= p < n && 0 <= k < K ==> (#[trigger] shares[p].rings[k]).x == (p + 1) as u32
    &&& forall|k: int, c: int|
        0 <= k < K && 0 <= c < 256 ==> is_additive_sharing(
            #[trigger] vector_column(shares, k, c),
            secret.data[k].data[c] as int,
            n,
            m,
        )
}

/// Every coefficient share of every ring leaves room to add a value below
/// `modulus`.
pub open spec fn vector_shares_summable<const K: usize>(shares: Seq<VectorShare128<K>>, modulus: int) -> bool {
    forall|p: int, k: int, c: int|
        0 <= p < shares.len() && 0 <= k < K && 0 <= c < 256 ==> #[trigger] shares[p].rings[k].data[c]
            + modulus <= u128::MAX + 1
}

/// Additively share a vector of coefficient-form rings (coefficients in
/// `[0, 2^k)`) across `n` parties; each ring is shared independently.
pub fn share_vector_lifted<const K: usize>(secret: &Vector<K>, n: usize, params: &SpdzParams) -> (out:
    Vec<VectorShare128<K>>)
    requires
        params.wf(),
        n >= 2,
        forall|k: int, c: int| 0 <= k < K && 0 <= c < 256 ==> secret.data[k].data[c] < params.m_base,
    ensures
        is_vector_sharing(out@, *secret, n as int, params.m_share as int),
{
    let mut per_ring: Vec<Vec<RingShare128>> = Vec::with_capacity(K);
    let mut k: usize = 0;
    while k < K
        invariant
            k <= K,
            n >= 2,
            params.wf(),
            forall|kk: int, c: int| 0 <= kk < K && 0 <= c < 256 ==> secret.data[kk].data[c] < params.m_base,
            per_ring@.len() == k,
            forall|kk: int|
                0 <= kk < k ==> is_ring_sharing(
                    #[trigger] per_ring@[kk]@,
                    secret.data[kk].data@,
                    n as int,
                    params.m_share as int,
                ),
        decreases K - k,
    {
        let shares_k = share_ring_lifted(&secret.data[k], n, params);
        per_ring.push(shares_k);
        k = k + 1;
    }
    let mut out: Vec<VectorShare128<K>> = Vec::with_capacity(n);
    let mut p: usize = 0;
    while p < n
        invariant
            p <= n,
            per_ring@.len() == K,
            forall|kk: int|
                0 <= kk < K ==> is_ring_sharing(
                    #[trigger] per_ring@[kk]@,
                    secret.data[kk].data@,
                    n as int,
                    params.m_share as int,
                ),
            out@.len() == p,
            forall|q: int| 0 <= q < p ==> (#[trigger] out@[q]).x == (q + 1) as u32,
            forall|q: int, kk: int| 0 <= q < p && 0 <= kk < K ==> #[trigger] out@[q].rings[kk] == per_ring@[kk]@[q],
        decreases n - p,
    {
        let mut rings = [RingShare128::zero(0); K];
        let mut kk: usize = 0;
        while kk < K
            invariant
                kk <= K,
                p < n,
                per_ring@.len() == K,
                forall|a: int|
                    0 <= a < K ==> is_ring_sharing(
                        #[trigger] per_ring@[a]@,
                        secret.data[a].data@,
                        n as int,
                        params.m_share as int,
                    ),
                forall|a: int| 0 <= a < kk ==> #[trigger] rings[a] == per_ring@[a]@[p as int],
            decreases K - kk,
        {
            proof {
                assert(is_ring_sharing(per_ring@[kk as int]@, secret.data[kk as int].data@, n as int, params.m_share as int));
            }
            rings[kk] = per_ring[kk][p];
            kk = kk + 1;
        }
        let x: u32 = (p + 1) as u32;
        out.push(VectorShare128 { x, rings });
        p = p + 1;
    }
    proof {
        assert forall|q: int, a: int| 0 <= q < n && 0 <= a < K implies (#[trigger] out@[q].rings[a]).x == (q + 1) as u32 by {
            assert(is_ring_sharing(per_ring@[a]@, secret.data[a].data@, n as int, params.m_share as int));
        }
        assert forall|a: int, c: int| 0 <= a < K && 0 <= c < 256 implies is_additive_sharing(
            #[trigger] vector_column(out@, a, c),
            secret.data[a].data[c] as int,
            n as int,
            params.m_share as int,
        ) by {
            assert(is_ring_sharing(per_ring@[a]@, secret.data[a].data@, n as int, params.m_share as int));
            assert(vector_column(out@, a, c) =~= coeff_column(per_ring@[a]@, c));
        }
    }
    out
}

/// Reconstruct a vector of coefficient-form rings from all `n` shares.
pub fn reconstruct_vector_lifted<const K: usize>(shares: &[VectorShare128<K>], params: &SpdzParams) -> (r:
    Vector<K>)
    requires
        params.wf(),
        vector_shares_summable(shares@, params.m_share as int),
        forall|k: int, c: int|
            0 <= k < K && 0 <= c < 256 ==> share_sum(#[trigger] vector_column(shares@, k, c), params.m_share as int)
                % (params.m_base as int) <= u32::MAX,
    ensures
        forall|k: int, c: int|
            0 <= k < K && 0 <= c < 256 ==> #[trigger] r.data[k].data[c] == share_sum(
                vector_column(shares@, k, c),
                params.m_share as int,
            ) % (params.m_base as int),
        forall|k: int| 0 <= k < K ==> (#[trigger] r.data[k]).t == RingRepresentation::Degree255,
{
    let mut result = Vector::<K>::new_degree255();
    let mut k: usize = 0;
    while k < K
        invariant
            k <= K,
            params.wf(),
            vector_shares_summable(shares@, params.m_share as int),
            forall|a: int, c: int|
                0 <= a < K && 0 <= c < 256 ==> share_sum(#[trigger] vector_column(shares@, a, c), params.m_share as int)
                    % (params.m_base as int) <= u32::MAX,
            forall|a: int, c: int|
                0 <= a < k && 0 <= c < 256 ==> #[trigger] result.data[a].data[c] == share_sum(
                    vector_column(shares@, a, c),
                    params.m_share as int,
                ) % (params.m_base as int),
            forall|a: int| 0 <= a < K ==> (#[trigger] result.data[a]).t == RingRepresentation::Degree255,
        decreases K - k,
    {
        let mut ring_shares: Vec<RingShare128> = Vec::with_capacity(shares.len());
        let mut p: usize = 0;
        while p < shares.len()
            invariant
                p <= shares.len(),
                k < K,
                ring_shares@.len() == p,
                forall|q: int| 0 <= q < p ==> #[trigger] ring_shares@[q] == shares@[q].rings[k as int],
            decreases shares.len() - p,
        {
            ring_shares.push(shares[p].rings[k]);
            p = p + 1;
        }
        proof {
            assert forall|q: int, c: int| 0 <= q < ring_shares@.len() && 0 <= c < 256 implies #[trigger] ring_shares@[q].data[c]
                + params.m_share <= u128::MAX + 1 by {
                assert(ring_shares@[q] == shares@[q].rings[k as int]);
            }
        }
        proof {
            assert forall|c: int| 0 <= c < 256 implies coeff_column(ring_shares@, c) =~= vector_column(shares@, k as int, c) by {}
        }
        let r = reconstruct_ring_lifted(ring_shares.as_slice(), params);
        result.data[k] = r;
        k = k + 1;
    }
    result
}


/// A lifted ring sharing of a secret with coefficients in `[0, 2^k)` can be
/// reconstructed, and reconstruction gives back every coefficient.
pub proof fn lemma_ring_lifted_reconstructs(shares: Seq<RingShare128>, secret: Ring, n: int, params: SpdzParams)
    requires
        params.wf(),
        forall|c: int| 0 <= c < 256 ==> secret.data[c] < params.m_base,
        is_ring_sharing(shares, secret.data@, n, params.m_share as int),
    ensures
        ring_shares_summable(shares, params.m_share as int),
        forall|c: int|
            0 <= c < 256 ==> share_sum(#[trigger] coeff_column(shares, c), params.m_share as int)
                % (params.m_base as int) == secret.data[c],
{
    additive_2k::lemma_share_modulus_fits(params);
    assert forall|p: int, c: int| 0 <= p < shares.len() && 0 <= c < 256 implies #[trigger] shares[p].data[c]
        + params.m_share <= u128::MAX + 1 by {
        assert(is_additive_sharing(coeff_column(shares, c), secret.data[c] as int, n, params.m_share as int));
        assert(coeff_column(shares, c)[p].y == shares[p].data[c]);
    }
    assert forall|c: int| 0 <= c < 256 implies share_sum(#[trigger] coeff_column(shares, c), params.m_share as int)
        % (params.m_base as int) == secret.data[c] by {
        additive_2k::lemma_lifted_reconstructs(coeff_column(shares, c), secret.data[c] as int, n, params);
    }
}

/// A lifted vector sharing of a secret with coefficients in `[0, 2^k)` can
/// be reconstructed, and reconstruction gives back every coefficient.
pub proof fn lemma_vector_lifted_reconstructs<const K: usize>(
    shares: Seq<VectorShare128<K>>,
    secret: Vector<K>,
    n: int,
    params: SpdzParams,
)
    requires
        params.wf(),
        forall|k: int, c: int| 0 <= k < K && 0 <= c < 256 ==> secret.data[k].data[c] < params.m_base,
        is_vector_sharing(shares, secret, n, params.m_share as int),
    ensures
        vector_shares_summable(shares, params.m_share as int),
        forall|k: int, c: int|
            0 <= k < K && 0 <= c < 256 ==> share_sum(
                #[trigger] vector_column(shares, k, c),
                params.m_share as int,
            ) % (params.m_base as int) == secret.data[k].data[c],
{
    additive_2k::lemma_share_modulus_fits(params);
    assert forall|p: int, k: int, c: int| 0 <= p < shares.len() && 0 <= k < K && 0 <= c < 256 implies #[trigger] shares[p].rings[k].data[c]
        + params.m_share <= u128::MAX + 1 by {
        assert(is_additive_sharing(vector_column(shares, k, c), secret.data[k].data[c] as int, n, params.m_share as int));
        assert(vector_column(shares, k, c)[p].y == shares[p].rings[k].data[c]);
    }
    assert forall|k: int, c: int| 0 <= k < K && 0 <= c < 256 implies share_sum(
        #[trigger] vector_column(shares, k, c),
        params.m_share as int,
    ) % (params.m_base as int) == secret.data[k].data[c] by {
        additive_2k::lemma_lifted_reconstructs(vector_column(shares, k, c), secret.data[k].data[c] as int, n, params);
    }
}


/// The plain sum of the share values.
pub open spec fn value_sum(shares: Seq<AddShare>) -> int
    decreases shares.len(),
{
    if shares.len() == 0 {
        0
    } else {
        value_sum(shares.drop_last()) + shares.last().y
    }
}

/// The reduced running sum is the plain sum reduced.
proof fn lemma_share_sum_is_value_sum(shares: Seq<AddShare>, m: int)
    requires
        m > 0,
    ensures
        share_sum(shares, m) == value_sum(shares) % m,
    decreases shares.len(),
{
    if shares.len() == 0 {
        lemma_small_mod(0, m as nat);
    } else {
        lemma_share_sum_is_value_sum(shares.drop_last(), m);
        lemma_add_mod_noop(value_sum(shares.drop_last()), shares.last().y as int, m);
        lemma_mod_twice(value_sum(shares.drop_last()), m);
        lemma_mod_bound(shares.last().y as int, m);
        lemma_add_mod_noop(share_sum(shares.drop_last(), m), shares.last().y as int, m);
    }
}

/// Taking out the share at `j` takes its value out of the sum.
proof fn lemma_value_sum_remove(shares: Seq<AddShare>, j: int)
    requires
        0 <= j < shares.len(),
    ensures
        value_sum(shares) == value_sum(shares.remove(j)) + shares[j].y,
    decreases shares.len(),
{
    if j == shares.len() - 1 {
        assert(shares.remove(j) =~= shares.drop_last());
    } else {
        lemma_value_sum_remove(shares.drop_last(), j);
        assert(shares.drop_last().remove(j) =~= shares.remove(j).drop_last());
        assert(shares.remove(j).last() == shares.last());
    }
}

/// `sigma` reorders `0..n`: every entry lies in `0..n` and no two are equal.
pub open spec fn is_reordering(sigma: Seq<int>, n: int) -> bool {
    &&& sigma.len() == n
    &&& forall|i: int| 0 <= i < n ==> 0 <= #[trigger] sigma[i] < n
    &&& forall|i: int, j: int| 0 <= i < j < n ==> #[trigger] sigma[i] != #[trigger] sigma[j]
}

/// Reordering the shares does not change the sum of their values.
proof fn lemma_value_sum_reorder(a: Seq<AddShare>, b: Seq<AddShare>, sigma: Seq<int>)
    requires
        a.len() == b.len(),
        is_reordering(sigma, a.len() as int),
        forall|i: int| 0 <= i < b.len() ==> (#[trigger] b[i]).y == a[sigma[i]].y,
    ensures
        value_sum(a) == value_sum(b),
    decreases b.len(),
{
    let n = b.len() as int;
    if n > 0 {
        let j = sigma[n - 1];
        let a2 = a.remove(j);
        let b2 = b.drop_last();
        let s2 = Seq::new((n - 1) as nat, |i: int| if sigma[i] > j { sigma[i] - 1 } else { sigma[i] });
        assert forall|i: int| 0 <= i < n - 1 implies 0 <= #[trigger] s2[i] < n - 1 by {
            assert(sigma[i] != sigma[n - 1]);
        }
        assert forall|i: int, k: int| 0 <= i < k < n - 1 implies #[trigger] s2[i] != #[trigger] s2[k] by {
            assert(sigma[i] != sigma[k]);
            assert(sigma[i] != sigma[n - 1]);
            assert(sigma[k] != sigma[n - 1]);
        }
        assert forall|i: int| 0 <= i < b2.len() implies (#[trigger] b2[i]).y == a2[s2[i]].y by {
            assert(sigma[i] != sigma[n - 1]);
            assert(b2[i] == b[i]);
        }
        lemma_value_sum_reorder(a2, b2, s2);
        lemma_value_sum_remove(a, j);
    }
}

/// Reconstruction does not depend on the order of the shares: if
/// `reordered` lists the shares of `shares` in the order `sigma`, it can be
/// reconstructed whenever `shares` can, and every coefficient comes out the
/// same.
pub proof fn lemma_vector_lifted_order_independent<const K: usize>(
    shares: Seq<VectorShare128<K>>,
    reordered: Seq<VectorShare128<K>>,
    sigma: Seq<int>,
    params: SpdzParams,
)
    requires
        params.wf(),
        reordered.len() == shares.len(),
        is_reordering(sigma, shares.len() as int),
        forall|i: int| 0 <= i < reordered.len() ==> #[trigger] reordered[i] == shares[sigma[i]],
    ensures
        vector_shares_summable(shares, params.m_share as int) ==> vector_shares_summable(
            reordered,
            params.m_share as int,
        ),
        forall|k: int, c: int|
            0 <= k < K && 0 <= c < 256 ==> share_sum(#[trigger] vector_column(reordered, k, c), params.m_share as int)
                % (params.m_base as int) == share_sum(vector_column(shares, k, c), params.m_share as int) % (
            params.m_base as int),
{
    let m = params.m_share as int;
    lemma_pow2_pos((params.k + params.s) as nat);
    assert forall|p: int, k: int, c: int|
        vector_shares_summable(shares, m) && 0 <= p < reordered.len() && 0 <= k < K && 0 <= c < 256 implies #[trigger] reordered[p].rings[k].data[c]
        + m <= u128::MAX + 1 by {
        assert(reordered[p] == shares[sigma[p]]);
        assert(0 <= sigma[p] < shares.len());
        assert(shares[sigma[p]].rings[k].data[c] + m <= u128::MAX + 1);
    }
    assert forall|k: int, c: int| 0 <= k < K && 0 <= c < 256 implies share_sum(
        #[trigger] vector_column(reordered, k, c),
        m,
    ) % (params.m_base as int) == share_sum(vector_column(shares, k, c), m) % (params.m_base as int) by {
        let a = vector_column(shares, k, c);
        let b = vector_column(reordered, k, c);
        assert forall|i: int| 0 <= i < b.len() implies (#[trigger] b[i]).y == a[sigma[i]].y by {
            assert(reordered[i] == shares[sigma[i]]);
        }
        lemma_value_sum_reorder(a, b, sigma);
        lemma_share_sum_is_value_sum(a, m);
        lemma_share_sum_is_value_sum(b, m);
    }
}


/// Additive reconstruction does not depend on the order of the shares: it
/// is the plain sum of the values modulo `modulus`, so listing the shares
/// in any order `sigma` keeps them summable and gives the same result.
pub proof fn lemma_reconstruct_order_independent(
    shares: Seq<AddShare>,
    reordered: Seq<AddShare>,
    sigma: Seq<int>,
    modulus: int,
)
    requires
        modulus > 0,
        reordered.len() == shares.len(),
        is_reordering(sigma, shares.len() as int),
        forall|i: int| 0 <= i < reordered.len() ==> #[trigger] reordered[i] == shares[sigma[i]],
    ensures
        share_sum(shares, modulus) == value_sum(shares) % modulus,
        share_sum(reordered, modulus) == share_sum(shares, modulus),
        shares_summable(shares, modulus) ==> shares_summable(reordered, modulus),
{
    assert forall|i: int| 0 <= i < reordered.len() implies (#[trigger] reordered[i]).y == shares[sigma[i]].y by {}
    lemma_value_sum_reorder(shares, reordered, sigma);
    lemma_share_sum_is_value_sum(shares, modulus);
    lemma_share_sum_is_value_sum(reordered, modulus);
    if shares_summable(shares, modulus) {
        assert forall|i: int| 0 <= i < reordered.len() implies #[trigger] reordered[i].y + modulus <= u128::MAX + 1 by {
            assert(reordered[i] == shares[sigma[i]]);
        }
    }
}

} // verus!
