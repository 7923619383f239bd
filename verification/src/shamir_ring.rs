//! Shamir secret sharing of `Ring` and `Vector<K>` values: every coefficient
//! is shared independently, and party `j` collects the `j`-th share of every
//! coefficient. Sharing is `F_q`-linear, so a secret in NTT form yields
//! NTT-form shares.
use vstd::prelude::*;
use crate::ring::{Ring, RingRepresentation, Vector};
use crate::shamir::{self, Share, is_shamir_sharing, lagrange_sum, lagrange_defined, share_points};
use crate::params::field_q;
use crate::crypt::new_rng;

verus! {

/// One party's Shamir share of a Ring, with its evaluation point.
#[derive(Clone, Copy, Debug)]
pub struct RingShare {
    pub x: u32,
    pub ring: Ring,
}

/// One party's Shamir share of a `Vector<K>`, with its evaluation point.
#[derive(Clone, Copy, Debug)]
pub struct VectorShare<const K: usize> {
    pub x: u32,
    pub vector: Vector<K>,
}

/// The scalar shares of coefficient `c` held by the parties.
pub open spec fn ring_column(shares: Seq<RingShare>, c: int) -> Seq<Share> {
    Seq::new(shares.len(), |p: int| Share { x: shares[p].x, y: shares[p].ring.data[c] })
}

/// The scalar shares of coefficient `c` of ring `k` held by the parties.
pub open spec fn vector_share_column<const K: usize>(shares: Seq<VectorShare<K>>, k: int, c: int) -> Seq<
    Share,
> {
    Seq::new(shares.len(), |p: int| Share { x: shares[p].x, y: shares[p].vector.data[k].data[c] })
}

/// `shares` is a degree-`t`, `n`-party Shamir sharing of the ring `secret`,
/// coefficient by coefficient, with the representation tag of `secret`.
pub open spec fn is_ring_shamir_sharing(shares: Seq<RingShare>, secret: Ring, t: usize, n: usize) -> bool {
    &&& shares.len() == n
    &&& forall|p: int| 0 <= p < n ==> (#[trigger] shares[p]).ring.t == secret.t
    &&& forall|c: int|
        0 <= c < 256 ==> is_shamir_sharing(#[trigger] ring_column(shares, c), secret.data[c], t, n)
}

/// `shares` is a degree-`t`, `n`-party Shamir sharing of the vector
/// `secret`, ring by ring and coefficient by coefficient.
pub open spec fn is_vector_shamir_sharing<const K: usize>(
    shares: Seq<VectorShare<K>>,
    secret: Vector<K>,
    t: usize,
    n: usize,
) -> bool {
    &&& shares.len() == n
    &&& forall|p: int, k: int|
        0 <= p < n && 0 <= k < K ==> (#[trigger] shares[p].vector.data[k]).t == secret.data[k].t
    &&& forall|k: int, c: int|
        0 <= k < K && 0 <= c < 256 ==> is_shamir_sharing(
            #[trigger] vector_share_column(shares, k, c),
            secret.data[k].data[c],
            t,
            n,
        )
}

/// Shamir-share a Ring across `n` parties with threshold `t` (points
/// `1..=n`); the shares keep the representation tag of `secret`.
pub fn share_ring(secret: &Ring, t: usize, n: usize) -> (out: Vec<RingShare>)
    requires
        t < n,
        n < field_q(),
    ensures
        is_ring_shamir_sharing(out@, *secret, t, n),
{
    let zero = match secret.t {
        RingRepresentation::NTT => Ring::zeroes_ntt(),
        RingRepresentation::Degree255 => Ring::zeroes_degree255(),
    };
    let mut out: Vec<RingShare> = Vec::with_capacity(n);
    let mut p: usize = 0;
    while p < n
        invariant
            p <= n,
            n < field_q(),
            zero.t == secret.t,
            out@.len() == p,
            forall|q: int| 0 <= q < p ==> (#[trigger] out@[q]).x == (q + 1) as u32 && out@[q].ring.t == secret.t,
        decreases n - p,
    {
        out.push(RingShare { x: (p + 1) as u32, ring: zero });
        p = p + 1;
    }
    let mut rng = new_rng();
    let mut c: usize = 0;
    while c < 256
        invariant
            c <= 256,
            t < n,
            n < field_q(),
            out@.len() == n,
            forall|q: int| 0 <= q < n ==> (#[trigger] out@[q]).ring.t == secret.t,
            forall|q: int| 0 <= q < n ==> (#[trigger] out@[q]).x == (q + 1) as u32,
            forall|cc: int|
                0 <= cc < c ==> is_shamir_sharing(#[trigger] ring_column(out@, cc), secret.data[cc], t, n),
        decreases 256 - c,
    {
        let shares = shamir::share_with_rng(secret.data[c], t, n, &mut rng);
        let ghost before = out@;
        let mut q: usize = 0;
        while q < n
            invariant
                q <= n,
                c < 256,
                out@.len() == n,
                is_shamir_sharing(shares@, secret.data[c as int], t, n),
                forall|r: int| 0 <= r < n ==> (#[trigger] out@[r]).ring.t == secret.t,
                forall|r: int| 0 <= r < q ==> (#[trigger] out@[r]).ring.data[c as int] == shares@[r].y,
                forall|r: int| 0 <= r < n ==> (#[trigger] out@[r]).x == before[r].x,
                forall|r: int, cc: int|
                    0 <= r < n && 0 <= cc < 256 && cc != c ==> (#[trigger] out@[r].ring.data[cc])
                        == before[r].ring.data[cc],
            decreases n - q,
        {
            let mut rs = out[q];
            rs.ring.data[c] = shares[q].y;
            out.set(q, rs);
            q = q + 1;
        }
        proof {
            assert(ring_column(out@, c as int) =~= shares@);
            assert forall|cc: int| 0 <= cc < c implies is_shamir_sharing(
                #[trigger] ring_column(out@, cc),
                secret.data[cc],
                t,
                n,
            ) by {
                assert(ring_column(out@, cc) =~= ring_column(before, cc));
            }
        }
        c = c + 1;
    }
    out
}

/// Reconstruct a Ring from shares by coefficient-wise Lagrange interpolation
/// at zero; the result has the representation tag of the first share.
pub fn reconstruct_ring(shares: &[RingShare]) -> (r: Ring)
    requires
        shares.len() > 0,
        lagrange_defined(share_points(ring_column(shares@, 0))),
    ensures
        r.t == shares[0].ring.t,
        forall|c: int|
            0 <= c < 256 ==> r.data[c] == lagrange_sum(
                #[trigger] ring_column(shares@, c),
                share_points(ring_column(shares@, 0)),
            ),
{
    let mut result = match shares[0].ring.t {
        RingRepresentation::NTT => Ring::zeroes_ntt(),
        RingRepresentation::Degree255 => Ring::zeroes_degree255(),
    };
    let ghost pts = share_points(ring_column(shares@, 0));
    let mut c: usize = 0;
    while c < 256
        invariant
            c <= 256,
            shares.len() > 0,
            pts == share_points(ring_column(shares@, 0)),
            lagrange_defined(pts),
            result.t == shares[0].ring.t,
            forall|cc: int|
                0 <= cc < c ==> result.data[cc] == lagrange_sum(#[trigger] ring_column(shares@, cc), pts),
        decreases 256 - c,
    {
        let mut scalar_shares: Vec<Share> = Vec::with_capacity(shares.len());
        let mut p: usize = 0;
        while p < shares.len()
            invariant
                p <= shares.len(),
                c < 256,
                scalar_shares@ == ring_column(shares@, c as int).subrange(0, p as int),
            decreases shares.len() - p,
        {
            scalar_shares.push(Share { x: shares[p].x, y: shares[p].ring.data[c] });
            proof {
                assert(scalar_shares@ =~= ring_column(shares@, c as int).subrange(0, p + 1));
            }
            p = p + 1;
        }
        proof {
            assert(scalar_shares@ =~= ring_column(shares@, c as int));
            assert(share_points(ring_column(shares@, c as int)) =~= pts);
        }
        result.data[c] = shamir::reconstruct(scalar_shares.as_slice());
        c = c + 1;
    }
    result
}

/// Shamir-share a `Vector<K>` across `n` parties with threshold `t`; each
/// ring is shared independently and the shares grouped per party.
pub fn share_vector<const K: usize>(secret: &Vector<K>, t: usize, n: usize) -> (out: Vec<VectorShare<K>>)
    requires
        t < n,
        n < field_q(),
    ensures
        is_vector_shamir_sharing(out@, *secret, t, n),
{
    let mut per_ring: Vec<Vec<RingShare>> = Vec::with_capacity(K);
    let mut k: usize = 0;
    while k < K
        invariant
            k <= K,
            t < n,
            n < field_q(),
            per_ring@.len() == k,
            forall|a: int| 0 <= a < k ==> is_ring_shamir_sharing(#[trigger] per_ring@[a]@, secret.data[a], t, n),
        decreases K - k,
    {
        let shares_k = share_ring(&secret.data[k], t, n);
        per_ring.push(shares_k);
        k = k + 1;
    }
    let mut out: Vec<VectorShare<K>> = Vec::with_capacity(n);
    let mut p: usize = 0;
    while p < n
        invariant
            p <= n,
            n < field_q(),
            per_ring@.len() == K,
            forall|a: int| 0 <= a < K ==> is_ring_shamir_sharing(#[trigger] per_ring@[a]@, secret.data[a], t, n),
            out@.len() == p,
            forall|q: int| 0 <= q < p ==> (#[trigger] out@[q]).x == (q + 1) as u32,
            forall|q: int, a: int| 0 <= q < p && 0 <= a < K ==> #[trigger] out@[q].vector.data[a] == per_ring@[a]@[q].ring,
        decreases n - p,
    {
        let mut v = Vector::<K>::new_degree255();
        let mut a: usize = 0;
        while a < K
            invariant
                a <= K,
                p < n,
                per_ring@.len() == K,
                forall|b: int| 0 <= b < K ==> is_ring_shamir_sharing(#[trigger] per_ring@[b]@, secret.data[b], t, n),
                forall|b: int| 0 <= b < a ==> #[trigger] v.data[b] == per_ring@[b]@[p as int].ring,
            decreases K - a,
        {
            proof {
                assert(is_ring_shamir_sharing(per_ring@[a as int]@, secret.data[a as int], t, n));
            }
            v.data[a] = per_ring[a][p].ring;
            a = a + 1;
        }
        out.push(VectorShare { x: (p + 1) as u32, vector: v });
        p = p + 1;
    }
    proof {
        assert forall|q: int, a: int| 0 <= q < n && 0 <= a < K implies (#[trigger] out@[q].vector.data[a]).t == secret.data[a].t by {
            assert(is_ring_shamir_sharing(per_ring@[a]@, secret.data[a], t, n));
        }
        assert forall|a: int, c: int| 0 <= a < K && 0 <= c < 256 implies is_shamir_sharing(
            #[trigger] vector_share_column(out@, a, c),
            secret.data[a].data[c],
            t,
            n,
        ) by {
            assert(is_ring_shamir_sharing(per_ring@[a]@, secret.data[a], t, n));
            assert(is_shamir_sharing(ring_column(per_ring@[a]@, c), secret.data[a].data[c], t, n));
            assert forall|q: int| 0 <= q < n implies per_ring@[a]@[q].x == (q + 1) as u32 by {
                assert(ring_column(per_ring@[a]@, c)[q].x == per_ring@[a]@[q].x);
            }
            assert(vector_share_column(out@, a, c) =~= ring_column(per_ring@[a]@, c));
        }
    }
    out
}

/// Reconstruct a `Vector<K>` from shares, ring by ring; ring `k` of the
/// result keeps the tag of ring `k` of the first share.
pub fn reconstruct_vector<const K: usize>(shares: &[VectorShare<K>]) -> (r: Vector<K>)
    requires
        shares.len() > 0,
        lagrange_defined(share_points(vector_share_column(shares@, 0, 0))),
    ensures
        forall|k: int, c: int|
            0 <= k < K && 0 <= c < 256 ==> #[trigger] r.data[k].data[c] == lagrange_sum(
                vector_share_column(shares@, k, c),
                share_points(vector_share_column(shares@, 0, 0)),
            ),
        forall|k: int| 0 <= k < K ==> (#[trigger] r.data[k]).t == shares[0].vector.data[k].t,
{
    let ghost pts = share_points(vector_share_column(shares@, 0, 0));
    let mut result = Vector::<K>::new_degree255();
    let mut k: usize = 0;
    while k < K
        invariant
            k <= K,
            shares.len() > 0,
            pts == share_points(vector_share_column(shares@, 0, 0)),
            lagrange_defined(pts),
            forall|a: int, c: int|
                0 <= a < k && 0 <= c < 256 ==> #[trigger] result.data[a].data[c] == lagrange_sum(
                    vector_share_column(shares@, a, c),
                    pts,
                ),
            forall|a: int| 0 <= a < k ==> (#[trigger] result.data[a]).t == shares[0].vector.data[a].t,
        decreases K - k,
    {
        let mut ring_shares: Vec<RingShare> = Vec::with_capacity(shares.len());
        let mut p: usize = 0;
        while p < shares.len()
            invariant
                p <= shares.len(),
                k < K,
                ring_shares@.len() == p,
                forall|q: int| 0 <= q < p ==> #[trigger] ring_shares@[q] == (RingShare { x: shares@[q].x, ring: shares@[q].vector.data[k as int] }),
            decreases shares.len() - p,
        {
            ring_shares.push(RingShare { x: shares[p].x, ring: shares[p].vector.data[k] });
            p = p + 1;
        }
        proof {
            assert forall|c: int| 0 <= c < 256 implies ring_column(ring_shares@, c) =~= vector_share_column(shares@, k as int, c) by {}
            assert(share_points(ring_column(ring_shares@, 0)) =~= pts);
        }
        let r = reconstruct_ring(ring_shares.as_slice());
        result.data[k] = r;
        proof {
            assert forall|c: int| 0 <= c < 256 implies #[trigger] result.data[k as int].data[c] == lagrange_sum(
                vector_share_column(shares@, k as int, c),
                pts,
            ) by {
                assert(ring_column(ring_shares@, c) =~= vector_share_column(shares@, k as int, c));
                assert(r.data[c] == lagrange_sum(ring_column(ring_shares@, c), share_points(ring_column(ring_shares@, 0))));
            }
        }
        k = k + 1;
    }
    result
}

} // verus!
