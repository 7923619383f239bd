//! The receiver and the protocol driver of the Shamir-branch threshold
//! decryption: opening the masked error shares, the committee's steps
//! 1 to 5, and the receiver's step 6 (summing the shares of `mu' m`,
//! decoding every candidate and taking a majority over the `ell` rounds).
use vstd::prelude::*;
use vstd::arithmetic::power2::*;
use vstd::arithmetic::div_mod::*;
use crate::arith::{
    sum_mod,
    plain_sum,
    lemma_sum_mod_bound,
    lemma_sum_mod_is_sum,
    lemma_plain_sum_congruent,
    lemma_plain_sum_add,
    lemma_plain_sum_sub,
    lemma_plain_sum_single,
    lemma_sub_mod,
    lemma_mul_mod_scaled,
};
use crate::dealer::{DoubleShare, ThrParams, lemma_thr_moduli, is_double_round, share_coeff_column};
use crate::party::{
    Party,
    PartialDecOutput,
    w_prime_spec,
    e_prime_spec,
    finalize_coeff,
    decompressed_vector,
    decompressed_ring,
};
use crate::params::field_q;
use crate::ring::{RingRepresentation, decompress_coeff};
use crate::shamir::{lagrange_coeff, lagrange_den};
use crate::shamir_ring::VectorShare;
use crate::kpke::Cyphertext;

verus! {

/// The values at round `j`, coefficient `c` of every party's list of shares.
pub open spec fn party_column(shares: Seq<Vec<[u64; 256]>>, j: int, c: int) -> Seq<int> {
    Seq::new(shares.len(), |p: int| shares[p]@[j][c] as int)
}

/// Every party holds `ell` rounds of shares, each value at most `bound`.
pub open spec fn rounds_well_formed(shares: Seq<Vec<[u64; 256]>>, ell: int, bound: int) -> bool {
    &&& forall|p: int| 0 <= p < shares.len() ==> (#[trigger] shares[p])@.len() == ell
    &&& forall|p: int, j: int, c: int|
        0 <= p < shares.len() && 0 <= j < ell && 0 <= c < 256 ==> #[trigger] shares[p]@[j][c] <= bound
}

/// Sum, round by round and coefficient by coefficient, the shares of all
/// parties modulo `m`, accumulating party after party.
fn sum_rounds_mod(shares: &[Vec<[u64; 256]>], m: u64) -> (out: Vec<[u64; 256]>)
    requires
        shares@.len() > 0,
        m > 0,
        rounds_well_formed(shares@, shares@[0]@.len() as int, u64::MAX - m),
    ensures
        out@.len() == shares@[0]@.len(),
        forall|j: int, c: int|
            0 <= j < out@.len() && 0 <= c < 256 ==> (#[trigger] out@[j][c]) == sum_mod(
                party_column(shares@, j, c),
                m as int,
            ),
{
    let ell = shares[0].len();
    let mut out: Vec<[u64; 256]> = Vec::with_capacity(ell);
    let mut j: usize = 0;
    while j < ell
        invariant
            j <= ell,
            out@.len() == j,
            forall|a: int, c: int| 0 <= a < j && 0 <= c < 256 ==> (#[trigger] out@[a][c]) == 0,
        decreases ell - j,
    {
        out.push([0u64; 256]);
        j = j + 1;
    }
    let mut p: usize = 0;
    while p < shares.len()
        invariant
            p <= shares@.len(),
            m > 0,
            ell == shares@[0]@.len(),
            rounds_well_formed(shares@, ell as int, u64::MAX - m),
            out@.len() == ell,
            forall|a: int, c: int|
                0 <= a < ell && 0 <= c < 256 ==> (#[trigger] out@[a][c]) == sum_mod(
                    party_column(shares@, a, c).subrange(0, p as int),
                    m as int,
                ),
        decreases shares@.len() - p,
    {
        let share_vec = &shares[p];
        assert(share_vec@.len() == ell);
        let mut j: usize = 0;
        while j < ell
            invariant
                j <= ell,
                p < shares@.len(),
                m > 0,
                *share_vec == shares@[p as int],
                share_vec@.len() == ell,
                rounds_well_formed(shares@, ell as int, u64::MAX - m),
                out@.len() == ell,
                forall|a: int, c: int|
                    0 <= a < j && 0 <= c < 256 ==> (#[trigger] out@[a][c]) == sum_mod(
                        party_column(shares@, a, c).subrange(0, p + 1),
                        m as int,
                    ),
                forall|a: int, c: int|
                    j <= a < ell && 0 <= c < 256 ==> (#[trigger] out@[a][c]) == sum_mod(
                        party_column(shares@, a, c).subrange(0, p as int),
                        m as int,
                    ),
            decreases ell - j,
        {
            let mut row = out[j];
            let src = &share_vec[j];
            let mut c: usize = 0;
            while c < 256
                invariant
                    c <= 256,
                    p < shares@.len(),
                    j < ell,
                    m > 0,
                    *src == shares@[p as int]@[j as int],
                    rounds_well_formed(shares@, ell as int, u64::MAX - m),
                    forall|i: int|
                        0 <= i < c ==> row[i] == sum_mod(
                            party_column(shares@, j as int, i).subrange(0, p + 1),
                            m as int,
                        ),
                    forall|i: int|
                        c <= i < 256 ==> row[i] == sum_mod(
                            party_column(shares@, j as int, i).subrange(0, p as int),
                            m as int,
                        ),
                decreases 256 - c,
            {
                proof {
                    let col = party_column(shares@, j as int, c as int);
                    assert(col.subrange(0, p + 1).drop_last() =~= col.subrange(0, p as int));
                    assert(col[p as int] == src[c as int]);
                    lemma_sum_mod_bound(col.subrange(0, p as int), m as int);
                    assert(shares@[p as int]@[j as int][c as int] <= u64::MAX - m);
                }
                row[c] = (row[c] + src[c]) % m;
                c = c + 1;
            }
            out.set(j, row);
            j = j + 1;
        }
        p = p + 1;
    }
    proof {
        assert forall|a: int, c: int| 0 <= a < ell && 0 <= c < 256 implies (#[trigger] out@[a][c]) == sum_mod(
            party_column(shares@, a, c),
            m as int,
        ) by {
            assert(party_column(shares@, a, c).subrange(0, shares@.len() as int) =~= party_column(shares@, a, c));
        }
    }
    out
}

/// Open the `ell` values `e~_j = e' + d_j` (mod `mu'`): sum, round by round,
/// the masked shares of all parties modulo `mu'`.
pub fn open_v(masked_shares: &[Vec<[u64; 256]>], thr: &ThrParams) -> (out: Vec<[u64; 256]>)
    requires
        masked_shares@.len() > 0,
        thr.wf(),
        rounds_well_formed(masked_shares@, masked_shares@[0]@.len() as int, u64::MAX - thr.mu_prime),
    ensures
        out@.len() == masked_shares@[0]@.len(),
        forall|j: int, c: int|
            0 <= j < out@.len() && 0 <= c < 256 ==> (#[trigger] out@[j][c]) == sum_mod(
                party_column(masked_shares@, j, c),
                thr.mu_prime as int,
            ),
{
    proof {
        lemma_thr_moduli(*thr);
    }
    sum_rounds_mod(masked_shares, thr.mu_prime)
}

/// The plaintext symbol of one coefficient of `mu' m`: its centred
/// representative modulo `q'`, divided by `mu'` and rounded half away from
/// zero, reduced modulo `p`.
pub open spec fn decode_spec(c: int, q_prime: int, mu_prime: int, p: int) -> int {
    let r = c % q_prime;
    let half = mu_prime / 2;
    if r >= q_prime / 2 {
        (-((q_prime - r + half) / mu_prime)) % p
    } else {
        ((r + half) / mu_prime) % p
    }
}

/// Decode one coefficient of `mu' m` to a plaintext symbol in `[0, p)`.
pub fn decode_coeff(c: u64, q_prime: u64, mu_prime: u64, p: u64) -> (r: u64)
    requires
        0 < q_prime <= i64::MAX,
        0 < mu_prime <= i64::MAX,
        0 < p <= i64::MAX,
    ensures
        r == decode_spec(c as int, q_prime as int, mu_prime as int, p as int),
        r < p,
{
    let r = c % q_prime;
    let half = mu_prime / 2;
    if r >= q_prime / 2 {
        let a = (q_prime - r + half) / mu_prime;
        let m = a % p;
        proof {
            let ai = a as int;
            let pi = p as int;
            let qq = ai / pi;
            lemma_fundamental_div_mod(ai, pi);
            if m == 0 {
                assert(-ai == (-qq) * pi + 0) by (nonlinear_arith)
                    requires
                        ai == pi * qq + 0,
                ;
                lemma_fundamental_div_mod_converse(-ai, pi, -qq, 0);
            } else {
                assert(-ai == (-qq - 1) * pi + (pi - m)) by (nonlinear_arith)
                    requires
                        ai == pi * qq + m,
                ;
                lemma_fundamental_div_mod_converse(-ai, pi, -qq - 1, pi - m);
            }
        }
        if m == 0 {
            0
        } else {
            p - m
        }
    } else {
        ((r + half) / mu_prime) % p
    }
}

/// Candidate `j` of coefficient `c` of `mu' m`: the parties' shares summed
/// modulo `q'`.
pub open spec fn candidate(shares: Seq<Vec<[u64; 256]>>, j: int, c: int, thr: ThrParams) -> int {
    sum_mod(party_column(shares, j, c), thr.q_prime as int)
}

/// How many of the first `rounds` candidates of coefficient `c` decode to 1.
pub open spec fn votes_for_one(shares: Seq<Vec<[u64; 256]>>, c: int, rounds: int, thr: ThrParams) -> int
    decreases rounds,
{
    if rounds <= 0 {
        0
    } else {
        votes_for_one(shares, c, rounds - 1, thr) + decode_spec(
            candidate(shares, rounds - 1, c, thr),
            thr.q_prime as int,
            thr.mu_prime as int,
            thr.p as int,
        )
    }
}

/// The majority-decoded message bits: bit `c` is 1 exactly when more than
/// half of the `ell` candidates of coefficient `c` decode to 1.
pub open spec fn majority_bits(shares: Seq<Vec<[u64; 256]>>, ell: int, thr: ThrParams) -> Seq<bool> {
    Seq::new(256, |c: int| 2 * votes_for_one(shares, c, ell, thr) > ell)
}

/// The value of the low `i` bits of byte `b` of the little-endian packing
/// of `bits` (bit `c` goes to bit `c % 8` of byte `c / 8`).
pub open spec fn pack_byte(bits: Seq<bool>, b: int, i: nat) -> int
    decreases i,
{
    if i == 0 {
        0
    } else {
        pack_byte(bits, b, (i - 1) as nat) + if bits[8 * b + i - 1] {
            pow2((i - 1) as nat) as int
        } else {
            0
        }
    }
}

/// The 256 bits packed into 32 bytes, least significant bit first.
pub open spec fn pack_bits(bits: Seq<bool>) -> Seq<u8> {
    Seq::new(32, |b: int| pack_byte(bits, b, 8) as u8)
}

/// A packed byte prefix of `i` bits is below `2^i`.
pub proof fn lemma_pack_byte_bound(bits: Seq<bool>, b: int, i: nat)
    requires
        i <= 8,
    ensures
        0 <= pack_byte(bits, b, i) < pow2(i),
    decreases i,
{
    lemma2_to64();
    if i > 0 {
        lemma_pack_byte_bound(bits, b, (i - 1) as nat);
        lemma_pow2_unfold(i);
    }
}

/// Step 6 at the receiver: sum the shares of `mu' m` modulo `q'` into `ell`
/// candidates, decode each to a bit, take for every coefficient the strict
/// majority of the `ell` bits (a tie gives 0), and pack the 256 bits into
/// 32 bytes.
pub fn receiver_reconstruct(mu_m_shares: &[Vec<[u64; 256]>], thr: &ThrParams) -> (out: [u8; 32])
    requires
        mu_m_shares@.len() > 0,
        thr.wf(),
        thr.p == 2,
        mu_m_shares@[0]@.len() < 0x8000_0000,
        rounds_well_formed(mu_m_shares@, mu_m_shares@[0]@.len() as int, u64::MAX - thr.q_prime),
    ensures
        out@ == pack_bits(majority_bits(mu_m_shares@, mu_m_shares@[0]@.len() as int, *thr)),
{
    proof {
        lemma_thr_moduli(*thr);
        lemma2_to64();
    }
    let ell = mu_m_shares[0].len();
    let q_prime = thr.q_prime;
    let mu_prime = thr.mu_prime;
    let p = thr.p;
    let candidates = sum_rounds_mod(mu_m_shares, q_prime);
    let ghost bits = majority_bits(mu_m_shares@, ell as int, *thr);
    let mut out = [0u8; 32];
    let mut c: usize = 0;
    while c < 256
        invariant
            c <= 256,
            ell == mu_m_shares@[0]@.len(),
            ell < 0x8000_0000,
            q_prime == thr.q_prime,
            mu_prime == thr.mu_prime,
            p == thr.p,
            p == 2,
            q_prime == 0x2000_0000,
            1 <= mu_prime <= q_prime,
            bits == majority_bits(mu_m_shares@, ell as int, *thr),
            candidates@.len() == ell,
            forall|j: int, i: int|
                0 <= j < ell && 0 <= i < 256 ==> (#[trigger] candidates@[j][i]) == candidate(
                    mu_m_shares@,
                    j,
                    i,
                    *thr,
                ),
            forall|b: int| 0 <= b < c / 8 ==> out[b] == pack_byte(bits, b, 8),
            c < 256 ==> out[(c / 8) as int] == pack_byte(bits, (c / 8) as int, (c % 8) as nat),
            forall|b: int| c / 8 < b < 32 ==> out[b] == 0,
        decreases 256 - c,
    {
        let mut votes: u32 = 0;
        let mut j: usize = 0;
        while j < ell
            invariant
                j <= ell,
                c < 256,
                ell < 0x8000_0000,
                candidates@.len() == ell,
                q_prime == thr.q_prime,
                mu_prime == thr.mu_prime,
                p == thr.p,
                p == 2,
                q_prime == 0x2000_0000,
                1 <= mu_prime <= q_prime,
                forall|a: int, i: int|
                    0 <= a < ell && 0 <= i < 256 ==> (#[trigger] candidates@[a][i]) == candidate(
                        mu_m_shares@,
                        a,
                        i,
                        *thr,
                    ),
                votes == votes_for_one(mu_m_shares@, c as int, j as int, *thr),
                votes <= j,
            decreases ell - j,
        {
            let bit = decode_coeff(candidates[j][c], q_prime, mu_prime, p);
            votes = votes + bit as u32;
            j = j + 1;
        }
        let one_wins = (votes as usize) * 2 > ell;
        let b = c / 8;
        let k = c % 8;
        proof {
            lemma2_to64();
            lemma_pack_byte_bound(bits, b as int, k as nat);
            lemma_pow2_strictly_increases(k as nat, 8);
            assert(bits[c as int] == one_wins);
            assert(8 * (b as int) + k == c);
        }
        if one_wins {
            let x = out[b];
            let kk = k as u8;
            proof {
                vstd::bits::lemma_u8_shl_is_mul(1, kk);
                lemma_pow2_pos(k as nat);
            }
            let bitval: u8 = 1u8 << kk;
            assert((x | bitval) == x + bitval) by (bit_vector)
                requires
                    x < bitval,
                    bitval == 1u8 << kk,
                    kk < 8,
            ;
            out[b] = x | bitval;
        }
        proof {
            lemma_pow2_unfold((k + 1) as nat);
            assert(out[b as int] == pack_byte(bits, b as int, (k + 1) as nat));
        }
        c = c + 1;
    }
    proof {
        assert(out@ =~= pack_bits(bits));
    }
    out
}

/// The evaluation points of the parties, in order.
pub open spec fn party_ids<const K: usize>(parties: Seq<Party<K>>) -> Seq<u32> {
    Seq::new(parties.len(), |i: int| parties[i].id)
}

/// The least value of a nonempty sequence.
pub open spec fn seq_min(s: Seq<u32>) -> u32
    decreases s.len(),
{
    if s.len() <= 1 {
        s[0]
    } else {
        let m = seq_min(s.drop_last());
        if s.last() < m {
            s.last()
        } else {
            m
        }
    }
}

/// The least value occurs in the sequence and bounds every element.
pub proof fn lemma_seq_min(s: Seq<u32>)
    requires
        s.len() > 0,
    ensures
        s.contains(seq_min(s)),
        forall|i: int| 0 <= i < s.len() ==> seq_min(s) <= #[trigger] s[i],
    decreases s.len(),
{
    if s.len() > 1 {
        lemma_seq_min(s.drop_last());
        assert forall|i: int| 0 <= i < s.len() implies seq_min(s) <= #[trigger] s[i] by {
            if i < s.len() - 1 {
                assert(s.drop_last()[i] == s[i]);
            }
        }
        let m = seq_min(s.drop_last());
        if s.last() >= m {
            let k = choose|k: int| 0 <= k < s.drop_last().len() && s.drop_last()[k] == m;
            assert(s[k] == m);
        } else {
            assert(s[s.len() - 1] == s.last());
        }
    } else {
        assert(s[0] == seq_min(s));
    }
}

/// Whether party `i` adds the public `v` into its share: the party with the
/// least id.
pub open spec fn is_holder<const K: usize>(parties: Seq<Party<K>>, i: int) -> bool {
    parties[i].id == seq_min(party_ids(parties))
}

/// `<w'>^{q'}` of party `i` on the ciphertext `c`.
pub open spec fn committee_w_prime<const K: usize, const D_U: usize, const D_V: usize>(
    parties: Seq<Party<K>>,
    c: Cyphertext<K, D_U, D_V>,
    i: int,
) -> Seq<u64> {
    w_prime_spec(
        decompressed_vector(c.0.0, D_U as nat),
        decompressed_ring(c.1.0, D_V as nat),
        parties[i].sk_share.vector.data@,
        lagrange_coeff(party_ids(parties), parties[i].id),
        is_holder(parties, i),
        parties[i].thr,
    )
}

/// Party `i`'s masked error share of round `j`, coefficient `k`.
pub open spec fn committee_masked<const K: usize, const D_U: usize, const D_V: usize>(
    parties: Seq<Party<K>>,
    c: Cyphertext<K, D_U, D_V>,
    i: int,
    j: int,
    k: int,
) -> int {
    (e_prime_spec(committee_w_prime(parties, c, i), parties[i].thr)[k] + parties[i].dbl.mu_prime@[j][k])
        % (parties[i].thr.mu_prime as int)
}

/// The opened `e~_j` at coefficient `k`: the masked shares of all parties
/// summed modulo `mu'`.
pub open spec fn committee_e_tilde<const K: usize, const D_U: usize, const D_V: usize>(
    parties: Seq<Party<K>>,
    c: Cyphertext<K, D_U, D_V>,
    thr: ThrParams,
    j: int,
    k: int,
) -> int {
    sum_mod(Seq::new(parties.len(), |i: int| committee_masked(parties, c, i, j, k)), thr.mu_prime as int)
}

/// Party `i`'s share of `mu' m` in round `j`, coefficient `k`, over `Z_{q'}`.
pub open spec fn committee_share<const K: usize, const D_U: usize, const D_V: usize>(
    parties: Seq<Party<K>>,
    c: Cyphertext<K, D_U, D_V>,
    thr: ThrParams,
    i: int,
    j: int,
    k: int,
) -> int {
    finalize_coeff(
        committee_w_prime(parties, c, i)[k] as int,
        committee_e_tilde(parties, c, thr, j, k),
        parties[i].dbl.q_prime@[j][k] as int,
        is_holder(parties, i),
        parties[i].thr.q_prime as int,
    )
}

/// What the committee needs to run steps 1 to 5 on `c`: well-formed
/// parameters and shares, NTT-form key shares, invertible Lagrange
/// denominators over the parties' ids, the same number `ell` of double
/// sharings at every party, and ciphertext values within machine range.
pub open spec fn committee_ready<const K: usize, const D_U: usize, const D_V: usize>(
    parties: Seq<Party<K>>,
    c: Cyphertext<K, D_U, D_V>,
    thr: ThrParams,
) -> bool {
    &&& K > 0
    &&& 1 <= D_U < 32
    &&& 1 <= D_V < 32
    &&& parties.len() > 0
    &&& thr.wf()
    &&& forall|k: int| 0 <= k < K ==> (#[trigger] c.0.0.data[k]).t == RingRepresentation::Degree255
    &&& forall|i: int|
        0 <= i < 256 ==> decompress_coeff(#[trigger] c.1.0.data[i] as int, D_V as nat) + field_q()
            <= u32::MAX
    &&& forall|i: int|
        0 <= i < parties.len() ==> {
            &&& (#[trigger] parties[i]).thr.wf()
            &&& parties[i].key_ready()
            &&& parties[i].dbl.wf()
            &&& parties[i].dbl.q_prime@.len() == parties[0].dbl.q_prime@.len()
            &&& parties[i].id <= field_q()
            &&& lagrange_den(party_ids(parties), parties[i].id) % field_q() != 0
        }
    &&& forall|i: int, j: int, k: int|
        0 <= i < parties.len() && 0 <= j < parties[i].dbl.mu_prime@.len() && 0 <= k < 256
            ==> #[trigger] parties[i].dbl.mu_prime@[j][k] <= u64::MAX - parties[i].thr.mu_prime
}

/// Steps 1 to 5 of the committee on the ciphertext `c`: every party
/// decrypts partially (Lagrange coefficient over the parties' ids, the
/// party with the least id holding `v`), masks its error share with each
/// of its `ell` double sharings, the masked shares are opened, and every
/// party returns its `ell` shares of `mu' m` over `Z_{q'}`.
pub fn threshold_decrypt<const K: usize, const D_U: usize, const D_V: usize>(
    parties: &[Party<K>],
    c: Cyphertext<K, D_U, D_V>,
    thr: &ThrParams,
) -> (out: Vec<Vec<[u64; 256]>>)
    requires
        committee_ready(parties@, c, *thr),
    ensures
        out@.len() == parties@.len(),
        forall|i: int| 0 <= i < parties@.len() ==> (#[trigger] out@[i])@.len() == parties@[0].dbl.q_prime@.len(),
        forall|i: int, j: int, k: int|
            0 <= i < parties@.len() && 0 <= j < parties@[0].dbl.q_prime@.len() && 0 <= k < 256
                ==> (#[trigger] out@[i]@[j][k]) == committee_share(parties@, c, *thr, i, j, k),
{
    let n = parties.len();
    let ell = parties[0].dbl.ell();
    let mut active_ids: Vec<u32> = Vec::with_capacity(n);
    let mut i: usize = 0;
    while i < n
        invariant
            i <= n,
            n == parties@.len(),
            active_ids@ == party_ids(parties@).subrange(0, i as int),
        decreases n - i,
    {
        active_ids.push(parties[i].id);
        proof {
            assert(active_ids@ =~= party_ids(parties@).subrange(0, i + 1));
        }
        i = i + 1;
    }
    proof {
        assert(active_ids@ =~= party_ids(parties@));
    }
    let ghost ids = party_ids(parties@);
    let mut v_holder_id: u32 = active_ids[0];
    let mut i: usize = 1;
    proof {
        assert(ids.subrange(0, 1).drop_last().len() == 0);
    }
    while i < n
        invariant
            1 <= i <= n,
            n == ids.len(),
            active_ids@ == ids,
            v_holder_id == seq_min(ids.subrange(0, i as int)),
        decreases n - i,
    {
        proof {
            assert(ids.subrange(0, i + 1).drop_last() =~= ids.subrange(0, i as int));
        }
        if active_ids[i] < v_holder_id {
            v_holder_id = active_ids[i];
        }
        i = i + 1;
    }
    proof {
        assert(ids.subrange(0, n as int) =~= ids);
    }
    let mut step1: Vec<PartialDecOutput> = Vec::with_capacity(n);
    let mut masked_per_party: Vec<Vec<[u64; 256]>> = Vec::with_capacity(n);
    let mut i: usize = 0;
    while i < n
        invariant
            i <= n,
            n == parties@.len(),
            ell == parties@[0].dbl.q_prime@.len(),
            committee_ready(parties@, c, *thr),
            active_ids@ == ids,
            ids == party_ids(parties@),
            v_holder_id == seq_min(ids),
            step1@.len() == i,
            masked_per_party@.len() == i,
            forall|a: int| 0 <= a < i ==> (#[trigger] step1@[a]).w_prime@ == committee_w_prime(parties@, c, a),
            forall|a: int|
                0 <= a < i ==> (#[trigger] step1@[a]).e_prime@ == e_prime_spec(
                    committee_w_prime(parties@, c, a),
                    parties@[a].thr,
                ),
            forall|a: int| 0 <= a < i ==> (#[trigger] masked_per_party@[a])@.len() == ell,
            forall|a: int, j: int, k: int|
                0 <= a < i && 0 <= j < ell && 0 <= k < 256 ==> (#[trigger] masked_per_party@[a]@[j][k])
                    == committee_masked(parties@, c, a, j, k),
        decreases n - i,
    {
        let p = &parties[i];
        let holder = p.id == v_holder_id;
        proof {
            assert(parties@[i as int].thr.wf());
            lemma_thr_moduli(p.thr);
        }
        let o = p.partial_decrypt_compressed::<D_U, D_V>(c, active_ids.as_slice(), holder);
        proof {
            assert(holder == is_holder(parties@, i as int));
            assert forall|j: int, k: int|
                0 <= j < p.dbl.mu_prime@.len() && 0 <= k < 256 implies o.e_prime[k] + (
                #[trigger] p.dbl.mu_prime@[j][k]) <= u64::MAX by {
                assert(parties@[i as int].dbl.mu_prime@[j][k] <= u64::MAX - parties@[i as int].thr.mu_prime);
                assert(o.e_prime@[k] < p.thr.mu_prime);
            }
        }
        let m = p.mask(&o.e_prime);
        step1.push(o);
        masked_per_party.push(m);
        i = i + 1;
    }
    proof {
        lemma_thr_moduli(*thr);
        assert forall|a: int, j: int, k: int|
            0 <= a < n && 0 <= j < ell && 0 <= k < 256 implies #[trigger] masked_per_party@[a]@[j][k]
                <= u64::MAX - thr.mu_prime by {
            lemma_thr_moduli(parties@[a].thr);
            lemma_mod_bound(
                e_prime_spec(committee_w_prime(parties@, c, a), parties@[a].thr)[k] + parties@[a].dbl.mu_prime@[j][k],
                parties@[a].thr.mu_prime as int,
            );
        }
    }
    let e_tilde_opened = open_v(masked_per_party.as_slice(), thr);
    proof {
        assert forall|j: int, k: int| 0 <= j < ell && 0 <= k < 256 implies (#[trigger] e_tilde_opened@[j][k])
            == committee_e_tilde(parties@, c, *thr, j, k) by {
            assert(party_column(masked_per_party@, j, k) =~= Seq::new(
                parties@.len(),
                |a: int| committee_masked(parties@, c, a, j, k),
            ));
        }
    }
    let mut out: Vec<Vec<[u64; 256]>> = Vec::with_capacity(n);
    let mut i: usize = 0;
    while i < n
        invariant
            i <= n,
            n == parties@.len(),
            ell == parties@[0].dbl.q_prime@.len(),
            committee_ready(parties@, c, *thr),
            ids == party_ids(parties@),
            v_holder_id == seq_min(ids),
            step1@.len() == n,
            forall|a: int| 0 <= a < n ==> (#[trigger] step1@[a]).w_prime@ == committee_w_prime(parties@, c, a),
            e_tilde_opened@.len() == ell,
            forall|j: int, k: int|
                0 <= j < ell && 0 <= k < 256 ==> (#[trigger] e_tilde_opened@[j][k]) == committee_e_tilde(
                    parties@,
                    c,
                    *thr,
                    j,
                    k,
                ),
            out@.len() == i,
            forall|a: int| 0 <= a < i ==> (#[trigger] out@[a])@.len() == ell,
            forall|a: int, j: int, k: int|
                0 <= a < i && 0 <= j < ell && 0 <= k < 256 ==> (#[trigger] out@[a]@[j][k])
                    == committee_share(parties@, c, *thr, a, j, k),
        decreases n - i,
    {
        let p = &parties[i];
        let holder = p.id == v_holder_id;
        proof {
            assert(parties@[i as int].thr.wf());
        }
        let f = p.finalize(&step1[i].w_prime, e_tilde_opened.as_slice(), holder);
        out.push(f);
        i = i + 1;
    }
    out
}

/// Two double shares with the same id and the same share lists.
pub open spec fn same_double_share(a: DoubleShare, b: DoubleShare) -> bool {
    a.party_id == b.party_id && a.q_prime@ == b.q_prime@ && a.mu_prime@ == b.mu_prime@
}

/// Copy of a list of coefficient arrays.
fn copy_rows(rows: &Vec<[u64; 256]>) -> (out: Vec<[u64; 256]>)
    ensures
        out@ == rows@,
{
    let mut out: Vec<[u64; 256]> = Vec::with_capacity(rows.len());
    let mut i: usize = 0;
    while i < rows.len()
        invariant
            i <= rows@.len(),
            out@ == rows@.subrange(0, i as int),
        decreases rows@.len() - i,
    {
        out.push(rows[i]);
        proof {
            assert(out@ =~= rows@.subrange(0, i + 1));
        }
        i = i + 1;
    }
    proof {
        assert(rows@.subrange(0, rows@.len() as int) =~= rows@);
    }
    out
}

/// The active committee: the first `t` key shares paired with the `t`
/// double shares (`t` the number of double shares).
pub fn assemble_parties<const K: usize>(
    sk_shares: &[VectorShare<K>],
    double_shares: &[DoubleShare],
    thr: ThrParams,
) -> (out: Vec<Party<K>>)
    requires
        sk_shares@.len() >= double_shares@.len(),
        forall|i: int| 0 <= i < double_shares@.len() ==> (#[trigger] sk_shares@[i]).x == double_shares@[i].party_id,
    ensures
        out@.len() == double_shares@.len(),
        forall|i: int|
            0 <= i < out@.len() ==> (#[trigger] out@[i]).id == sk_shares@[i].x && out@[i].sk_share
                == sk_shares@[i] && same_double_share(out@[i].dbl, double_shares@[i]) && out@[i].thr == thr,
{
    let t = double_shares.len();
    let mut out: Vec<Party<K>> = Vec::with_capacity(t);
    let mut i: usize = 0;
    while i < t
        invariant
            i <= t,
            t == double_shares@.len(),
            sk_shares@.len() >= t,
            forall|a: int| 0 <= a < t ==> (#[trigger] sk_shares@[a]).x == double_shares@[a].party_id,
            out@.len() == i,
            forall|a: int|
                0 <= a < i ==> (#[trigger] out@[a]).id == sk_shares@[a].x && out@[a].sk_share
                    == sk_shares@[a] && same_double_share(out@[a].dbl, double_shares@[a]) && out@[a].thr == thr,
        decreases t - i,
    {
        let sk = sk_shares[i];
        let d = &double_shares[i];
        let dbl = DoubleShare { party_id: d.party_id, q_prime: copy_rows(&d.q_prime), mu_prime: copy_rows(&d.mu_prime) };
        proof {
            assert(same_double_share(dbl, *d));
        }
        out.push(Party::new(sk.x, sk, dbl, thr));
        i = i + 1;
    }
    out
}

/// The sum over the committee of the `<w'>^{q'}` shares of coefficient `k`,
/// over the integers.
pub open spec fn committee_w_sum<const K: usize, const D_U: usize, const D_V: usize>(
    parties: Seq<Party<K>>,
    c: Cyphertext<K, D_U, D_V>,
    k: int,
) -> int {
    plain_sum(Seq::new(parties.len(), |i: int| committee_w_prime(parties, c, i)[k] as int))
}

/// The receiver's candidate for `mu' m` in round `j`, coefficient `k`: the
/// committee's shares summed modulo `q'`.
pub open spec fn committee_candidate<const K: usize, const D_U: usize, const D_V: usize>(
    parties: Seq<Party<K>>,
    c: Cyphertext<K, D_U, D_V>,
    thr: ThrParams,
    j: int,
    k: int,
) -> int {
    sum_mod(Seq::new(parties.len(), |i: int| committee_share(parties, c, thr, i, j, k)), thr.q_prime as int)
}

/// The parties' double shares of round `j` over `Z_{q'}`.
pub open spec fn q_shares_of<const K: usize>(parties: Seq<Party<K>>, j: int) -> Seq<[u64; 256]> {
    Seq::new(parties.len(), |i: int| parties[i].dbl.q_prime@[j])
}

/// The parties' double shares of round `j` over `Z_{mu'}`.
pub open spec fn mu_shares_of<const K: usize>(parties: Seq<Party<K>>, j: int) -> Seq<[u64; 256]> {
    Seq::new(parties.len(), |i: int| parties[i].dbl.mu_prime@[j])
}

/// A finalised share is congruent to `w - (e~ if holder) + d` modulo `q'`.
pub proof fn lemma_finalize_coeff_congruent(w: int, e_tilde: int, d: int, holder: bool, q: int)
    requires
        q > 0,
    ensures
        finalize_coeff(w, e_tilde, d, holder, q) == (w - (if holder {
            e_tilde
        } else {
            0
        }) + d) % q,
{
    let hv = if holder {
        e_tilde
    } else {
        0
    };
    let e = if holder {
        (e_tilde % q + q - d % q) % q
    } else {
        (q - d % q) % q
    };
    lemma_sub_mod(hv, d, q);
    lemma_small_mod(0, q as nat);
    assert(e == (hv - d) % q);
    lemma_sub_mod(w, e, q);
    lemma_mod_twice(hv - d, q);
    lemma_sub_mod_noop(w, e, q);
    lemma_sub_mod_noop(w, hv - d, q);
}

/// A multiple `mu * t` of `mu`, reduced modulo `q' = p * mu`, decodes to
/// `t mod p`.
pub proof fn lemma_decode_multiple(t: int, mu: int, p: int)
    requires
        t >= 0,
        mu >= 1,
        p >= 1,
    ensures
        decode_spec((mu * t) % (p * mu), p * mu, mu, p) == t % p,
{
    let x = t % p;
    lemma_mod_bound(t, p);
    lemma_mul_mod_scaled(mu, t, p);
    let cc = mu * x;
    assert(0 <= cc < p * mu) by (nonlinear_arith)
        requires
            0 <= x < p,
            mu >= 1,
            cc == mu * x,
    ;
    lemma_small_mod(cc as nat, (p * mu) as nat);
    let half = mu / 2;
    if cc >= (p * mu) / 2 {
        assert(p * mu - cc + half == (p - x) * mu + half) by (nonlinear_arith)
            requires
                cc == mu * x,
        ;
        lemma_fundamental_div_mod_converse(p * mu - cc + half, mu, p - x, half);
        lemma_fundamental_div_mod_converse(-(p - x), p, -1, x);
    } else {
        assert(cc + half == x * mu + half) by (nonlinear_arith)
            requires
                cc == mu * x,
        ;
        lemma_fundamental_div_mod_converse(cc + half, mu, x, half);
        lemma_small_mod(x as nat, p as nat);
    }
}

/// With distinct ids, exactly one party holds `v`.
pub proof fn lemma_unique_holder<const K: usize>(parties: Seq<Party<K>>) -> (i0: int)
    requires
        parties.len() > 0,
        forall|a: int, b: int| 0 <= a < b < parties.len() ==> parties[a].id != parties[b].id,
    ensures
        0 <= i0 < parties.len(),
        forall|i: int| 0 <= i < parties.len() ==> (is_holder(parties, i) <==> i == i0),
{
    let ids = party_ids(parties);
    lemma_seq_min(ids);
    let i0 = choose|i: int| 0 <= i < ids.len() && ids[i] == seq_min(ids);
    assert forall|i: int| 0 <= i < parties.len() implies (is_holder(parties, i) <==> i == i0) by {
        assert(ids[i] == parties[i].id);
        if i != i0 && is_holder(parties, i) {
            if i < i0 {
                assert(parties[i].id != parties[i0].id);
            } else {
                assert(parties[i0].id != parties[i].id);
            }
        }
    }
    i0
}

/// Mask-then-open correctness: when the committee (distinct ids, one set of
/// parameters) holds an additive double sharing of `r` in round `j`, the
/// receiver's candidate for round `j` at coefficient `k` is
/// `mu' * floor((W + r_k) / mu') mod q'`, where `W` is the sum of the
/// parties' `<w'>^{q'}` shares, and it decodes to
/// `floor((W + r_k) / mu') mod p`.
pub proof fn lemma_committee_candidate_rounds<const K: usize, const D_U: usize, const D_V: usize>(
    parties: Seq<Party<K>>,
    c: Cyphertext<K, D_U, D_V>,
    thr: ThrParams,
    j: int,
    k: int,
    r: Seq<u64>,
)
    requires
        committee_ready(parties, c, thr),
        forall|i: int| 0 <= i < parties.len() ==> (#[trigger] parties[i]).thr == thr,
        forall|a: int, b: int| 0 <= a < b < parties.len() ==> parties[a].id != parties[b].id,
        0 <= j < parties[0].dbl.q_prime@.len(),
        0 <= k < 256,
        is_double_round(q_shares_of(parties, j), mu_shares_of(parties, j), r, parties.len() as int, thr),
    ensures
        committee_candidate(parties, c, thr, j, k) == (thr.mu_prime * ((committee_w_sum(parties, c, k)
            + r[k]) / thr.mu_prime as int)) % (thr.q_prime as int),
        decode_spec(
            committee_candidate(parties, c, thr, j, k),
            thr.q_prime as int,
            thr.mu_prime as int,
            thr.p as int,
        ) == ((committee_w_sum(parties, c, k) + r[k]) / thr.mu_prime as int) % (thr.p as int),
{
    let n = parties.len() as int;
    let mq = thr.q_prime as int;
    let mm = thr.mu_prime as int;
    lemma_thr_moduli(thr);
    let ws = Seq::new(parties.len(), |i: int| committee_w_prime(parties, c, i)[k] as int);
    let w = plain_sum(ws);
    assert forall|i: int| 0 <= i < n implies #[trigger] ws[i] >= 0 by {}
    // The opened value: e~ = (W + r_k) mod mu'.
    let masked = Seq::new(parties.len(), |i: int| committee_masked(parties, c, i, j, k));
    let dmu = share_coeff_column(mu_shares_of(parties, j), k);
    let wd = Seq::new(parties.len(), |i: int| ws[i] + dmu[i]);
    assert forall|i: int| 0 <= i < n implies #[trigger] masked[i] % mm == wd[i] % mm by {
        assert(parties[i].thr == thr);
        let wi = committee_w_prime(parties, c, i)[k];
        assert(e_prime_spec(committee_w_prime(parties, c, i), thr)[k] == wi % thr.mu_prime);
        assert(dmu[i] == parties[i].dbl.mu_prime@[j][k]);
        lemma_add_mod_noop(wi as int, dmu[i], mm);
        lemma_mod_twice(wi as int, mm);
        lemma_add_mod_noop(wi as int % mm, dmu[i], mm);
        lemma_mod_twice(wi as int % mm + dmu[i], mm);
    }
    lemma_plain_sum_congruent(masked, wd, mm);
    lemma_plain_sum_add(ws, dmu, wd);
    lemma_sum_mod_is_sum(masked, mm);
    lemma_sum_mod_is_sum(dmu, mm);
    lemma_small_mod(r[k] as nat, mm as nat);
    lemma_add_mod_noop(w, plain_sum(dmu), mm);
    lemma_add_mod_noop(w, r[k] as int, mm);
    let et = committee_e_tilde(parties, c, thr, j, k);
    assert(committee_e_tilde(parties, c, thr, j, k) == sum_mod(masked, mm)) by {
        assert(masked =~= Seq::new(parties.len(), |i: int| committee_masked(parties, c, i, j, k)));
    }
    lemma_mod_twice(w + plain_sum(dmu), mm);
    lemma_mod_twice(w + r[k], mm);
    assert(et == (w + r[k]) % mm);
    // The candidate: (W - e~ + r_k) mod q'.
    let i0 = lemma_unique_holder(parties);
    let shares = Seq::new(parties.len(), |i: int| committee_share(parties, c, thr, i, j, k));
    let hs = Seq::new(parties.len(), |i: int| if i == i0 { et } else { 0 });
    let dq = share_coeff_column(q_shares_of(parties, j), k);
    let wh = Seq::new(parties.len(), |i: int| ws[i] - hs[i]);
    let expr = Seq::new(parties.len(), |i: int| wh[i] + dq[i]);
    assert forall|i: int| 0 <= i < n implies #[trigger] shares[i] % mq == expr[i] % mq by {
        assert(parties[i].thr == thr);
        assert(dq[i] == parties[i].dbl.q_prime@[j][k]);
        lemma_finalize_coeff_congruent(ws[i], et, dq[i], is_holder(parties, i), mq);
        lemma_mod_twice(ws[i] - (if is_holder(parties, i) { et } else { 0 }) + dq[i], mq);
    }
    lemma_plain_sum_congruent(shares, expr, mq);
    lemma_plain_sum_single(hs, i0, et);
    lemma_plain_sum_sub(ws, hs, wh);
    lemma_plain_sum_add(wh, dq, expr);
    lemma_sum_mod_is_sum(shares, mq);
    lemma_sum_mod_is_sum(dq, mq);
    assert(r[k] < mq);
    lemma_small_mod(r[k] as nat, mq as nat);
    lemma_add_mod_noop(w - et, plain_sum(dq), mq);
    lemma_add_mod_noop(w - et, r[k] as int, mq);
    assert(committee_candidate(parties, c, thr, j, k) == sum_mod(shares, mq)) by {
        assert(shares =~= Seq::new(parties.len(), |i: int| committee_share(parties, c, thr, i, j, k)));
    }
    lemma_mod_twice(w - et + plain_sum(dq), mq);
    lemma_mod_twice(w - et + r[k], mq);
    assert(committee_candidate(parties, c, thr, j, k) == (w - et + r[k]) % mq);
    let t = (w + r[k]) / mm;
    lemma_fundamental_div_mod(w + r[k], mm);
    assert(w - et + r[k] == mm * t);
    // Decoding: q' = p * mu'.
    let p = thr.p as int;
    lemma_fundamental_div_mod(mq, p);
    assert(mq == p * mm) by (nonlinear_arith)
        requires
            mq == p * (mq / p) + mq % p,
            mq % p == 0,
            mm == mq / p,
    ;
    assert(plain_sum(ws) >= 0) by {
        crate::arith::lemma_plain_sum_nonneg(ws);
    }
    lemma_div_pos_is_pos(w + r[k], mm);
    lemma_decode_multiple(t, mm, p);
}

} // verus!
