//! The receiver and the protocol driver of the dishonest-majority (SPDZ2k)
//! threshold decryption: all `n` parties take part, the one with the least
//! id holds `v`; the receiver sums the shares of `mu' m` into `ell`
//! candidates, decodes them and takes a coefficient-wise majority.
use vstd::prelude::*;
use vstd::arithmetic::power2::*;
use vstd::arithmetic::div_mod::*;
use crate::arith::{
    sum_mod,
    plain_sum,
    lemma_sum_mod_bound,
    lemma_sum_mod_is_sum,
    lemma_plain_sum_congruent,
    lemma_plain_sum_add,
    lemma_plain_sum_sub,
    lemma_plain_sum_single,
    lemma_plain_sum_nonneg,
    lemma_sub_mod,
};
use crate::additive_2k::{AddShare, SpdzParams, share_sum};
use crate::additive_ring::VectorShare128;
use crate::dealer_spdz::{DoubleShare, lemma_spdz_moduli, is_double_round, share_column};
use crate::party_spdz::{vector_below, 
    PartySpdz,
    PartialDecOutput,
    w_prime_spdz,
    e_prime_spdz,
    finalize_spdz,
    w_share_spdz,
    nega_inner,
    nega_inner_ints,
    key_ints,
    row_sums,
    lemma_nega_inner_linear,
    lemma_nega_inner_congruent,
};
use crate::additive_ring::{is_vector_sharing, vector_column};
use vstd::arithmetic::power2::lemma_pow2_adds;
use crate::ring::{Ring, Vector};
use crate::threshold::{decode_spec, pack_bits, pack_byte, lemma_pack_byte_bound, seq_min, lemma_seq_min, lemma_decode_multiple};

verus! {

/// The values at round `j`, coefficient `c` of every party's list of shares.
pub open spec fn party_column(shares: Seq<Vec<[u128; 256]>>, j: int, c: int) -> Seq<int> {
    Seq::new(shares.len(), |p: int| shares[p]@[j][c] as int)
}

/// Every party holds `ell` rounds of shares, each value at most `bound`.
pub open spec fn rounds_well_formed(shares: Seq<Vec<[u128; 256]>>, ell: int, bound: int) -> bool {
    &&& forall|p: int| 0 <= p < shares.len() ==> (#[trigger] shares[p])@.len() == ell
    &&& forall|p: int, j: int, c: int|
        0 <= p < shares.len() && 0 <= j < ell && 0 <= c < 256 ==> #[trigger] shares[p]@[j][c] <= bound
}

/// Sum, round by round and coefficient by coefficient, the shares of all
/// parties modulo `m`, accumulating party after party.
fn sum_rounds_mod(shares: &[Vec<[u128; 256]>], m: u128) -> (out: Vec<[u128; 256]>)
    requires
        shares@.len() > 0,
        m > 0,
        rounds_well_formed(shares@, shares@[0]@.len() as int, u128::MAX - m),
    ensures
        out@.len() == shares@[0]@.len(),
        forall|j: int, c: int|
            0 <= j < out@.len() && 0 <= c < 256 ==> (#[trigger] out@[j][c]) == sum_mod(
                party_column(shares@, j, c),
                m as int,
            ),
{
    let ell = shares[0].len();
    let mut out: Vec<[u128; 256]> = Vec::with_capacity(ell);
    let mut j: usize = 0;
    while j < ell
        invariant
            j <= ell,
            out@.len() == j,
            forall|a: int, c: int| 0 <= a < j && 0 <= c < 256 ==> (#[trigger] out@[a][c]) == 0,
        decreases ell - j,
    {
        out.push([0u128; 256]);
        j = j + 1;
    }
    let mut p: usize = 0;
    while p < shares.len()
        invariant
            p <= shares@.len(),
            m > 0,
            ell == shares@[0]@.len(),
            rounds_well_formed(shares@, ell as int, u128::MAX - m),
            out@.len() == ell,
            forall|a: int, c: int|
                0 <= a < ell && 0 <= c < 256 ==> (#[trigger] out@[a][c]) == sum_mod(
                    party_column(shares@, a, c).subrange(0, p as int),
                    m as int,
                ),
        decreases shares@.len() - p,
    {
        let share_vec = &shares[p];
        assert(share_vec@.len() == ell);
        let mut j: usize = 0;
        while j < ell
            invariant
                j <= ell,
                p < shares@.len(),
                m > 0,
                *share_vec == shares@[p as int],
                share_vec@.len() == ell,
                rounds_well_formed(shares@, ell as int, u128::MAX - m),
                out@.len() == ell,
                forall|a: int, c: int|
                    0 <= a < j && 0 <= c < 256 ==> (#[trigger] out@[a][c]) == sum_mod(
                        party_column(shares@, a, c).subrange(0, p + 1),
                        m as int,
                    ),
                forall|a: int, c: int|
                    j <= a < ell && 0 <= c < 256 ==> (#[trigger] out@[a][c]) == sum_mod(
                        party_column(shares@, a, c).subrange(0, p as int),
                        m as int,
                    ),
            decreases ell - j,
        {
            let mut row = out[j];
            let src = &share_vec[j];
            let mut c: usize = 0;
            while c < 256
                invariant
                    c <= 256,
                    p < shares@.len(),
                    j < ell,
                    m > 0,
                    *src == shares@[p as int]@[j as int],
                    rounds_well_formed(shares@, ell as int, u128::MAX - m),
                    forall|i: int|
                        0 <= i < c ==> row[i] == sum_mod(
                            party_column(shares@, j as int, i).subrange(0, p + 1),
                            m as int,
                        ),
                    forall|i: int|
                        c <= i < 256 ==> row[i] == sum_mod(
                            party_column(shares@, j as int, i).subrange(0, p as int),
                            m as int,
                        ),
                decreases 256 - c,
            {
                proof {
                    let col = party_column(shares@, j as int, c as int);
                    assert(col.subrange(0, p + 1).drop_last() =~= col.subrange(0, p as int));
                    assert(col[p as int] == src[c as int]);
                    lemma_sum_mod_bound(col.subrange(0, p as int), m as int);
                    assert(shares@[p as int]@[j as int][c as int] <= u128::MAX - m);
                }
                row[c] = (row[c] + src[c]) % m;
                c = c + 1;
            }
            out.set(j, row);
            j = j + 1;
        }
        p = p + 1;
    }
    proof {
        assert forall|a: int, c: int| 0 <= a < ell && 0 <= c < 256 implies (#[trigger] out@[a][c]) == sum_mod(
            party_column(shares@, a, c),
            m as int,
        ) by {
            assert(party_column(shares@, a, c).subrange(0, shares@.len() as int) =~= party_column(shares@, a, c));
        }
    }
    out
}

/// Open the `ell` values `e~_j = e' + d_j` (mod `mu'`): sum, round by round,
/// the masked shares of all parties modulo `mu'`.
pub fn open_e_tilde(masked_shares: &[Vec<[u128; 256]>], thr: &SpdzParams) -> (out: Vec<[u128; 256]>)
    requires
        masked_shares@.len() > 0,
        thr.wf(),
        rounds_well_formed(masked_shares@, masked_shares@[0]@.len() as int, u128::MAX - thr.mu_prime),
    ensures
        out@.len() == masked_shares@[0]@.len(),
        forall|j: int, c: int|
            0 <= j < out@.len() && 0 <= c < 256 ==> (#[trigger] out@[j][c]) == sum_mod(
                party_column(masked_shares@, j, c),
                thr.mu_prime as int,
            ),
{
    proof {
        lemma_spdz_moduli(*thr);
    }
    sum_rounds_mod(masked_shares, thr.mu_prime)
}

/// Decode one coefficient of `mu' m` to a plaintext symbol in `[0, p)`:
/// centre it modulo `q'`, divide by `mu'` rounding half away from zero,
/// reduce modulo `p`.
pub fn decode_coeff(c: u128, q_prime: u128, mu_prime: u128, p: u128) -> (r: u128)
    requires
        0 < q_prime <= i128::MAX,
        0 < mu_prime <= i128::MAX,
        0 < p <= i128::MAX,
    ensures
        r == decode_spec(c as int, q_prime as int, mu_prime as int, p as int),
        r < p,
{
    let r = c % q_prime;
    let half = mu_prime / 2;
    if r >= q_prime / 2 {
        let a = (q_prime - r + half) / mu_prime;
        let m = a % p;
        proof {
            let ai = a as int;
            let pi = p as int;
            let qq = ai / pi;
            lemma_fundamental_div_mod(ai, pi);
            if m == 0 {
                assert(-ai == (-qq) * pi + 0) by (nonlinear_arith)
                    requires
                        ai == pi * qq + 0,
                ;
                lemma_fundamental_div_mod_converse(-ai, pi, -qq, 0);
            } else {
                assert(-ai == (-qq - 1) * pi + (pi - m)) by (nonlinear_arith)
                    requires
                        ai == pi * qq + m,
                ;
                lemma_fundamental_div_mod_converse(-ai, pi, -qq - 1, pi - m);
            }
        }
        if m == 0 {
            0
        } else {
            p - m
        }
    } else {
        ((r + half) / mu_prime) % p
    }
}

/// Candidate `j` of coefficient `c` of `mu' m`: the parties' shares summed
/// modulo `q'`.
pub open spec fn candidate(shares: Seq<Vec<[u128; 256]>>, j: int, c: int, thr: SpdzParams) -> int {
    sum_mod(party_column(shares, j, c), thr.q_prime as int)
}

/// How many of the first `rounds` candidates of coefficient `c` decode to 1.
pub open spec fn votes_for_one(shares: Seq<Vec<[u128; 256]>>, c: int, rounds: int, thr: SpdzParams) -> int
    decreases rounds,
{
    if rounds <= 0 {
        0
    } else {
        votes_for_one(shares, c, rounds - 1, thr) + decode_spec(
            candidate(shares, rounds - 1, c, thr),
            thr.q_prime as int,
            thr.mu_prime as int,
            thr.p as int,
        )
    }
}

/// The majority-decoded message bits: bit `c` is 1 exactly when more than
/// half of the `ell` candidates of coefficient `c` decode to 1.
pub open spec fn majority_bits(shares: Seq<Vec<[u128; 256]>>, ell: int, thr: SpdzParams) -> Seq<bool> {
    Seq::new(256, |c: int| 2 * votes_for_one(shares, c, ell, thr) > ell)
}

/// Step 6 at the receiver: sum the shares of `mu' m` modulo `q'` into `ell`
/// candidates, decode each to a bit, take for every coefficient the strict
/// majority of the `ell` bits (a tie gives 0), and pack the 256 bits into
/// 32 bytes.
pub fn receiver_reconstruct(mu_m_shares: &[Vec<[u128; 256]>], thr: &SpdzParams) -> (out: [u8; 32])
    requires
        mu_m_shares@.len() > 0,
        thr.wf(),
        thr.p == 2,
        mu_m_shares@[0]@.len() < 0x8000_0000,
        rounds_well_formed(mu_m_shares@, mu_m_shares@[0]@.len() as int, u128::MAX - thr.q_prime),
    ensures
        out@ == pack_bits(majority_bits(mu_m_shares@, mu_m_shares@[0]@.len() as int, *thr)),
{
    proof {
        lemma_spdz_moduli(*thr);
        lemma2_to64();
    }
    let ell = mu_m_shares[0].len();
    let q_prime = thr.q_prime;
    let mu_prime = thr.mu_prime;
    let p = thr.p;
    let candidates = sum_rounds_mod(mu_m_shares, q_prime);
    let ghost bits = majority_bits(mu_m_shares@, ell as int, *thr);
    let mut out = [0u8; 32];
    let mut c: usize = 0;
    while c < 256
        invariant
            c <= 256,
            ell == mu_m_shares@[0]@.len(),
            ell < 0x8000_0000,
            q_prime == thr.q_prime,
            mu_prime == thr.mu_prime,
            p == thr.p,
            p == 2,
            q_prime < 0x8000_0000_0000_0000_0000_0000_0000_0000,
            1 <= mu_prime <= q_prime,
            bits == majority_bits(mu_m_shares@, ell as int, *thr),
            candidates@.len() == ell,
            forall|j: int, i: int|
                0 <= j < ell && 0 <= i < 256 ==> (#[trigger] candidates@[j][i]) == candidate(
                    mu_m_shares@,
                    j,
                    i,
                    *thr,
                ),
            forall|b: int| 0 <= b < c / 8 ==> out[b] == pack_byte(bits, b, 8),
            c < 256 ==> out[(c / 8) as int] == pack_byte(bits, (c / 8) as int, (c % 8) as nat),
            forall|b: int| c / 8 < b < 32 ==> out[b] == 0,
        decreases 256 - c,
    {
        let mut votes: u32 = 0;
        let mut j: usize = 0;
        while j < ell
            invariant
                j <= ell,
                c < 256,
                ell < 0x8000_0000,
                candidates@.len() == ell,
                q_prime == thr.q_prime,
                mu_prime == thr.mu_prime,
                p == thr.p,
                p == 2,
                q_prime < 0x8000_0000_0000_0000_0000_0000_0000_0000,
                1 <= mu_prime <= q_prime,
                forall|a: int, i: int|
                    0 <= a < ell && 0 <= i < 256 ==> (#[trigger] candidates@[a][i]) == candidate(
                        mu_m_shares@,
                        a,
                        i,
                        *thr,
                    ),
                votes == votes_for_one(mu_m_shares@, c as int, j as int, *thr),
                votes <= j,
            decreases ell - j,
        {
            let bit = decode_coeff(candidates[j][c], q_prime, mu_prime, p);
            votes = votes + bit as u32;
            j = j + 1;
        }
        let one_wins = (votes as usize) * 2 > ell;
        let b = c / 8;
        let k = c % 8;
        proof {
            lemma2_to64();
            lemma_pack_byte_bound(bits, b as int, k as nat);
            lemma_pow2_strictly_increases(k as nat, 8);
            assert(bits[c as int] == one_wins);
            assert(8 * (b as int) + k == c);
        }
        if one_wins {
            let x = out[b];
            let kk = k as u8;
            proof {
                vstd::bits::lemma_u8_shl_is_mul(1, kk);
                lemma_pow2_pos(k as nat);
            }
            let bitval: u8 = 1u8 << kk;
            assert((x | bitval) == x + bitval) by (bit_vector)
                requires
                    x < bitval,
                    bitval == 1u8 << kk,
                    kk < 8,
            ;
            out[b] = x | bitval;
        }
        proof {
            lemma_pow2_unfold((k + 1) as nat);
            assert(out[b as int] == pack_byte(bits, b as int, (k + 1) as nat));
        }
        c = c + 1;
    }
    proof {
        assert(out@ =~= pack_bits(bits));
    }
    out
}

/// The ids of the parties, in order.
pub open spec fn party_ids<const K: usize>(parties: Seq<PartySpdz<K>>) -> Seq<u32> {
    Seq::new(parties.len(), |i: int| parties[i].id)
}

/// Whether party `i` adds the public `v` into its share: the party with the
/// least id.
pub open spec fn is_holder<const K: usize>(parties: Seq<PartySpdz<K>>, i: int) -> bool {
    parties[i].id == seq_min(party_ids(parties))
}

/// `<w'>^{q'}` of party `i` on the decompressed ciphertext `(u, v)`.
pub open spec fn committee_w_prime<const K: usize>(parties: Seq<PartySpdz<K>>, u: Vector<K>, v: Ring, i: int) -> Seq<
    u128,
> {
    w_prime_spdz(u, v, parties[i].sk_share, is_holder(parties, i), parties[i].thr)
}

/// Party `i`'s masked error share of round `j`, coefficient `k`.
pub open spec fn committee_masked<const K: usize>(
    parties: Seq<PartySpdz<K>>,
    u: Vector<K>,
    v: Ring,
    i: int,
    j: int,
    k: int,
) -> int {
    (e_prime_spdz(committee_w_prime(parties, u, v, i), parties[i].thr)[k] + parties[i].dbl.mu_prime@[j][k])
        % (parties[i].thr.mu_prime as int)
}

/// The opened `e~_j` at coefficient `k`: the masked shares of all parties
/// summed modulo `mu'`.
pub open spec fn committee_e_tilde<const K: usize>(
    parties: Seq<PartySpdz<K>>,
    u: Vector<K>,
    v: Ring,
    thr: SpdzParams,
    j: int,
    k: int,
) -> int {
    sum_mod(Seq::new(parties.len(), |i: int| committee_masked(parties, u, v, i, j, k)), thr.mu_prime as int)
}

/// Party `i`'s share of `mu' m` in round `j`, coefficient `k`, over `Z_{q'}`.
pub open spec fn committee_share<const K: usize>(
    parties: Seq<PartySpdz<K>>,
    u: Vector<K>,
    v: Ring,
    thr: SpdzParams,
    i: int,
    j: int,
    k: int,
) -> int {
    finalize_spdz(
        committee_w_prime(parties, u, v, i)[k] as int,
        committee_e_tilde(parties, u, v, thr, j, k),
        parties[i].dbl.q_prime@[j][k] as int,
        is_holder(parties, i),
        parties[i].thr.q_prime as int,
    )
}

/// What the committee needs to run steps 1 to 5: well-formed parameters and
/// shares, key shares in range, and the same number `ell` of double
/// sharings at every party.
pub open spec fn committee_ready<const K: usize>(parties: Seq<PartySpdz<K>>, thr: SpdzParams) -> bool {
    &&& parties.len() > 0
    &&& thr.wf()
    &&& forall|i: int|
        0 <= i < parties.len() ==> {
            &&& (#[trigger] parties[i]).thr.wf()
            &&& parties[i].key_in_range()
            &&& parties[i].dbl.wf()
            &&& parties[i].dbl.q_prime@.len() == parties[0].dbl.q_prime@.len()
        }
    &&& forall|i: int, j: int, k: int|
        0 <= i < parties.len() && 0 <= j < parties[i].dbl.mu_prime@.len() && 0 <= k < 256
            ==> #[trigger] parties[i].dbl.mu_prime@[j][k] <= u128::MAX - parties[i].thr.mu_prime
}

/// Steps 1 to 5 of the `n`-party committee on the decompressed ciphertext
/// `(u, v)`: every party decrypts partially (the party with the least id
/// holding `v`), masks its error share with each of its `ell` double
/// sharings, the masked shares are opened, and every party returns its
/// `ell` shares of `mu' m` over `Z_{q'}`.
pub fn threshold_decrypt<const K: usize>(parties: &[PartySpdz<K>], u: &Vector<K>, v: &Ring, thr: &SpdzParams) -> (out:
    Vec<Vec<[u128; 256]>>)
    requires
        committee_ready(parties@, *thr),
        forall|a: int| 0 <= a < parties@.len() ==> vector_below(*u, (#[trigger] parties@[a]).thr.q as int),
    ensures
        out@.len() == parties@.len(),
        forall|i: int| 0 <= i < parties@.len() ==> (#[trigger] out@[i])@.len() == parties@[0].dbl.q_prime@.len(),
        forall|i: int, j: int, k: int|
            0 <= i < parties@.len() && 0 <= j < parties@[0].dbl.q_prime@.len() && 0 <= k < 256
                ==> (#[trigger] out@[i]@[j][k]) == committee_share(parties@, *u, *v, *thr, i, j, k),
{
    let n = parties.len();
    let ell = parties[0].dbl.ell();
    let ghost ids = party_ids(parties@);
    let mut v_holder_id: u32 = parties[0].id;
    let mut i: usize = 1;
    proof {
        assert(ids.subrange(0, 1).drop_last().len() == 0);
    }
    while i < n
        invariant
            1 <= i <= n,
            n == parties@.len(),
            ids == party_ids(parties@),
            v_holder_id == seq_min(ids.subrange(0, i as int)),
        decreases n - i,
    {
        proof {
            assert(ids.subrange(0, i + 1).drop_last() =~= ids.subrange(0, i as int));
        }
        if parties[i].id < v_holder_id {
            v_holder_id = parties[i].id;
        }
        i = i + 1;
    }
    proof {
        assert(ids.subrange(0, n as int) =~= ids);
    }
    let mut step1: Vec<PartialDecOutput> = Vec::with_capacity(n);
    let mut masked_per_party: Vec<Vec<[u128; 256]>> = Vec::with_capacity(n);
    let mut i: usize = 0;
    while i < n
        invariant
            i <= n,
            n == parties@.len(),
            ell == parties@[0].dbl.q_prime@.len(),
            committee_ready(parties@, *thr),
            forall|a: int| 0 <= a < parties@.len() ==> vector_below(*u, (#[trigger] parties@[a]).thr.q as int),
            ids == party_ids(parties@),
            v_holder_id == seq_min(ids),
            step1@.len() == i,
            masked_per_party@.len() == i,
            forall|a: int| 0 <= a < i ==> (#[trigger] step1@[a]).w_prime@ == committee_w_prime(parties@, *u, *v, a),
            forall|a: int| 0 <= a < i ==> (#[trigger] masked_per_party@[a])@.len() == ell,
            forall|a: int, j: int, k: int|
                0 <= a < i && 0 <= j < ell && 0 <= k < 256 ==> (#[trigger] masked_per_party@[a]@[j][k])
                    == committee_masked(parties@, *u, *v, a, j, k),
        decreases n - i,
    {
        let p = &parties[i];
        let holder = p.id == v_holder_id;
        proof {
            assert(parties@[i as int].thr.wf());
            lemma_spdz_moduli(p.thr);
        }
        let o = p.partial_decrypt(u, v, holder);
        proof {
            assert(holder == is_holder(parties@, i as int));
            assert forall|j: int, k: int|
                0 <= j < p.dbl.mu_prime@.len() && 0 <= k < 256 implies o.e_prime[k] + (
                #[trigger] p.dbl.mu_prime@[j][k]) <= u128::MAX by {
                assert(parties@[i as int].dbl.mu_prime@[j][k] <= u128::MAX - parties@[i as int].thr.mu_prime);
                assert(o.e_prime@[k] < p.thr.mu_prime);
            }
        }
        let m = p.mask(&o.e_prime);
        step1.push(o);
        masked_per_party.push(m);
        i = i + 1;
    }
    proof {
        lemma_spdz_moduli(*thr);
        assert forall|a: int, j: int, k: int|
            0 <= a < n && 0 <= j < ell && 0 <= k < 256 implies #[trigger] masked_per_party@[a]@[j][k]
                <= u128::MAX - thr.mu_prime by {
            lemma_spdz_moduli(parties@[a].thr);
            lemma_mod_bound(
                e_prime_spdz(committee_w_prime(parties@, *u, *v, a), parties@[a].thr)[k] + parties@[a].dbl.mu_prime@[j][k],
                parties@[a].thr.mu_prime as int,
            );
        }
    }
    let e_tilde_opened = open_e_tilde(masked_per_party.as_slice(), thr);
    proof {
        assert forall|j: int, k: int| 0 <= j < ell && 0 <= k < 256 implies (#[trigger] e_tilde_opened@[j][k])
            == committee_e_tilde(parties@, *u, *v, *thr, j, k) by {
            assert(party_column(masked_per_party@, j, k) =~= Seq::new(
                parties@.len(),
                |a: int| committee_masked(parties@, *u, *v, a, j, k),
            ));
        }
    }
    let mut out: Vec<Vec<[u128; 256]>> = Vec::with_capacity(n);
    let mut i: usize = 0;
    while i < n
        invariant
            i <= n,
            n == parties@.len(),
            ell == parties@[0].dbl.q_prime@.len(),
            committee_ready(parties@, *thr),
            ids == party_ids(parties@),
            v_holder_id == seq_min(ids),
            step1@.len() == n,
            forall|a: int| 0 <= a < n ==> (#[trigger] step1@[a]).w_prime@ == committee_w_prime(parties@, *u, *v, a),
            e_tilde_opened@.len() == ell,
            forall|j: int, k: int|
                0 <= j < ell && 0 <= k < 256 ==> (#[trigger] e_tilde_opened@[j][k]) == committee_e_tilde(
                    parties@,
                    *u,
                    *v,
                    *thr,
                    j,
                    k,
                ),
            out@.len() == i,
            forall|a: int| 0 <= a < i ==> (#[trigger] out@[a])@.len() == ell,
            forall|a: int, j: int, k: int|
                0 <= a < i && 0 <= j < ell && 0 <= k < 256 ==> (#[trigger] out@[a]@[j][k])
                    == committee_share(parties@, *u, *v, *thr, a, j, k),
        decreases n - i,
    {
        let p = &parties[i];
        let holder = p.id == v_holder_id;
        proof {
            assert(parties@[i as int].thr.wf());
        }
        let f = p.finalize(&step1[i].w_prime, e_tilde_opened.as_slice(), holder);
        out.push(f);
        i = i + 1;
    }
    out
}

/// Two double shares with the same id and the same share lists.
pub open spec fn same_double_share(a: DoubleShare, b: DoubleShare) -> bool {
    a.party_id == b.party_id && a.q_prime@ == b.q_prime@ && a.mu_prime@ == b.mu_prime@
}

/// Copy of a list of coefficient arrays.
fn copy_rows(rows: &Vec<[u128; 256]>) -> (out: Vec<[u128; 256]>)
    ensures
        out@ == rows@,
{
    let mut out: Vec<[u128; 256]> = Vec::with_capacity(rows.len());
    let mut i: usize = 0;
    while i < rows.len()
        invariant
            i <= rows@.len(),
            out@ == rows@.subrange(0, i as int),
        decreases rows@.len() - i,
    {
        out.push(rows[i]);
        proof {
            assert(out@ =~= rows@.subrange(0, i + 1));
        }
        i = i + 1;
    }
    proof {
        assert(rows@.subrange(0, rows@.len() as int) =~= rows@);
    }
    out
}

/// The committee from the dealer's outputs: key share `i` paired with double
/// share `i`, for every party.
pub fn assemble_parties<const K: usize>(
    sk_shares: &[VectorShare128<K>],
    double_shares: &[DoubleShare],
    thr: SpdzParams,
) -> (out: Vec<PartySpdz<K>>)
    requires
        sk_shares@.len() == double_shares@.len(),
        forall|i: int| 0 <= i < double_shares@.len() ==> (#[trigger] sk_shares@[i]).x == double_shares@[i].party_id,
    ensures
        out@.len() == double_shares@.len(),
        forall|i: int|
            0 <= i < out@.len() ==> (#[trigger] out@[i]).id == sk_shares@[i].x && out@[i].sk_share
                == sk_shares@[i] && same_double_share(out@[i].dbl, double_shares@[i]) && out@[i].thr == thr,
{
    let t = double_shares.len();
    let mut out: Vec<PartySpdz<K>> = Vec::with_capacity(t);
    let mut i: usize = 0;
    while i < t
        invariant
            i <= t,
            t == double_shares@.len(),
            sk_shares@.len() == t,
            forall|a: int| 0 <= a < t ==> (#[trigger] sk_shares@[a]).x == double_shares@[a].party_id,
            out@.len() == i,
            forall|a: int|
                0 <= a < i ==> (#[trigger] out@[a]).id == sk_shares@[a].x && out@[a].sk_share
                    == sk_shares@[a] && same_double_share(out@[a].dbl, double_shares@[a]) && out@[a].thr == thr,
        decreases t - i,
    {
        let sk = sk_shares[i];
        let d = &double_shares[i];
        let dbl = DoubleShare { party_id: d.party_id, q_prime: copy_rows(&d.q_prime), mu_prime: copy_rows(&d.mu_prime) };
        out.push(PartySpdz::new(sk.x, sk, dbl, thr));
        i = i + 1;
    }
    out
}

/// The sum over the committee of the `<w'>^{q'}` shares of coefficient `k`,
/// over the integers.
pub open spec fn committee_w_sum<const K: usize>(parties: Seq<PartySpdz<K>>, u: Vector<K>, v: Ring, k: int) -> int {
    plain_sum(Seq::new(parties.len(), |i: int| committee_w_prime(parties, u, v, i)[k] as int))
}

/// The receiver's candidate for `mu' m` in round `j`, coefficient `k`: the
/// committee's shares summed modulo `q'`.
pub open spec fn committee_candidate<const K: usize>(
    parties: Seq<PartySpdz<K>>,
    u: Vector<K>,
    v: Ring,
    thr: SpdzParams,
    j: int,
    k: int,
) -> int {
    sum_mod(Seq::new(parties.len(), |i: int| committee_share(parties, u, v, thr, i, j, k)), thr.q_prime as int)
}

/// The parties' double shares of round `j` over `Z_{q'}`.
pub open spec fn q_shares_of<const K: usize>(parties: Seq<PartySpdz<K>>, j: int) -> Seq<[u128; 256]> {
    Seq::new(parties.len(), |i: int| parties[i].dbl.q_prime@[j])
}

/// The parties' double shares of round `j` over `Z_{mu'}`.
pub open spec fn mu_shares_of<const K: usize>(parties: Seq<PartySpdz<K>>, j: int) -> Seq<[u128; 256]> {
    Seq::new(parties.len(), |i: int| parties[i].dbl.mu_prime@[j])
}

/// The share values as integers.
pub open spec fn share_values(shares: Seq<AddShare>) -> Seq<int> {
    Seq::new(shares.len(), |i: int| shares[i].y as int)
}

/// Folding the share values modulo `m` is summing them modulo `m`.
pub proof fn lemma_share_sum_is_sum(shares: Seq<AddShare>, m: int)
    requires
        m > 0,
    ensures
        share_sum(shares, m) == plain_sum(share_values(shares)) % m,
    decreases shares.len(),
{
    if shares.len() > 0 {
        lemma_share_sum_is_sum(shares.drop_last(), m);
        assert(share_values(shares.drop_last()) =~= share_values(shares).drop_last());
        lemma_add_mod_noop(plain_sum(share_values(shares.drop_last())), shares.last().y as int, m);
        lemma_mod_twice(plain_sum(share_values(shares.drop_last())), m);
        lemma_add_mod_noop(share_sum(shares.drop_last(), m), shares.last().y as int, m);
        lemma_mod_twice(share_sum(shares.drop_last(), m), m);
    } else {
        lemma_small_mod(0, m as nat);
    }
}

/// A finalised share is congruent to `w - (e~ if holder) + d` modulo `q'`.
pub proof fn lemma_finalize_spdz_congruent(w: int, e_tilde: int, d: int, holder: bool, q: int)
    requires
        q > 0,
        w >= 0,
        e_tilde >= 0,
        d >= 0,
    ensures
        finalize_spdz(w, e_tilde, d, holder, q) == (w - (if holder {
            e_tilde
        } else {
            0
        }) + d) % q,
{
    let hv = if holder {
        e_tilde
    } else {
        0
    };
    let d_qp = d % q;
    let e_t = e_tilde % q;
    lemma_mod_bound(d, q);
    lemma_mod_bound(e_tilde, q);
    lemma_mod_bound(w, q);
    let e = if holder {
        if e_t >= d_qp {
            e_t - d_qp
        } else {
            q + e_t - d_qp
        }
    } else {
        (q - d_qp) % q
    };
    lemma_sub_mod(hv, d, q);
    lemma_small_mod(0, q as nat);
    if holder {
        if e_t >= d_qp {
            lemma_small_mod((e_t - d_qp) as nat, q as nat);
            lemma_mod_add_multiples_vanish(e_t - d_qp, q);
        } else {
            lemma_small_mod((q + e_t - d_qp) as nat, q as nat);
        }
    }
    assert(e == (hv - d) % q);
    lemma_mod_bound(hv - d, q);
    let w_p = w % q;
    if w_p >= e {
        lemma_small_mod((w_p - e) as nat, q as nat);
        lemma_mod_add_multiples_vanish(w_p - e, q);
    } else {
        lemma_small_mod((q + w_p - e) as nat, q as nat);
    }
    lemma_sub_mod(w, e, q);
    lemma_mod_twice(hv - d, q);
    lemma_sub_mod_noop(w, e, q);
    lemma_sub_mod_noop(w, hv - d, q);
}

/// With distinct ids, exactly one party holds `v`.
pub proof fn lemma_unique_holder<const K: usize>(parties: Seq<PartySpdz<K>>) -> (i0: int)
    requires
        parties.len() > 0,
        forall|a: int, b: int| 0 <= a < b < parties.len() ==> parties[a].id != parties[b].id,
    ensures
        0 <= i0 < parties.len(),
        forall|i: int| 0 <= i < parties.len() ==> (is_holder(parties, i) <==> i == i0),
{
    let ids = party_ids(parties);
    lemma_seq_min(ids);
    let i0 = choose|i: int| 0 <= i < ids.len() && ids[i] == seq_min(ids);
    assert forall|i: int| 0 <= i < parties.len() implies (is_holder(parties, i) <==> i == i0) by {
        assert(ids[i] == parties[i].id);
        if i != i0 && is_holder(parties, i) {
            if i < i0 {
                assert(parties[i].id != parties[i0].id);
            } else {
                assert(parties[i0].id != parties[i].id);
            }
        }
    }
    i0
}

/// Mask-then-open correctness: when the committee (distinct ids, one set of
/// parameters) holds an additive double sharing of `d` in round `j`, the
/// receiver's candidate for round `j` at coefficient `k` is
/// `mu' * floor((W + d_k) / mu') mod q'`, where `W` is the sum of the
/// parties' `<w'>^{q'}` shares, and it decodes to
/// `floor((W + d_k) / mu') mod p`.
pub proof fn lemma_committee_candidate_rounds<const K: usize>(
    parties: Seq<PartySpdz<K>>,
    u: Vector<K>,
    v: Ring,
    thr: SpdzParams,
    j: int,
    k: int,
    d: Seq<u128>,
)
    requires
        committee_ready(parties, thr),
        forall|i: int| 0 <= i < parties.len() ==> (#[trigger] parties[i]).thr == thr,
        forall|a: int, b: int| 0 <= a < b < parties.len() ==> parties[a].id != parties[b].id,
        0 <= j < parties[0].dbl.q_prime@.len(),
        0 <= k < 256,
        is_double_round(q_shares_of(parties, j), mu_shares_of(parties, j), d, parties.len() as int, thr),
    ensures
        committee_candidate(parties, u, v, thr, j, k) == (thr.mu_prime * ((committee_w_sum(parties, u, v, k)
            + d[k]) / thr.mu_prime as int)) % (thr.q_prime as int),
        decode_spec(
            committee_candidate(parties, u, v, thr, j, k),
            thr.q_prime as int,
            thr.mu_prime as int,
            thr.p as int,
        ) == ((committee_w_sum(parties, u, v, k) + d[k]) / thr.mu_prime as int) % (thr.p as int),
{
    let n = parties.len() as int;
    let mq = thr.q_prime as int;
    let mm = thr.mu_prime as int;
    lemma_spdz_moduli(thr);
    let ws = Seq::new(parties.len(), |i: int| committee_w_prime(parties, u, v, i)[k] as int);
    let w = plain_sum(ws);
    assert forall|i: int| 0 <= i < n implies #[trigger] ws[i] >= 0 by {}
    lemma_plain_sum_nonneg(ws);
    // The opened value: e~ = (W + d_k) mod mu'.
    let masked = Seq::new(parties.len(), |i: int| committee_masked(parties, u, v, i, j, k));
    let dmu = share_values(share_column(mu_shares_of(parties, j), k));
    let wd = Seq::new(parties.len(), |i: int| ws[i] + dmu[i]);
    assert forall|i: int| 0 <= i < n implies #[trigger] masked[i] % mm == wd[i] % mm by {
        assert(parties[i].thr == thr);
        let wi = committee_w_prime(parties, u, v, i)[k];
        assert(e_prime_spdz(committee_w_prime(parties, u, v, i), thr)[k] == wi % thr.mu_prime);
        assert(dmu[i] == parties[i].dbl.mu_prime@[j][k]);
        lemma_add_mod_noop(wi as int, dmu[i], mm);
        lemma_mod_twice(wi as int, mm);
        lemma_add_mod_noop(wi as int % mm, dmu[i], mm);
        lemma_mod_twice(wi as int % mm + dmu[i], mm);
    }
    lemma_plain_sum_congruent(masked, wd, mm);
    lemma_plain_sum_add(ws, dmu, wd);
    lemma_sum_mod_is_sum(masked, mm);
    lemma_share_sum_is_sum(share_column(mu_shares_of(parties, j), k), mm);
    lemma_small_mod(d[k] as nat, mm as nat);
    lemma_add_mod_noop(w, plain_sum(dmu), mm);
    lemma_add_mod_noop(w, d[k] as int, mm);
    let et = committee_e_tilde(parties, u, v, thr, j, k);
    assert(committee_e_tilde(parties, u, v, thr, j, k) == sum_mod(masked, mm)) by {
        assert(masked =~= Seq::new(parties.len(), |i: int| committee_masked(parties, u, v, i, j, k)));
    }
    lemma_mod_twice(w + plain_sum(dmu), mm);
    lemma_mod_twice(w + d[k], mm);
    assert(et == (w + d[k]) % mm);
    lemma_mod_bound(w + d[k], mm);
    // The candidate: (W - e~ + d_k) mod q'.
    let i0 = lemma_unique_holder(parties);
    let shares = Seq::new(parties.len(), |i: int| committee_share(parties, u, v, thr, i, j, k));
    let hs = Seq::new(parties.len(), |i: int| if i == i0 { et } else { 0 });
    let dq = share_values(share_column(q_shares_of(parties, j), k));
    let wh = Seq::new(parties.len(), |i: int| ws[i] - hs[i]);
    let expr = Seq::new(parties.len(), |i: int| wh[i] + dq[i]);
    assert forall|i: int| 0 <= i < n implies #[trigger] shares[i] % mq == expr[i] % mq by {
        assert(parties[i].thr == thr);
        assert(dq[i] == parties[i].dbl.q_prime@[j][k]);
        lemma_finalize_spdz_congruent(ws[i], et, dq[i], is_holder(parties, i), mq);
        lemma_mod_twice(ws[i] - (if is_holder(parties, i) { et } else { 0 }) + dq[i], mq);
    }
    lemma_plain_sum_congruent(shares, expr, mq);
    lemma_plain_sum_single(hs, i0, et);
    lemma_plain_sum_sub(ws, hs, wh);
    lemma_plain_sum_add(wh, dq, expr);
    lemma_sum_mod_is_sum(shares, mq);
    lemma_share_sum_is_sum(share_column(q_shares_of(parties, j), k), mq);
    assert(d[k] < mq);
    lemma_small_mod(d[k] as nat, mq as nat);
    lemma_add_mod_noop(w - et, plain_sum(dq), mq);
    lemma_add_mod_noop(w - et, d[k] as int, mq);
    assert(committee_candidate(parties, u, v, thr, j, k) == sum_mod(shares, mq)) by {
        assert(shares =~= Seq::new(parties.len(), |i: int| committee_share(parties, u, v, thr, i, j, k)));
    }
    lemma_mod_twice(w - et + plain_sum(dq), mq);
    lemma_mod_twice(w - et + d[k], mq);
    assert(committee_candidate(parties, u, v, thr, j, k) == (w - et + d[k]) % mq);
    let t = (w + d[k]) / mm;
    lemma_fundamental_div_mod(w + d[k], mm);
    assert(w - et + d[k] == mm * t);
    // Decoding: q' = p * mu'.
    let p = thr.p as int;
    assert(mq == p * mm) by {
        lemma_fundamental_div_mod(mq, p);
        assert(mq == p * (mq / p) + mq % p);
    }
    lemma_div_pos_is_pos(w + d[k], mm);
    lemma_decode_multiple(t, mm, p);
}

/// The integer coefficients of the rings of a vector.
pub open spec fn secret_ints<const K: usize>(s: Vector<K>) -> Seq<Seq<int>> {
    Seq::new(K as nat, |r: int| Seq::new(256, |b: int| s.data[r].data[b] as int))
}

/// Linear decryption under the shared key: when the committee (distinct
/// ids, one set of parameters) holds a lifted additive sharing of the
/// secret `s`, the sum of its `<w'>^{q'}` shares of coefficient `k` is
/// `v_k - (u . s)_k` modulo `q`, with `u . s` the negacyclic inner product
/// over the integers.
pub proof fn lemma_committee_w_sum_decrypts<const K: usize>(
    parties: Seq<PartySpdz<K>>,
    u: Vector<K>,
    v: Ring,
    thr: SpdzParams,
    s: Vector<K>,
    k: int,
)
    requires
        committee_ready(parties, thr),
        forall|i: int| 0 <= i < parties.len() ==> (#[trigger] parties[i]).thr == thr,
        forall|a: int, b: int| 0 <= a < b < parties.len() ==> parties[a].id != parties[b].id,
        0 <= k < 256,
        is_vector_sharing(
            Seq::new(parties.len(), |i: int| parties[i].sk_share),
            s,
            parties.len() as int,
            thr.m_share as int,
        ),
    ensures
        committee_w_sum(parties, u, v, k) % (thr.q as int) == (v.data[k] - nega_inner_ints(
            u,
            secret_ints(s),
            k,
            K as int,
        )) % (thr.q as int),
{
    let n = parties.len() as int;
    let q = thr.q as int;
    lemma_spdz_moduli(thr);
    let shares = Seq::new(parties.len(), |i: int| parties[i].sk_share);
    let ws = Seq::new(parties.len(), |i: int| committee_w_prime(parties, u, v, i)[k] as int);
    let inners = Seq::new(parties.len(), |i: int| nega_inner(u, parties[i].sk_share, k, K as int));
    let i0 = lemma_unique_holder(parties);
    let hv = Seq::new(parties.len(), |i: int| if i == i0 { v.data[k] as int } else { 0 });
    let target = Seq::new(parties.len(), |i: int| hv[i] - inners[i]);
    assert forall|i: int| 0 <= i < n implies #[trigger] ws[i] % q == target[i] % q by {
        assert(parties[i].thr == thr);
        let inner = inners[i];
        let im = inner % q;
        let vt: int = if is_holder(parties, i) { v.data[k] as int } else { 0 };
        assert(vt == hv[i]);
        let w = w_share_spdz(v.data[k] as int, im, is_holder(parties, i), q);
        lemma_mod_bound(inner, q);
        if vt < im {
            lemma_mod_add_multiples_vanish(vt - im, q);
        }
        assert(w % q == (vt - im) % q);
        lemma_sub_mod_noop(vt, inner, q);
        lemma_mod_twice(inner, q);
        lemma_sub_mod_noop(vt, im, q);
        assert((vt - im) % q == (vt - inner) % q);
        lemma_mod_twice(w, q);
        assert(ws[i] == w % q);
    }
    lemma_plain_sum_congruent(ws, target, q);
    lemma_plain_sum_sub(hv, inners, target);
    lemma_plain_sum_single(hv, i0, v.data[k] as int);
    // Sum of the parties' inner products: the inner product with the summed keys.
    let keys = Seq::new(parties.len(), |i: int| key_ints(parties[i].sk_share));
    lemma_nega_inner_linear(u, keys, k, K as int);
    let summed = Seq::new(K as nat, |r: int| row_sums(Seq::new(keys.len(), |i: int| keys[i][r])));
    assert(inners =~= Seq::new(keys.len(), |i: int| nega_inner_ints(u, keys[i], k, K as int)));
    // The summed keys agree with the secret modulo q.
    lemma_pow2_adds(thr.k as nat, thr.s as nat);
    assert forall|r: int, b: int| 0 <= r < K && 0 <= b < 256 implies #[trigger] summed[r][b] % q
        == secret_ints(s)[r][b] % q by {
        let col = vector_column(shares, r, b);
        assert(crate::additive_2k::is_additive_sharing(col, s.data[r].data[b] as int, n, thr.m_share as int));
        lemma_share_sum_is_sum(col, thr.m_share as int);
        let vals = share_values(col);
        let rows_r = Seq::new(keys.len(), |i: int| keys[i][r]);
        assert(Seq::new(rows_r.len(), |i: int| rows_r[i][b]) =~= Seq::new(keys.len(), |i: int| keys[i][r][b]));
        assert(summed[r][b] == plain_sum(Seq::new(keys.len(), |i: int| keys[i][r][b])));
        assert(vals =~= Seq::new(keys.len(), |i: int| keys[i][r][b]));
        lemma_pow2_pos(thr.s as nat);
        lemma_mod_mod(plain_sum(vals), q, pow2(thr.s as nat) as int);
    }
    lemma_nega_inner_congruent(u, summed, secret_ints(s), k, K as int, q);
    let sec = nega_inner_ints(u, secret_ints(s), k, K as int);
    lemma_sub_mod_noop(v.data[k] as int, plain_sum(inners), q);
    lemma_sub_mod_noop(v.data[k] as int, sec, q);
    assert(committee_w_sum(parties, u, v, k) == plain_sum(ws));
}


/// Summing values that are each `(e_i + d_i) mod m` gives the sum of the
/// `e_i` plus the sum of the `d_i`, modulo `m`.
proof fn lemma_sum_mod_of_masked(ms: Seq<int>, es: Seq<int>, ds: Seq<int>, m: int)
    requires
        m > 0,
        ms.len() == es.len(),
        ms.len() == ds.len(),
        forall|i: int| 0 <= i < ms.len() ==> #[trigger] ms[i] == (es[i] + ds[i]) % m,
    ensures
        sum_mod(ms, m) == (sum_mod(es, m) + sum_mod(ds, m)) % m,
    decreases ms.len(),
{
    if ms.len() == 0 {
        lemma_small_mod(0, m as nat);
    } else {
        let n = ms.len() - 1;
        lemma_sum_mod_of_masked(ms.drop_last(), es.drop_last(), ds.drop_last(), m);
        let a = sum_mod(es.drop_last(), m);
        let b = sum_mod(ds.drop_last(), m);
        let e = es.last();
        let d = ds.last();
        assert(ms.last() == (e + d) % m);
        assert(sum_mod(ms, m) == ((a + b) % m + (e + d) % m) % m);
        assert(sum_mod(es, m) == (a + e) % m);
        assert(sum_mod(ds, m) == (b + d) % m);
        lemma_add_mod_noop(a + b, e + d, m);
        lemma_add_mod_noop(a + e, b + d, m);
        assert(a + b + (e + d) == (a + e) + (b + d));
    }
}

/// Opening the masked shares reveals the masked error: if every party's
/// masked share in round `j` is its error share plus its share of the mask
/// `d_j`, modulo `mu'` (what `PartySpdz::mask` returns), then the opened
/// value (what `open_e_tilde` returns) is the sum of the error shares plus
/// the sum of the mask shares, modulo `mu'`.
pub proof fn lemma_open_reveals_masked_sum<const K: usize>(
    parties: Seq<PartySpdz<K>>,
    e_prime: Seq<[u128; 256]>,
    masked: Seq<Vec<[u128; 256]>>,
    thr: SpdzParams,
    j: int,
    c: int,
)
    requires
        thr.wf(),
        masked.len() == parties.len(),
        e_prime.len() == parties.len(),
        0 <= c < 256,
        forall|i: int|
            0 <= i < parties.len() ==> (#[trigger] masked[i])@[j][c] == (e_prime[i][c]
                + parties[i].dbl.mu_prime@[j][c]) % (thr.mu_prime as int),
    ensures
        sum_mod(party_column(masked, j, c), thr.mu_prime as int) == (sum_mod(
            Seq::new(parties.len(), |i: int| e_prime[i][c] as int),
            thr.mu_prime as int,
        ) + sum_mod(
            Seq::new(parties.len(), |i: int| parties[i].dbl.mu_prime@[j][c] as int),
            thr.mu_prime as int,
        )) % (thr.mu_prime as int),
{
    lemma_spdz_moduli(thr);
    let es = Seq::new(parties.len(), |i: int| e_prime[i][c] as int);
    let ds = Seq::new(parties.len(), |i: int| parties[i].dbl.mu_prime@[j][c] as int);
    let ms = party_column(masked, j, c);
    assert forall|i: int| 0 <= i < ms.len() implies #[trigger] ms[i] == (es[i] + ds[i]) % (thr.mu_prime as int) by {
        assert(masked[i]@[j][c] == (e_prime[i][c] + parties[i].dbl.mu_prime@[j][c]) % (thr.mu_prime as int));
    }
    lemma_sum_mod_of_masked(ms, es, ds, thr.mu_prime as int);
}

} // verus!
