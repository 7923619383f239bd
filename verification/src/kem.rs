//! Threshold decapsulation of the KEM: the committee decrypts the
//! ciphertext, the receiver reconstructs the message, and the
//! Fujisaki-Okamoto check re-encrypts it, giving the derived key on a match
//! and the implicit-rejection key `J(z || c)` otherwise.
use vstd::prelude::*;
use vstd::arithmetic::power2::*;
use vstd::arithmetic::div_mod::*;
use vstd::bits::*;
use crate::arith::sum_mod;
use crate::additive_2k::SpdzParams;
use crate::crypt::{fo_key_and_coins, fo_select_key, sha3_512, shake256_prefix};
use crate::dealer_spdz::lemma_spdz_moduli;
use crate::kpke::{Cyphertext, KpkeEncryptionKey, encrypt_2k, eta_ok, cipher_u_2k, cipher_v_2k};
use crate::negacyclic::{decompress_vector_2k, decompress_ring_2k, decompress_2k_spec};
use crate::params::K_BITS;
use crate::party_spdz::{PartySpdz, finalize_spdz, vector_below};
use crate::ring::{Ring, RingRepresentation, Vector, Compressed, ring_coeffs};
use crate::sample::bit_of;
use crate::threshold::{decode_spec, pack_bits};
use crate::threshold_decrypt::{
    committee_ready,
    committee_share,
    threshold_decrypt,
    receiver_reconstruct,
    party_column,
    votes_for_one,
    majority_bits,
    candidate,
};

verus! {

/// The message polynomial of 32 bytes: coefficient `c` is bit `c` of the
/// bytes (bit `c mod 8` of byte `c / 8`).
pub open spec fn message_coeffs(m: Seq<u8>) -> Seq<u32> {
    Seq::new(256, |c: int| bit_of(m, c) as u32)
}

/// The one-bit compressed message polynomial of the 32 bytes `m`.
pub fn message_ring(m: &[u8; 32]) -> (r: Compressed<1, Ring>)
    ensures
        r.0.data@ == message_coeffs(m@),
        r.0.t == RingRepresentation::Degree255,
{
    let mut ring = Ring::zeroes_degree255();
    let mut c: usize = 0;
    while c < 256
        invariant
            c <= 256,
            ring.t == RingRepresentation::Degree255,
            forall|i: int| 0 <= i < c ==> ring.data[i] == bit_of(m@, i) as u32,
        decreases 256 - c,
    {
        let byte = m[c / 8];
        let sh = (c % 8) as u8;
        let b = (byte >> sh) & 1;
        proof {
            lemma_u8_shr_is_div(byte, sh);
            let y = byte >> sh;
            assert(y & 1 == y % 2) by (bit_vector);
        }
        ring.data[c] = b as u32;
        c = c + 1;
    }
    proof {
        assert(ring.data@ =~= message_coeffs(m@));
    }
    Compressed(ring)
}

/// `c` is the encryption under `ek` of the message polynomial `mc` with the
/// coins `rand`: every coefficient as `encrypt_2k` computes it, and both
/// parts in coefficient form.
pub open spec fn encrypts_to<const K: usize, const D_U: usize, const D_V: usize>(
    c: Cyphertext<K, D_U, D_V>,
    ek: KpkeEncryptionKey<K>,
    mc: Seq<u32>,
    rand: Seq<u8>,
    eta1: int,
    eta2: int,
) -> bool {
    &&& forall|i: int, x: int|
        0 <= i < K && 0 <= x < 256 ==> (#[trigger] c.0.0.data[i].data[x]) == crate::negacyclic::compress_2k_spec(
            cipher_u_2k(ek.1@, rand, eta1, eta2, K as nat, i)[x],
            D_U as u32,
            K_BITS,
        )
    &&& forall|i: int| 0 <= i < K ==> (#[trigger] c.0.0.data[i]).t == RingRepresentation::Degree255
    &&& forall|x: int|
        0 <= x < 256 ==> (#[trigger] c.1.0.data[x]) == crate::negacyclic::compress_2k_spec(
            cipher_v_2k(ring_coeffs(ek.0.data@), mc, rand, eta1, eta2, K as nat)[x],
            D_V as u32,
            K_BITS,
        )
    &&& c.1.0.t == RingRepresentation::Degree255
}

/// `a` and `b` hold the same coefficients and representations.
pub open spec fn same_ciphertext<const K: usize, const D_U: usize, const D_V: usize>(
    a: Cyphertext<K, D_U, D_V>,
    b: Cyphertext<K, D_U, D_V>,
) -> bool {
    &&& forall|i: int, x: int| 0 <= i < K && 0 <= x < 256 ==> #[trigger] a.0.0.data[i].data[x] == b.0.0.data[i].data[x]
    &&& forall|i: int| 0 <= i < K ==> #[trigger] a.0.0.data[i].t == b.0.0.data[i].t
    &&& forall|x: int| 0 <= x < 256 ==> #[trigger] a.1.0.data[x] == b.1.0.data[x]
    &&& a.1.0.t == b.1.0.t
}

/// Whether two ciphertexts hold the same coefficients and representations.
fn ciphertext_eq<const K: usize, const D_U: usize, const D_V: usize>(
    a: &Cyphertext<K, D_U, D_V>,
    b: &Cyphertext<K, D_U, D_V>,
) -> (r: bool)
    ensures
        r == same_ciphertext(*a, *b),
{
    let mut i: usize = 0;
    while i < K
        invariant
            i <= K,
            forall|k: int, x: int| 0 <= k < i && 0 <= x < 256 ==> #[trigger] a.0.0.data[k].data[x] == b.0.0.data[k].data[x],
            forall|k: int| 0 <= k < i ==> #[trigger] a.0.0.data[k].t == b.0.0.data[k].t,
        decreases K - i,
    {
        if a.0.0.data[i].t != b.0.0.data[i].t {
            return false;
        }
        let mut x: usize = 0;
        while x < 256
            invariant
                i < K,
                x <= 256,
                forall|y: int| 0 <= y < x ==> #[trigger] a.0.0.data[i as int].data[y] == b.0.0.data[i as int].data[y],
            decreases 256 - x,
        {
            if a.0.0.data[i].data[x] != b.0.0.data[i].data[x] {
                return false;
            }
            x = x + 1;
        }
        i = i + 1;
    }
    if a.1.0.t != b.1.0.t {
        return false;
    }
    let mut x: usize = 0;
    while x < 256
        invariant
            x <= 256,
            forall|y: int| 0 <= y < x ==> #[trigger] a.1.0.data[y] == b.1.0.data[y],
        decreases 256 - x,
    {
        if a.1.0.data[x] != b.1.0.data[x] {
            return false;
        }
        x = x + 1;
    }
    true
}

/// The shares of candidate `j` of coefficient `c` held by the parties.
pub open spec fn committee_column<const K: usize>(
    parties: Seq<PartySpdz<K>>,
    u: Vector<K>,
    v: Ring,
    thr: SpdzParams,
    j: int,
    c: int,
) -> Seq<int> {
    Seq::new(parties.len(), |i: int| committee_share(parties, u, v, thr, i, j, c))
}

/// How many of the first `rounds` candidates of coefficient `c` decode to 1.
pub open spec fn committee_votes<const K: usize>(
    parties: Seq<PartySpdz<K>>,
    u: Vector<K>,
    v: Ring,
    thr: SpdzParams,
    c: int,
    rounds: int,
) -> int
    decreases rounds,
{
    if rounds <= 0 {
        0
    } else {
        committee_votes(parties, u, v, thr, c, rounds - 1) + decode_spec(
            sum_mod(committee_column(parties, u, v, thr, rounds - 1, c), thr.q_prime as int),
            thr.q_prime as int,
            thr.mu_prime as int,
            thr.p as int,
        )
    }
}

/// The 32 message bytes that the committee and the receiver recover from
/// `(u, v)` with `ell` parallel double sharings: the strict majority of the
/// `ell` decoded candidates of every coefficient, packed.
pub open spec fn committee_message<const K: usize>(
    parties: Seq<PartySpdz<K>>,
    u: Vector<K>,
    v: Ring,
    thr: SpdzParams,
    ell: int,
) -> Seq<u8> {
    pack_bits(Seq::new(256, |c: int| 2 * committee_votes(parties, u, v, thr, c, ell) > ell))
}

proof fn lemma_votes_match<const K: usize>(
    shares: Seq<Vec<[u128; 256]>>,
    parties: Seq<PartySpdz<K>>,
    u: Vector<K>,
    v: Ring,
    thr: SpdzParams,
    c: int,
    rounds: int,
    ell: int,
)
    requires
        shares.len() == parties.len(),
        0 <= rounds <= ell,
        0 <= c < 256,
        forall|i: int, j: int, k: int|
            0 <= i < parties.len() && 0 <= j < ell && 0 <= k < 256 ==> (#[trigger] shares[i]@[j][k]) as int
                == committee_share(parties, u, v, thr, i, j, k),
    ensures
        votes_for_one(shares, c, rounds, thr) == committee_votes(parties, u, v, thr, c, rounds),
    decreases rounds,
{
    if rounds > 0 {
        lemma_votes_match(shares, parties, u, v, thr, c, rounds - 1, ell);
        assert(party_column(shares, rounds - 1, c) =~= committee_column(parties, u, v, thr, rounds - 1, c));
        assert(candidate(shares, rounds - 1, c, thr) == sum_mod(
            committee_column(parties, u, v, thr, rounds - 1, c),
            thr.q_prime as int,
        ));
    }
}

proof fn lemma_finalize_below(w: int, e_tilde: int, d: int, holder: bool, q_prime: int)
    requires
        q_prime > 0,
    ensures
        0 <= finalize_spdz(w, e_tilde, d, holder, q_prime) < q_prime,
{
    lemma_mod_bound(d, q_prime);
    lemma_mod_bound(e_tilde, q_prime);
    lemma_mod_bound(w, q_prime);
    lemma_mod_bound(q_prime - d % q_prime, q_prime);
}

/// `u` and `v` are the decompressions of `c` from `D_U` and `D_V` bits to
/// `K_BITS` bits.
pub open spec fn decompresses_to<const K: usize, const D_U: usize, const D_V: usize>(
    c: Cyphertext<K, D_U, D_V>,
    u: Vector<K>,
    v: Ring,
) -> bool {
    &&& forall|i: int, x: int|
        0 <= i < K && 0 <= x < 256 ==> #[trigger] u.data[i].data[x] == decompress_2k_spec(
            c.0.0.data[i].data[x],
            D_U as u32,
            K_BITS,
        )
    &&& forall|i: int| 0 <= i < K ==> (#[trigger] u.data[i]).t == RingRepresentation::Degree255
    &&& forall|x: int| 0 <= x < 256 ==> v.data[x] == decompress_2k_spec(c.1.0.data[x], D_V as u32, K_BITS)
    &&& v.t == RingRepresentation::Degree255
}

/// Threshold decapsulation of `c` by the committee `parties` (dishonest
/// majority): decompress `c`, run the committee (`threshold_decrypt`) and
/// the receiver (`receiver_reconstruct`) to recover the message `m`, derive
/// the key and the coins `G(m || H(ek))`, re-encrypt `m` with those coins,
/// and return the derived key when the re-encryption is `c` and
/// `J(z || c_bytes)` otherwise (`c_bytes` is the encoding of `c` that is
/// hashed on rejection).
pub fn threshold_decaps<const K: usize, const D_U: usize, const D_V: usize>(
    parties: &[PartySpdz<K>],
    thr: &SpdzParams,
    ek: KpkeEncryptionKey<K>,
    ek_hash: &[u8; 32],
    z: &[u8; 32],
    c: Cyphertext<K, D_U, D_V>,
    c_bytes: &[u8],
    eta_1: usize,
    eta_2: usize,
) -> (key: [u8; 32])
    requires
        committee_ready(parties@, *thr),
        thr.p == 2,
        parties@[0].dbl.q_prime@.len() < 0x8000_0000,
        forall|i: int| 0 <= i < parties@.len() ==> (#[trigger] parties@[i]).thr.k >= K_BITS,
        forall|i: int, x: int| 0 <= i < K && 0 <= x < 256 ==> #[trigger] c.0.0.data[i].data[x] < pow2(D_U as nat),
        2 * K + 1 <= 255,
        256 * K * 256 * K * 16 <= isize::MAX,
        1 <= D_U <= 30,
        1 <= D_V <= 30,
        eta_ok(eta_1),
        eta_ok(eta_2),
    ensures
        exists|u: Vector<K>, v: Ring|
            #![trigger decompresses_to(c, u, v)]
            decompresses_to(c, u, v) && ({
                let m = committee_message(parties@, u, v, *thr, parties@[0].dbl.q_prime@.len() as int);
                let g = sha3_512(m + ek_hash@);
                key@ == (if encrypts_to(
                    c,
                    ek,
                    message_coeffs(m),
                    g.subrange(32, 64),
                    eta_1 as int,
                    eta_2 as int,
                ) {
                    g.subrange(0, 32)
                } else {
                    shake256_prefix(z@ + c_bytes@, 32)
                })
            }),
{
    let u = decompress_vector_2k(&c.0.0, D_U as u32, K_BITS);
    let v = decompress_ring_2k(&c.1.0, D_V as u32, K_BITS);
    proof {
        lemma2_to64();
        assert forall|a: int| 0 <= a < parties@.len() implies vector_below(u, (#[trigger] parties@[a]).thr.q as int) by {
            let pa = parties@[a];
            assert(pa.thr.wf());
            assert(pa.thr.q == pow2(pa.thr.k as nat));
            if pa.thr.k > K_BITS {
                lemma_pow2_strictly_increases(K_BITS as nat, pa.thr.k as nat);
            }
            assert forall|k: int, i: int| 0 <= k < K && 0 <= i < 256 implies #[trigger] u.data[k].data[i] < pa.thr.q by {
                let y = c.0.0.data[k].data[i];
                let s = (K_BITS - D_U) as nat;
                lemma_pow2_adds(D_U as nat, s);
                assert((D_U as nat + s) as nat == K_BITS as nat);
                lemma_pow2_pos(s);
                assert(y * pow2(s) < pow2(K_BITS as nat)) by (nonlinear_arith)
                    requires
                        y < pow2(D_U as nat),
                        pow2(K_BITS as nat) == pow2(D_U as nat) * pow2(s),
                        pow2(s) >= 1,
                ;
                assert(pow2(30) == 0x4000_0000) by {
                    lemma2_to64();
                }
                lemma_small_mod((y * pow2(s)) as nat, 0x1_0000_0000);
            }
        }
    }
    let shares = threshold_decrypt(parties, &u, &v, thr);
    let ghost ell = parties@[0].dbl.q_prime@.len() as int;
    proof {
        lemma_spdz_moduli(*thr);
        assert forall|p: int, j: int, k: int|
            0 <= p < shares@.len() && 0 <= j < ell && 0 <= k < 256 implies #[trigger] shares@[p]@[j][k] <= u128::MAX
            - thr.q_prime by {
            let pp = parties@[p];
            lemma_spdz_moduli(pp.thr);
            lemma_finalize_below(
                crate::threshold_decrypt::committee_w_prime(parties@, u, v, p)[k] as int,
                crate::threshold_decrypt::committee_e_tilde(parties@, u, v, *thr, j, k),
                pp.dbl.q_prime@[j][k] as int,
                crate::threshold_decrypt::is_holder(parties@, p),
                pp.thr.q_prime as int,
            );
            assert(shares@[p]@[j][k] == committee_share(parties@, u, v, *thr, p, j, k));
        }
        assert(shares@[0]@.len() == ell);
    }
    let m = receiver_reconstruct(shares.as_slice(), thr);
    proof {
        assert forall|c2: int| 0 <= c2 < 256 implies #[trigger] votes_for_one(shares@, c2, ell, *thr) == committee_votes(
            parties@,
            u,
            v,
            *thr,
            c2,
            ell,
        ) by {
            assert forall|i: int, j: int, k: int|
                0 <= i < parties@.len() && 0 <= j < ell && 0 <= k < 256 implies (#[trigger] shares@[i]@[j][k]) as int
                == committee_share(parties@, u, v, *thr, i, j, k) by {}
            lemma_votes_match(shares@, parties@, u, v, *thr, c2, ell, ell);
        }
        assert(majority_bits(shares@, ell, *thr) =~= Seq::new(
            256,
            |c2: int| 2 * committee_votes(parties@, u, v, *thr, c2, ell) > ell,
        ));
        assert(m@ == committee_message(parties@, u, v, *thr, ell));
    }
    let (key_candidate, coins) = fo_key_and_coins(&m, ek_hash);
    let mr = message_ring(&m);
    let c2 = encrypt_2k::<K, D_U, D_V>(ek, mr, coins, eta_1, eta_2);
    let ct_match = ciphertext_eq(&c2, &c);
    let key = fo_select_key(key_candidate, ct_match, z, c_bytes);
    proof {
        let g = sha3_512(m@ + ek_hash@);
        assert(key_candidate@ =~= g.subrange(0, 32));
        assert(coins@ =~= g.subrange(32, 64));
        if ct_match {
            assert(mr.0.data@ == message_coeffs(m@));
            assert forall|i: int, x: int| 0 <= i < K && 0 <= x < 256 implies (#[trigger] c.0.0.data[i].data[x])
                == crate::negacyclic::compress_2k_spec(
                cipher_u_2k(ek.1@, coins@, eta_1 as int, eta_2 as int, K as nat, i)[x],
                D_U as u32,
                K_BITS,
            ) by {
                assert(c2.0.0.data[i].data[x] == c.0.0.data[i].data[x]);
            }
            assert forall|i: int| 0 <= i < K implies (#[trigger] c.0.0.data[i]).t == RingRepresentation::Degree255 by {
                assert(c2.0.0.data[i].t == c.0.0.data[i].t);
            }
            assert forall|x: int| 0 <= x < 256 implies (#[trigger] c.1.0.data[x]) == crate::negacyclic::compress_2k_spec(
                cipher_v_2k(ring_coeffs(ek.0.data@), message_coeffs(m@), coins@, eta_1 as int, eta_2 as int, K as nat)[x],
                D_V as u32,
                K_BITS,
            ) by {
                assert(c2.1.0.data[x] == c.1.0.data[x]);
            }
            assert(encrypts_to(c, ek, message_coeffs(m@), coins@, eta_1 as int, eta_2 as int));
        } else {
            if encrypts_to(c, ek, message_coeffs(m@), coins@, eta_1 as int, eta_2 as int) {
                assert(same_ciphertext(c2, c));
            }
        }
        assert(decompresses_to(c, u, v));
    }
    key
}

} // verus!
