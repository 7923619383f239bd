//! A member of the dishonest-majority (SPDZ2k) committee.
//!
//! Each party holds its lifted additive share of the coefficient-form secret
//! key over `Z_{2^(k+s)}` and its additive double share of the masking
//! polynomials. There is no Lagrange step: the inner product `<u, s_i>` is
//! the negacyclic polynomial product over the integers, reduced modulo
//! `q = 2^k` at the end. The modulus switch is the identity since `q' = q`.
use vstd::prelude::*;
use vstd::arithmetic::div_mod::*;
use vstd::arithmetic::mul::*;
use crate::additive_2k::SpdzParams;
use crate::additive_ring::VectorShare128;
use crate::dealer_spdz::{DoubleShare, lemma_spdz_moduli};
use crate::ring::{Ring, Vector};
use crate::negacyclic::{nega_term, nega_partial, ints128, lemma_nega_partial_bound};
use crate::arith::{plain_sum, lemma_plain_sum_add, lemma_plain_sum_scale, lemma_plain_sum_zero};

verus! {

/// Coefficient `c` of `sum_{i < j} u_i * s_i` over the integers, for
/// integer coefficient sequences `s_i`.
pub open spec fn nega_inner_ints<const K: usize>(u: Vector<K>, s: Seq<Seq<int>>, c: int, j: int) -> int
    decreases j,
{
    if j <= 0 {
        0
    } else {
        nega_inner_ints(u, s, c, j - 1) + nega_partial(u.data[j - 1].data@, s[j - 1], c, 256)
    }
}

/// The coefficients of the rings of a key share, as integers.
pub open spec fn key_ints<const K: usize>(sk: VectorShare128<K>) -> Seq<Seq<int>> {
    Seq::new(K as nat, |j: int| ints128(sk.rings[j].data@))
}

/// Coefficient `c` of `sum_{i < j} u_i * s_i` over the integers, for the
/// rings of a key share.
pub open spec fn nega_inner<const K: usize>(u: Vector<K>, sk: VectorShare128<K>, c: int, j: int) -> int {
    nega_inner_ints(u, key_ints(sk), c, j)
}

/// One coefficient of `<w>^q`: `v - inner` for the holder of `v`, `-inner`
/// for the others, modulo `q`, from `inner` already reduced into `[0, q)`.
pub open spec fn w_share_spdz(v: int, inner_mod: int, holder: bool, q: int) -> int {
    let vt = if holder {
        v
    } else {
        0
    };
    if vt >= inner_mod {
        vt - inner_mod
    } else {
        q + vt - inner_mod
    }
}

/// `round(to * x / from) mod to` with saturating products, or `x mod to`
/// when `from == to`.
pub open spec fn mod_switch_spdz(x: int, from: int, to: int) -> int {
    if from == to {
        x % to
    } else {
        let prod = if to * x > u128::MAX {
            u128::MAX as int
        } else {
            to * x
        };
        let num = if prod + from / 2 > u128::MAX {
            u128::MAX as int
        } else {
            prod + from / 2
        };
        (num / from) % to
    }
}

/// Modulus switch of one coefficient from `Z_from` to `Z_to`; the identity
/// reduction when the two moduli agree.
fn mod_switch_coeff(x: u128, from: u128, to: u128) -> (r: u128)
    requires
        from > 0,
        to > 0,
    ensures
        r == mod_switch_spdz(x as int, from as int, to as int),
{
    if from == to {
        return x % to;
    }
    let prod: u128 = match to.checked_mul(x) {
        Some(v) => v,
        None => u128::MAX,
    };
    let num = prod.saturating_add(from / 2);
    (num / from) % to
}

/// `<w'>^{q'}` of a party: coefficient `c` of `<w>^q` from the negacyclic
/// inner product of `u` with the key share, switched to `Z_{q'}`.
pub open spec fn w_prime_spdz<const K: usize>(
    u: Vector<K>,
    v: Ring,
    sk: VectorShare128<K>,
    holder: bool,
    thr: SpdzParams,
) -> Seq<u128> {
    Seq::new(
        256,
        |c: int|
            mod_switch_spdz(
                w_share_spdz(v.data[c] as int, nega_inner(u, sk, c, K as int) % (thr.q as int), holder, thr.q as int),
                thr.q as int,
                thr.q_prime as int,
            ) as u128,
    )
}

/// `<e'>^{mu'}`: every coefficient of `w'` reduced modulo `mu'`.
pub open spec fn e_prime_spdz(w_prime: Seq<u128>, thr: SpdzParams) -> Seq<u128> {
    Seq::new(256, |c: int| (w_prime[c] % thr.mu_prime) as u128)
}

/// One coefficient of a party's share of `mu' m` in round `j`:
/// `<e'>^{q'} = (e~ if holder) - <d>^{q'}`, then `<w'>^{q'} - <e'>^{q'}`,
/// all modulo `q'`.
pub open spec fn finalize_spdz(w: int, e_tilde: int, d: int, holder: bool, q_prime: int) -> int {
    let d_qp = d % q_prime;
    let e = if holder {
        let e_t = e_tilde % q_prime;
        if e_t >= d_qp {
            e_t - d_qp
        } else {
            q_prime + e_t - d_qp
        }
    } else {
        (q_prime - d_qp) % q_prime
    };
    let w_p = w % q_prime;
    if w_p >= e {
        w_p - e
    } else {
        q_prime + w_p - e
    }
}

/// Output of partial decryption: `<w'>^{q'}` and `<e'>^{mu'}`.
#[derive(Clone, Copy, Debug)]
pub struct PartialDecOutput {
    pub w_prime: [u128; 256],
    pub e_prime: [u128; 256],
}

/// A party of the dishonest-majority committee.
#[derive(Clone, Debug)]
pub struct PartySpdz<const K: usize> {
    pub id: u32,
    pub sk_share: VectorShare128<K>,
    pub dbl: DoubleShare,
    pub thr: SpdzParams,
}

/// Every coefficient of `u` is below `q`.
pub open spec fn vector_below<const K: usize>(u: Vector<K>, q: int) -> bool {
    forall|k: int, i: int| 0 <= k < K && 0 <= i < 256 ==> #[trigger] u.data[k].data[i] < q
}

proof fn lemma_nega_inner_bound<const K: usize>(u: Vector<K>, sk: VectorShare128<K>, c: int, j: int, qq: int, bound: int)
    requires
        vector_below(u, qq),
        0 <= c < 256,
        0 <= j <= K,
        bound >= 0,
        forall|k: int, i: int| 0 <= k < K && 0 <= i < 256 ==> #[trigger] sk.rings[k].data[i] <= bound,
    ensures
        -(j * 256 * qq * bound) <= nega_inner(u, sk, c, j) <= j * 256 * qq * bound,
    decreases j,
{
    if j > 0 {
        lemma_nega_inner_bound(u, sk, c, j - 1, qq, bound);
        assert forall|i: int| 0 <= i < 256 implies #[trigger] u.data[j - 1].data@[i] < qq by {
            assert(u.data[j - 1].data[i] < qq);
        }
        lemma_nega_partial_bound(u.data[j - 1].data@, ints128(sk.rings[j - 1].data@), c, 256, qq, bound);
        assert(j * 256 * qq * bound == (j - 1) * 256 * qq * bound + 256
            * qq * bound) by (nonlinear_arith);
    } else {
        assert(j * 256 * qq * bound == 0) by (nonlinear_arith)
            requires
                j == 0,
        ;
    }
}

impl<const K: usize> PartySpdz<K> {
    /// A party whose id is the id of its key share and of its double share.
    pub fn new(id: u32, sk_share: VectorShare128<K>, dbl: DoubleShare, thr: SpdzParams) -> (p: Self)
        requires
            id == sk_share.x,
            id == dbl.party_id,
        ensures
            p.id == id,
            p.sk_share == sk_share,
            p.dbl == dbl,
            p.thr == thr,
    {
        PartySpdz { id, sk_share, dbl, thr }
    }

    /// The key share is below the lifted modulus and the integer inner
    /// products with a ciphertext below `q` fit in `i128`.
    pub open spec fn key_in_range(&self) -> bool {
        &&& forall|k: int, i: int|
            0 <= k < K && 0 <= i < 256 ==> #[trigger] self.sk_share.rings[k].data[i] < self.thr.m_share
        &&& (K as int) * 256 * (self.thr.q as int) * (self.thr.m_share as int) <= i128::MAX
    }

    /// Linear decryption, modulus switch and error isolation on the
    /// decompressed ciphertext `(u, v)`: `<w>^q := (v if holder) - <u, s_i>`
    /// modulo `q` with the negacyclic product over the integers,
    /// `<w'>^{q'} := <w>^q` switched to `Z_{q'}`, `<e'>^{mu'} := <w'>^{q'} mod mu'`.
    pub fn partial_decrypt(&self, u: &Vector<K>, v: &Ring, is_v_holder: bool) -> (out: PartialDecOutput)
        requires
            self.thr.wf(),
            self.key_in_range(),
            vector_below(*u, self.thr.q as int),
        ensures
            out.w_prime@ == w_prime_spdz(*u, *v, self.sk_share, is_v_holder, self.thr),
            out.e_prime@ == e_prime_spdz(out.w_prime@, self.thr),
    {
        proof {
            lemma_spdz_moduli(self.thr);
        }
        let q = self.thr.q;
        let q_prime = self.thr.q_prime;
        let mu_prime = self.thr.mu_prime;
        let ghost bound: int = self.thr.m_share as int;
        let ghost qq: int = self.thr.q as int;
        let mut inner = [0i128; 256];
        let mut j: usize = 0;
        while j < K
            invariant
                j <= K,
                self.key_in_range(),
                bound == self.thr.m_share,
                qq == self.thr.q,
                qq >= 1,
                vector_below(*u, qq),
                1 <= bound <= 0x8000_0000_0000_0000_0000_0000_0000_0000,
                forall|c: int| 0 <= c < 256 ==> inner[c] == nega_inner(*u, self.sk_share, c, j as int),
            decreases K - j,
        {
            let s_j: [u128; 256] = self.sk_share.rings[j].data;
            let u_j: [u32; 256] = u.data[j].data;
            let mut c: usize = 0;
            while c < 256
                invariant
                    c <= 256,
                    j < K,
                    self.key_in_range(),
                    bound == self.thr.m_share,
                    qq == self.thr.q,
                    qq >= 1,
                    vector_below(*u, qq),
                    1 <= bound <= 0x8000_0000_0000_0000_0000_0000_0000_0000,
                    s_j == self.sk_share.rings[j as int].data,
                    u_j == u.data[j as int].data,
                    forall|i: int| 0 <= i < c ==> inner[i] == nega_inner(*u, self.sk_share, i, j + 1),
                    forall|i: int| c <= i < 256 ==> inner[i] == nega_inner(*u, self.sk_share, i, j as int),
                decreases 256 - c,
            {
                let ghost base = nega_inner(*u, self.sk_share, c as int, j as int);
                proof {
                    lemma_nega_inner_bound(*u, self.sk_share, c as int, j as int, qq, bound - 1);
                    assert(j * 256 * qq * (bound - 1) <= (K as int) * 256 * qq * bound)
                        by (nonlinear_arith)
                        requires
                            0 <= j < K,
                            bound >= 1,
                            qq >= 1,
                    ;
                }
                let mut acc: i128 = inner[c];
                let mut a: usize = 0;
                while a <= c
                    invariant
                        a <= c + 1,
                        c < 256,
                        j < K,
                        self.key_in_range(),
                        bound == self.thr.m_share,
                        qq == self.thr.q,
                        qq >= 1,
                        vector_below(*u, qq),
                        1 <= bound <= 0x8000_0000_0000_0000_0000_0000_0000_0000,
                        s_j == self.sk_share.rings[j as int].data,
                        u_j == u.data[j as int].data,
                        -(j * 256 * qq * (bound - 1)) <= base <= j * 256 * qq * (bound - 1),
                        acc == base + nega_partial(u_j@, ints128(s_j@), c as int, a as int),
                    decreases c + 1 - a,
                {
                    let b = c - a;
                    proof {
                        lemma_nega_partial_bound(u_j@, ints128(s_j@), c as int, a as int + 1, qq, bound - 1);
                        assert(((j * 256 + a + 1) * qq * (bound - 1)) <= (K as int) * 256
                            * qq * bound) by (nonlinear_arith)
                            requires
                                0 <= j < K,
                                0 <= a < 256,
                                bound >= 1,
                                qq >= 1,
                        ;
                        assert(j * 256 * qq * (bound - 1) + (a + 1) * qq * (bound - 1)
                            == (j * 256 + a + 1) * qq * (bound - 1)) by (nonlinear_arith);
                        assert(u_j[a as int] * s_j[b as int] <= qq * bound) by (nonlinear_arith)
                            requires
                                u_j[a as int] < qq,
                                s_j[b as int] < bound,
                        ;
                        assert(qq * bound <= (K as int) * 256 * qq * bound) by (nonlinear_arith)
                            requires
                                j < K,
                                bound >= 1,
                                qq >= 1,
                        ;
                        assert(s_j[b as int] < bound);
                    }
                    acc = acc + (u_j[a] as i128) * (s_j[b] as i128);
                    a = a + 1;
                }
                let mut a: usize = c + 1;
                while a < 256
                    invariant
                        c + 1 <= a <= 256,
                        c < 256,
                        j < K,
                        self.key_in_range(),
                        bound == self.thr.m_share,
                        qq == self.thr.q,
                        qq >= 1,
                        vector_below(*u, qq),
                        1 <= bound <= 0x8000_0000_0000_0000_0000_0000_0000_0000,
                        s_j == self.sk_share.rings[j as int].data,
                        u_j == u.data[j as int].data,
                        -(j * 256 * qq * (bound - 1)) <= base <= j * 256 * qq * (bound - 1),
                        acc == base + nega_partial(u_j@, ints128(s_j@), c as int, a as int),
                    decreases 256 - a,
                {
                    let b = c + 256 - a;
                    proof {
                        lemma_nega_partial_bound(u_j@, ints128(s_j@), c as int, a as int + 1, qq, bound - 1);
                        assert(((j * 256 + a + 1) * qq * (bound - 1)) <= (K as int) * 256
                            * qq * bound) by (nonlinear_arith)
                            requires
                                0 <= j < K,
                                0 <= a < 256,
                                bound >= 1,
                                qq >= 1,
                        ;
                        assert(j * 256 * qq * (bound - 1) + (a + 1) * qq * (bound - 1)
                            == (j * 256 + a + 1) * qq * (bound - 1)) by (nonlinear_arith);
                        assert(u_j[a as int] * s_j[b as int] <= qq * bound) by (nonlinear_arith)
                            requires
                                u_j[a as int] < qq,
                                s_j[b as int] < bound,
                        ;
                        assert(qq * bound <= (K as int) * 256 * qq * bound) by (nonlinear_arith)
                            requires
                                j < K,
                                bound >= 1,
                                qq >= 1,
                        ;
                        assert(s_j[b as int] < bound);
                    }
                    acc = acc - (u_j[a] as i128) * (s_j[b] as i128);
                    a = a + 1;
                }
                inner[c] = acc;
                c = c + 1;
            }
            j = j + 1;
        }
        let mut w_prime = [0u128; 256];
        let mut e_prime = [0u128; 256];
        let mut c: usize = 0;
        while c < 256
            invariant
                c <= 256,
                self.thr.wf(),
                q == self.thr.q,
                q_prime == self.thr.q_prime,
                mu_prime == self.thr.mu_prime,
                1 <= mu_prime <= q_prime,
                q_prime == q,
                q_prime < 0x8000_0000_0000_0000_0000_0000_0000_0000,
                forall|i: int| 0 <= i < 256 ==> inner[i] == nega_inner(*u, self.sk_share, i, K as int),
                forall|i: int|
                    0 <= i < c ==> w_prime[i] == w_prime_spdz(*u, *v, self.sk_share, is_v_holder, self.thr)[i],
                forall|i: int| 0 <= i < c ==> e_prime[i] == w_prime[i] % mu_prime,
            decreases 256 - c,
        {
            let qi = q as i128;
            assert(qi == q);
            let inner_mod: u128 = match inner[c].checked_rem_euclid(qi) {
                Some(r) => r as u128,
                None => 0,
            };
            proof {
                lemma_mod_bound(inner[c as int] as int, q as int);
                assert(inner_mod == nega_inner(*u, self.sk_share, c as int, K as int) % (q as int));
            }
            let v_term: u128 = if is_v_holder {
                v.data[c] as u128
            } else {
                0
            };
            let w = if v_term >= inner_mod {
                v_term - inner_mod
            } else {
                q + v_term - inner_mod
            };
            w_prime[c] = mod_switch_coeff(w, q, q_prime);
            e_prime[c] = w_prime[c] % mu_prime;
            c = c + 1;
        }
        proof {
            assert(w_prime@ =~= w_prime_spdz(*u, *v, self.sk_share, is_v_holder, self.thr));
            assert(e_prime@ =~= e_prime_spdz(w_prime@, self.thr));
        }
        PartialDecOutput { w_prime, e_prime }
    }

    /// Masking, once per parallel double sharing `j`:
    /// `<e~_j>^{mu'} := <e'>^{mu'} + <d_j>^{mu'}` modulo `mu'`.
    pub fn mask(&self, e_prime: &[u128; 256]) -> (out: Vec<[u128; 256]>)
        requires
            self.thr.wf(),
            self.dbl.wf(),
            forall|j: int, c: int|
                0 <= j < self.dbl.mu_prime@.len() && 0 <= c < 256 ==> e_prime[c] + (
                #[trigger] self.dbl.mu_prime@[j][c]) <= u128::MAX,
        ensures
            out@.len() == self.dbl.mu_prime@.len(),
            forall|j: int, c: int|
                0 <= j < out@.len() && 0 <= c < 256 ==> (#[trigger] out@[j][c]) == (e_prime[c]
                    + self.dbl.mu_prime@[j][c]) % (self.thr.mu_prime as int),
    {
        proof {
            lemma_spdz_moduli(self.thr);
        }
        let mu_prime = self.thr.mu_prime;
        let ell = self.dbl.ell();
        let mut out: Vec<[u128; 256]> = Vec::with_capacity(ell);
        let mut j: usize = 0;
        while j < ell
            invariant
                j <= ell,
                ell == self.dbl.mu_prime@.len(),
                mu_prime == self.thr.mu_prime,
                mu_prime > 0,
                forall|a: int, c: int|
                    0 <= a < self.dbl.mu_prime@.len() && 0 <= c < 256 ==> e_prime[c] + (
                    #[trigger] self.dbl.mu_prime@[a][c]) <= u128::MAX,
                out@.len() == j,
                forall|a: int, c: int|
                    0 <= a < j && 0 <= c < 256 ==> (#[trigger] out@[a][c]) == (e_prime[c]
                        + self.dbl.mu_prime@[a][c]) % (mu_prime as int),
            decreases ell - j,
        {
            let d = &self.dbl.mu_prime[j];
            let mut masked = [0u128; 256];
            let mut c: usize = 0;
            while c < 256
                invariant
                    c <= 256,
                    mu_prime > 0,
                    *d == self.dbl.mu_prime@[j as int],
                    forall|i: int| 0 <= i < 256 ==> e_prime[i] + d[i] <= u128::MAX,
                    forall|i: int| 0 <= i < c ==> masked[i] == (e_prime[i] + d[i]) % (mu_prime as int),
                decreases 256 - c,
            {
                masked[c] = (e_prime[c] + d[c]) % mu_prime;
                c = c + 1;
            }
            out.push(masked);
            j = j + 1;
        }
        out
    }

    /// Finalisation, once per parallel double sharing `j`, from the opened
    /// `e~_j`: `<e'>^{q'}_j := (e~_j if holder) - <d_j>^{q'}` and
    /// `<mu' m>^{q'}_j := <w'>^{q'} - <e'>^{q'}_j`, all modulo `q'`.
    pub fn finalize(&self, w_prime: &[u128; 256], e_tilde_opened: &[[u128; 256]], is_v_holder: bool) -> (out:
        Vec<[u128; 256]>)
        requires
            self.thr.wf(),
            self.dbl.wf(),
            e_tilde_opened@.len() == self.dbl.q_prime@.len(),
        ensures
            out@.len() == self.dbl.q_prime@.len(),
            forall|j: int, c: int|
                0 <= j < out@.len() && 0 <= c < 256 ==> (#[trigger] out@[j][c]) == finalize_spdz(
                    w_prime[c] as int,
                    e_tilde_opened@[j][c] as int,
                    self.dbl.q_prime@[j][c] as int,
                    is_v_holder,
                    self.thr.q_prime as int,
                ),
    {
        proof {
            lemma_spdz_moduli(self.thr);
        }
        let q_prime = self.thr.q_prime;
        let ell = self.dbl.ell();
        let mut out: Vec<[u128; 256]> = Vec::with_capacity(ell);
        let mut j: usize = 0;
        while j < ell
            invariant
                j <= ell,
                ell == self.dbl.q_prime@.len(),
                e_tilde_opened@.len() == ell,
                q_prime == self.thr.q_prime,
                1 <= q_prime < 0x8000_0000_0000_0000_0000_0000_0000_0000,
                out@.len() == j,
                forall|a: int, c: int|
                    0 <= a < j && 0 <= c < 256 ==> (#[trigger] out@[a][c]) == finalize_spdz(
                        w_prime[c] as int,
                        e_tilde_opened@[a][c] as int,
                        self.dbl.q_prime@[a][c] as int,
                        is_v_holder,
                        q_prime as int,
                    ),
            decreases ell - j,
        {
            let e_tilde_j = &e_tilde_opened[j];
            let d_qprime_j = &self.dbl.q_prime[j];
            let mut mu_m = [0u128; 256];
            let mut c: usize = 0;
            while c < 256
                invariant
                    c <= 256,
                    1 <= q_prime < 0x8000_0000_0000_0000_0000_0000_0000_0000,
                    *e_tilde_j == e_tilde_opened@[j as int],
                    *d_qprime_j == self.dbl.q_prime@[j as int],
                    forall|i: int|
                        0 <= i < c ==> mu_m[i] == finalize_spdz(
                            w_prime[i] as int,
                            e_tilde_j[i] as int,
                            d_qprime_j[i] as int,
                            is_v_holder,
                            q_prime as int,
                        ),
                decreases 256 - c,
            {
                let d_qp = d_qprime_j[c] % q_prime;
                let e_prime_qprime = if is_v_holder {
                    let e_t = e_tilde_j[c] % q_prime;
                    if e_t >= d_qp {
                        e_t - d_qp
                    } else {
                        q_prime + e_t - d_qp
                    }
                } else {
                    (q_prime - d_qp) % q_prime
                };
                let w_p = w_prime[c] % q_prime;
                proof {
                    lemma_mod_bound(e_tilde_j[c as int] as int, q_prime as int);
                }
                mu_m[c] = if w_p >= e_prime_qprime {
                    w_p - e_prime_qprime
                } else {
                    q_prime + w_p - e_prime_qprime
                };
                c = c + 1;
            }
            out.push(mu_m);
            j = j + 1;
        }
        out
    }
}

/// Coefficient `b` of the term-by-term sum of the rows.
pub open spec fn row_sum(rows: Seq<Seq<int>>, b: int) -> int {
    plain_sum(Seq::new(rows.len(), |i: int| rows[i][b]))
}

/// The term-by-term sum of 256-coefficient rows.
pub open spec fn row_sums(rows: Seq<Seq<int>>) -> Seq<int> {
    Seq::new(256, |b: int| row_sum(rows, b))
}

/// The negacyclic product is linear in its second factor: summing the
/// partial products with every row is the partial product with the sum of
/// the rows.
pub proof fn lemma_nega_partial_linear(u: Seq<u32>, rows: Seq<Seq<int>>, c: int, a: int)
    requires
        0 <= c < 256,
        0 <= a <= 256,
        forall|i: int| 0 <= i < rows.len() ==> (#[trigger] rows[i]).len() == 256,
    ensures
        plain_sum(Seq::new(rows.len(), |i: int| nega_partial(u, rows[i], c, a))) == nega_partial(
            u,
            row_sums(rows),
            c,
            a,
        ),
    decreases a,
{
    let n = rows.len();
    let lhs = Seq::new(n, |i: int| nega_partial(u, rows[i], c, a));
    if a <= 0 {
        lemma_plain_sum_zero(lhs);
    } else {
        lemma_nega_partial_linear(u, rows, c, a - 1);
        let prev = Seq::new(n, |i: int| nega_partial(u, rows[i], c, a - 1));
        let terms = Seq::new(n, |i: int| nega_term(u, rows[i], c, a - 1));
        lemma_plain_sum_add(prev, terms, lhs);
        let b = if a - 1 <= c {
            c - (a - 1)
        } else {
            c + 256 - (a - 1)
        };
        let col = Seq::new(n, |i: int| rows[i][b]);
        let x: int = if a - 1 <= c {
            u[a - 1] as int
        } else {
            -(u[a - 1] as int)
        };
        assert forall|i: int| 0 <= i < n implies #[trigger] terms[i] == x * col[i] by {
            if a - 1 > c {
                assert(-(u[a - 1] * rows[i][b]) == (-(u[a - 1] as int)) * rows[i][b]) by (nonlinear_arith);
            }
        }
        lemma_plain_sum_scale(col, x, terms);
        assert(row_sums(rows)[b] == plain_sum(col));
        if a - 1 > c {
            assert(-(u[a - 1] * plain_sum(col)) == (-(u[a - 1] as int)) * plain_sum(col)) by (nonlinear_arith);
        }
    }
}

/// Summing over parties the integer inner products with their key rows is
/// the inner product with the summed rows.
pub proof fn lemma_nega_inner_linear<const K: usize>(u: Vector<K>, keys: Seq<Seq<Seq<int>>>, c: int, j: int)
    requires
        0 <= c < 256,
        0 <= j <= K,
        forall|i: int| 0 <= i < keys.len() ==> (#[trigger] keys[i]).len() == K,
        forall|i: int, r: int| 0 <= i < keys.len() && 0 <= r < K ==> (#[trigger] keys[i][r]).len() == 256,
    ensures
        plain_sum(Seq::new(keys.len(), |i: int| nega_inner_ints(u, keys[i], c, j))) == nega_inner_ints(
            u,
            Seq::new(K as nat, |r: int| row_sums(Seq::new(keys.len(), |i: int| keys[i][r]))),
            c,
            j,
        ),
    decreases j,
{
    let n = keys.len();
    let lhs = Seq::new(n, |i: int| nega_inner_ints(u, keys[i], c, j));
    if j <= 0 {
        lemma_plain_sum_zero(lhs);
    } else {
        lemma_nega_inner_linear(u, keys, c, j - 1);
        let prev = Seq::new(n, |i: int| nega_inner_ints(u, keys[i], c, j - 1));
        let rows = Seq::new(n, |i: int| keys[i][j - 1]);
        let parts = Seq::new(n, |i: int| nega_partial(u.data[j - 1].data@, rows[i], c, 256));
        lemma_plain_sum_add(prev, parts, lhs);
        lemma_nega_partial_linear(u.data[j - 1].data@, rows, c, 256);
        assert(parts =~= Seq::new(n, |i: int| nega_partial(u.data[j - 1].data@, rows[i], c, 256)));
    }
}

/// The negacyclic product respects congruence of its second factor.
pub proof fn lemma_nega_partial_congruent(u: Seq<u32>, s1: Seq<int>, s2: Seq<int>, c: int, a: int, m: int)
    requires
        m > 0,
        0 <= c < 256,
        0 <= a <= 256,
        forall|b: int| 0 <= b < 256 ==> #[trigger] s1[b] % m == s2[b] % m,
    ensures
        nega_partial(u, s1, c, a) % m == nega_partial(u, s2, c, a) % m,
    decreases a,
{
    if a > 0 {
        lemma_nega_partial_congruent(u, s1, s2, c, a - 1, m);
        let b = if a - 1 <= c {
            c - (a - 1)
        } else {
            c + 256 - (a - 1)
        };
        let x = u[a - 1] as int;
        lemma_mul_mod_noop_right(x, s1[b], m);
        lemma_mul_mod_noop_right(x, s2[b], m);
        assert(s1[b] % m == s2[b] % m);
        assert((x * s1[b]) % m == (x * s2[b]) % m);
        if a - 1 > c {
            lemma_sub_mod_noop(0, x * s1[b], m);
            lemma_sub_mod_noop(0, x * s2[b], m);
        }
        let t1 = nega_term(u, s1, c, a - 1);
        let t2 = nega_term(u, s2, c, a - 1);
        assert(t1 % m == t2 % m);
        lemma_add_mod_noop(nega_partial(u, s1, c, a - 1), t1, m);
        lemma_add_mod_noop(nega_partial(u, s2, c, a - 1), t2, m);
    }
}

/// The integer inner product respects congruence of the key rows.
pub proof fn lemma_nega_inner_congruent<const K: usize>(
    u: Vector<K>,
    s1: Seq<Seq<int>>,
    s2: Seq<Seq<int>>,
    c: int,
    j: int,
    m: int,
)
    requires
        m > 0,
        0 <= c < 256,
        0 <= j <= K,
        forall|r: int, b: int| 0 <= r < K && 0 <= b < 256 ==> #[trigger] s1[r][b] % m == s2[r][b] % m,
    ensures
        nega_inner_ints(u, s1, c, j) % m == nega_inner_ints(u, s2, c, j) % m,
    decreases j,
{
    if j > 0 {
        lemma_nega_inner_congruent(u, s1, s2, c, j - 1, m);
        lemma_nega_partial_congruent(u.data[j - 1].data@, s1[j - 1], s2[j - 1], c, 256, m);
        lemma_add_mod_noop(
            nega_inner_ints(u, s1, c, j - 1),
            nega_partial(u.data[j - 1].data@, s1[j - 1], c, 256),
            m,
        );
        lemma_add_mod_noop(
            nega_inner_ints(u, s2, c, j - 1),
            nega_partial(u.data[j - 1].data@, s2[j - 1], c, 256),
            m,
        );
    }
}

} // verus!
