//! Negacyclic NTT contexts over `Z_q[X]/(X^d + 1)` for an NTT-friendly prime
//! `q = k 2d + 1` near `2^50`, with every coefficient held in Montgomery form
//! (`x R mod q`, `R = 2^64`).
use vstd::prelude::*;
use vstd::arithmetic::power::*;
use vstd::arithmetic::power2::*;
use vstd::arithmetic::div_mod::*;
use vstd::arithmetic::mul::*;
use vstd::bits::lemma_u64_shl_is_mul;
use vstd::slice::slice_to_vec;
use rand::rngs::StdRng;
use crate::crypt::rng_below_u64;
use crate::util::bit_reverse_spec;
use crate::arith::range_sum;
use crate::montgomery::{
    mont_r,
    is_neg_inverse,
    r_inverse,
    passes_miller_rabin,
    is_prime,
    mulmod,
    powmod,
    mont_q_neg_inv,
    mont_r2,
    mont_redc,
    mont_mul,
    lemma_mont_cancel,
    lemma_r_inverse,
};

verus! {

/// The bit length that the prime search aims at: candidates start at
/// `2^(TARGET_LOG_Q - 1)`.
pub const TARGET_LOG_Q: u32 = 50;

/// The largest number of further candidates the prime search tries.
pub const MAX_PRIME_TRIES: u64 = 1_000_000;

/// The largest base tried in the search for a root of unity.
pub const MAX_ROOT_BASE: u64 = 65537;

/// Reverses the `bits` low bits of `x`.
pub fn bit_reverse(x: usize, bits: u32) -> (r: usize)
    requires
        bits <= 32,
    ensures
        r == bit_reverse_spec(x as nat, bits as nat),
        r < pow2(bits as nat),
{
    let ghost x0 = x;
    let mut x = x;
    let mut r: usize = 0;
    let mut i: u32 = 0;
    proof {
        lemma2_to64();
    }
    while i < bits
        invariant
            i <= bits <= 32,
            r < pow2(i as nat),
            x as nat == x0 as nat / pow2(i as nat),
            r * pow2((bits - i) as nat) + bit_reverse_spec(x as nat, (bits - i) as nat) == bit_reverse_spec(
                x0 as nat,
                bits as nat,
            ),
        decreases bits - i,
    {
        proof {
            lemma2_to64();
            lemma_pow2_unfold((bits - i) as nat);
            lemma_pow2_unfold((i + 1) as nat);
            if i < 31 {
                lemma_pow2_strictly_increases(i as nat, 31);
            }
        }
        let bit = x & 1;
        assert(bit == x % 2) by (bit_vector)
            requires
                bit == x & 1,
        ;
        let nr = (r << 1) | bit;
        assert(r < 0x8000_0000 && bit <= 1 ==> nr == 2 * r + bit) by (bit_vector)
            requires
                nr == (r << 1) | bit,
        ;
        let nx = x >> 1;
        assert(nx == x / 2) by (bit_vector)
            requires
                nx == x >> 1,
        ;
        proof {
            let m = (bits - i) as nat;
            assert(bit_reverse_spec(x as nat, m) == (x as nat % 2) * pow2((m - 1) as nat) + bit_reverse_spec(
                x as nat / 2,
                (m - 1) as nat,
            ));
            assert(r * pow2(m) == 2 * r * pow2((m - 1) as nat)) by (nonlinear_arith)
                requires
                    pow2(m) == 2 * pow2((m - 1) as nat),
            ;
            assert(nr * pow2((m - 1) as nat) == 2 * r * pow2((m - 1) as nat) + bit * pow2((m - 1) as nat))
                by (nonlinear_arith)
                requires
                    nr == 2 * r + bit,
            ;
            lemma_pow2_pos(i as nat);
            lemma_div_denominator(x0 as int, pow2(i as nat) as int, 2);
            lemma_pow2_adds(i as nat, 1);
            lemma_pow1(2);
        }
        r = nr;
        x = nx;
        i = i + 1;
    }
    proof {
        lemma2_to64();
        assert(bit_reverse_spec(x as nat, 0) == 0);
        assert(r * pow2(0) == r);
        assert(r as nat == bit_reverse_spec(x0 as nat, bits as nat));
    }
    r
}


/// The Montgomery form `x R mod q` of `x`.
pub open spec fn mont_form(q: u64, x: int) -> int {
    (x * mont_r()) % (q as int)
}

/// `y` is the Montgomery form of some value below `q`.
pub open spec fn is_mont_value(q: u64, y: int) -> bool {
    exists|x: int| 0 <= x < q && y == #[trigger] mont_form(q, x)
}

/// The `t`-th candidate `(k0 + t) 2d + 1` of the prime search.
pub open spec fn prime_candidate(k0: int, two_d: int, t: int) -> int {
    (k0 + t) * two_d + 1
}

/// Candidate `t` is the first among `0 ..= MAX_PRIME_TRIES` that passes the
/// primality test.
pub open spec fn is_first_prime_index(k0: int, two_d: int, t: int) -> bool {
    &&& 0 <= t <= MAX_PRIME_TRIES
    &&& passes_miller_rabin(prime_candidate(k0, two_d, t))
    &&& forall|u: int| 0 <= u < t ==> !passes_miller_rabin(#[trigger] prime_candidate(k0, two_d, u))
}

/// `psi = g^e mod q` satisfies `psi^d = -1 (mod q)`.
pub open spec fn root_base_ok(q: int, e: nat, d: nat, g: int) -> bool {
    pow(pow(g, e) % q, d) % q == q - 1
}

/// `g` is the first base from 2 up to `MAX_ROOT_BASE` for which
/// `root_base_ok` holds.
pub open spec fn is_first_root_base(q: int, e: nat, d: nat, g: int) -> bool {
    &&& 2 <= g <= MAX_ROOT_BASE
    &&& root_base_ok(q, e, d, g)
    &&& forall|h: int| 2 <= h < g ==> !#[trigger] root_base_ok(q, e, d, h)
}

/// The first multiplier of the prime search: `ceil(2^(TARGET_LOG_Q-1) / 2d)`
/// plus `skip`.
pub open spec fn first_multiplier(two_d: int, skip: int) -> int {
    (pow2((TARGET_LOG_Q - 1) as nat) + two_d - 1) / two_d + skip
}

/// An NTT context for `Z_q[X]/(X^d + 1)`: the prime `q`, its Montgomery
/// constants, and the powers of a root `psi` (`psi^d = -1`) and of its
/// inverse, in Montgomery form and bit-reversed order, with `d^-1` in
/// Montgomery form.
pub struct Ctx {
    pub d: usize,
    pub log_d: u32,
    pub q: u64,
    pub q_neg_inv: u64,
    pub r2_mod_q: u64,
    pub psi_pow_mont: Vec<u64>,
    pub psi_inv_pow_mont: Vec<u64>,
    pub n_inv_mont: u64,
}

impl Ctx {
    /// The shape that the arithmetic relies on: `d = 2^log_d`, an odd
    /// modulus below `2^63` with its Montgomery constants, and tables of `d`
    /// reduced values.
    pub open spec fn wf(&self) -> bool {
        &&& self.d == pow2(self.log_d as nat)
        &&& self.log_d <= 32
        &&& 1 < self.q < 0x8000_0000_0000_0000
        &&& self.q % 2 == 1
        &&& is_neg_inverse(self.q, self.q_neg_inv)
        &&& self.r2_mod_q == (pow2(128) as int) % (self.q as int)
        &&& self.psi_pow_mont@.len() == self.d
        &&& self.psi_inv_pow_mont@.len() == self.d
        &&& forall|i: int| 0 <= i < self.d ==> #[trigger] self.psi_pow_mont@[i] < self.q
        &&& forall|i: int| 0 <= i < self.d ==> #[trigger] self.psi_inv_pow_mont@[i] < self.q
        &&& self.n_inv_mont < self.q
    }

    /// The tables hold the powers of `psi` and of `psi^(q-2)` at the
    /// bit-reversed indices, and `n_inv_mont` the value `d^(q-2)`, all times
    /// `R` modulo `q`.
    pub open spec fn tables_from(&self, psi: int) -> bool {
        let q = self.q as int;
        let psi_inv = pow(psi, (q - 2) as nat) % q;
        &&& forall|k: int|
            0 <= k < self.d ==> #[trigger] self.psi_pow_mont@[k] == (pow(
                psi,
                bit_reverse_spec(k as nat, self.log_d as nat),
            ) * mont_r()) % q
        &&& forall|k: int|
            0 <= k < self.d ==> #[trigger] self.psi_inv_pow_mont@[k] == (pow(
                psi_inv,
                bit_reverse_spec(k as nat, self.log_d as nat),
            ) * mont_r()) % q
        &&& self.n_inv_mont == ((pow(self.d as int, (q - 2) as nat) % q) * mont_r()) % q
    }
}

/// `x R mod q` for `x < q`: one Montgomery multiplication by `R^2 mod q`.
fn to_mont_with(x: u64, q: u64, q_neg_inv: u64, r2: u64) -> (r: u64)
    requires
        1 < q < 0x8000_0000_0000_0000,
        is_neg_inverse(q, q_neg_inv),
        r2 == (pow2(128) as int) % (q as int),
        x < q,
    ensures
        r == (x * mont_r()) % (q as int),
        r < q,
{
    proof {
        lemma_mod_bound(pow2(128) as int, q as int);
    }
    let r = mont_mul(x, r2, q, q_neg_inv);
    proof {
        let qi = q as int;
        lemma2_to64();
        lemma_pow2_adds(64, 64);
        assert(pow2(128) == mont_r() * mont_r());
        lemma_mul_mod_noop_general(x as int, mont_r() * mont_r(), qi);
        lemma_mul_is_associative(x as int, mont_r(), mont_r());
        lemma_mont_cancel(q, q_neg_inv, r as int, x * mont_r());
        lemma_small_mod(r as nat, q as nat);
    }
    r
}

/// The first candidate `(k0 + t) 2d + 1` that passes the primality test.
fn find_prime(k0: u64, two_d: u64) -> (q: u64)
    requires
        two_d >= 1,
        exists|t: int|
            is_first_prime_index(k0 as int, two_d as int, t) && prime_candidate(k0 as int, two_d as int, t)
                < 0x8000_0000_0000_0000,
    ensures
        exists|t: int|
            is_first_prime_index(k0 as int, two_d as int, t) && q == prime_candidate(k0 as int, two_d as int, t),
        q < 0x8000_0000_0000_0000,
{
    let ghost t_star = choose|t: int|
        is_first_prime_index(k0 as int, two_d as int, t) && prime_candidate(k0 as int, two_d as int, t)
            < 0x8000_0000_0000_0000;
    let mut k = k0;
    let mut tried: u64 = 0;
    loop
        invariant
            two_d >= 1,
            is_first_prime_index(k0 as int, two_d as int, t_star),
            prime_candidate(k0 as int, two_d as int, t_star) < 0x8000_0000_0000_0000,
            0 <= tried <= t_star,
            k == k0 + tried,
        decreases t_star - tried,
    {
        assert((k0 + tried) * two_d <= (k0 + t_star) * two_d) by (nonlinear_arith)
            requires
                tried <= t_star,
                two_d >= 1,
        ;
        let cand = k * two_d + 1;
        if is_prime(cand) {
            proof {
                assert(tried == t_star) by {
                    if tried < t_star {
                        assert(!passes_miller_rabin(prime_candidate(k0 as int, two_d as int, tried as int)));
                    }
                }
            }
            return cand;
        }
        proof {
            assert(tried < t_star);
            assert(k0 + t_star <= (k0 + t_star) * two_d) by (nonlinear_arith)
                requires
                    two_d >= 1,
                    k0 + t_star >= 0,
            ;
        }
        k = k + 1;
        tried = tried + 1;
    }
}

/// `g^e mod q` for the first base `g` from 2 with `(g^e)^d = -1 (mod q)`.
fn find_root(q: u64, e: u64, d: u64) -> (psi: u64)
    requires
        q > 1,
        d >= 1,
        exists|g: int| is_first_root_base(q as int, e as nat, d as nat, g),
    ensures
        exists|g: int| #[trigger] is_first_root_base(q as int, e as nat, d as nat, g) && psi == (if e == 0 {
            1
        } else {
            pow(g, e as nat) % (q as int)
        }),
        psi < q || e == 0,
{
    let ghost g_star = choose|g: int| is_first_root_base(q as int, e as nat, d as nat, g);
    let mut g: u64 = 2;
    loop
        invariant
            q > 1,
            d >= 1,
            is_first_root_base(q as int, e as nat, d as nat, g_star),
            2 <= g <= g_star,
        decreases g_star - g,
    {
        let cand = powmod(g, e, q);
        if powmod(cand, d, q) == q - 1 {
            proof {
                if e == 0 {
                    lemma_pow0(g as int);
                    lemma_small_mod(1, q as nat);
                } else {
                    lemma_mod_bound(pow(g as int, e as nat), q as int);
                }
                assert(root_base_ok(q as int, e as nat, d as nat, g as int));
                assert(g == g_star) by {
                    if g < g_star {
                        assert(!root_base_ok(q as int, e as nat, d as nat, g as int));
                    }
                }
            }
            return cand;
        }
        proof {
            if e == 0 {
                lemma_pow0(g as int);
                lemma_small_mod(1, q as nat);
            } else {
                lemma_mod_bound(pow(g as int, e as nat), q as int);
            }
            assert(g != g_star);
        }
        g = g + 1;
    }
}


/// The first candidate `(k0 + t) 2d + 1`, `t <= MAX_PRIME_TRIES`, that
/// passes the primality test, if it exists and is below `2^63`.
fn find_prime_checked(k0: u64, two_d: u64) -> (r: Option<u64>)
    requires
        1 <= two_d <= 0x2_0000_0000,
    ensures
        r matches Some(q) ==> exists|t: int|
            #[trigger] is_first_prime_index(k0 as int, two_d as int, t) && q == prime_candidate(
                k0 as int,
                two_d as int,
                t,
            ) && q < 0x8000_0000_0000_0000,
        r is None ==> forall|t: int|
            #[trigger] is_first_prime_index(k0 as int, two_d as int, t) ==> prime_candidate(
                k0 as int,
                two_d as int,
                t,
            ) >= 0x8000_0000_0000_0000,
{
    let mut tried: u64 = 0;
    while tried <= MAX_PRIME_TRIES
        invariant
            1 <= two_d <= 0x2_0000_0000,
            tried <= MAX_PRIME_TRIES + 1,
            forall|u: int| 0 <= u < tried ==> !passes_miller_rabin(#[trigger] prime_candidate(k0 as int, two_d as int, u)),
        decreases MAX_PRIME_TRIES + 1 - tried,
    {
        let k: u128 = k0 as u128 + tried as u128;
        assert(k * two_d <= 0x2_0000_0000_0000_0000 * 0x2_0000_0000) by (nonlinear_arith)
            requires
                k < 0x2_0000_0000_0000_0000,
                two_d <= 0x2_0000_0000,
        ;
        let cand: u128 = k * (two_d as u128) + 1;
        if cand >= 0x8000_0000_0000_0000 {
            proof {
                assert forall|t: int| #[trigger] is_first_prime_index(k0 as int, two_d as int, t) implies prime_candidate(
                    k0 as int,
                    two_d as int,
                    t,
                ) >= 0x8000_0000_0000_0000 by {
                    if t < tried {
                        assert(!passes_miller_rabin(prime_candidate(k0 as int, two_d as int, t)));
                    }
                    assert((k0 + tried) * two_d <= (k0 + t) * two_d) by (nonlinear_arith)
                        requires
                            tried <= t,
                            two_d >= 1,
                    ;
                }
            }
            return None;
        }
        let c64 = cand as u64;
        if is_prime(c64) {
            proof {
                assert(is_first_prime_index(k0 as int, two_d as int, tried as int));
            }
            return Some(c64);
        }
        tried = tried + 1;
    }
    None
}

/// `g^e mod q` for the first base `g` from 2 up to `MAX_ROOT_BASE` with
/// `(g^e)^d = -1 (mod q)`, if there is one.
fn find_root_checked(q: u64, e: u64, d: u64) -> (r: Option<u64>)
    requires
        q > 1,
        d >= 1,
    ensures
        r matches Some(psi) ==> exists|g: int| #[trigger] is_first_root_base(q as int, e as nat, d as nat, g) && psi == (
        if e == 0 {
            1
        } else {
            pow(g, e as nat) % (q as int)
        }),
        r is None ==> forall|g: int| !#[trigger] is_first_root_base(q as int, e as nat, d as nat, g),
{
    let mut g: u64 = 2;
    while g <= MAX_ROOT_BASE
        invariant
            q > 1,
            d >= 1,
            2 <= g <= MAX_ROOT_BASE + 1,
            forall|h: int| 2 <= h < g ==> !#[trigger] root_base_ok(q as int, e as nat, d as nat, h),
        decreases MAX_ROOT_BASE + 1 - g,
    {
        let cand = powmod(g, e, q);
        proof {
            if e == 0 {
                lemma_pow0(g as int);
                lemma_small_mod(1, q as nat);
            } else {
                lemma_mod_bound(pow(g as int, e as nat), q as int);
            }
        }
        if powmod(cand, d, q) == q - 1 {
            proof {
                assert(root_base_ok(q as int, e as nat, d as nat, g as int));
                assert(is_first_root_base(q as int, e as nat, d as nat, g as int));
            }
            return Some(cand);
        }
        proof {
            assert(!root_base_ok(q as int, e as nat, d as nat, g as int));
        }
        g = g + 1;
    }
    None
}

proof fn lemma_first_prime_unique(k0: int, two_d: int, t1: int, t2: int)
    requires
        is_first_prime_index(k0, two_d, t1),
        is_first_prime_index(k0, two_d, t2),
    ensures
        t1 == t2,
{
    if t1 < t2 {
        assert(!passes_miller_rabin(prime_candidate(k0, two_d, t1)));
    } else if t2 < t1 {
        assert(!passes_miller_rabin(prime_candidate(k0, two_d, t2)));
    }
}

proof fn lemma_first_root_unique(q: int, e: nat, d: nat, g1: int, g2: int)
    requires
        is_first_root_base(q, e, d, g1),
        is_first_root_base(q, e, d, g2),
    ensures
        g1 == g2,
{
    if g1 < g2 {
        assert(!root_base_ok(q, e, d, g1));
    } else if g2 < g1 {
        assert(!root_base_ok(q, e, d, g2));
    }
}

impl Ctx {
    /// Builds the context for degree `d = 2^log_d`: the first prime
    /// `q = k 2d + 1` from `k = ceil(2^(TARGET_LOG_Q-1) / 2d) + prime_skip` on
    /// (a skip picks a different prime for another residue channel), the
    /// first root `psi = g^((q-1)/2d)` with `psi^d = -1` over the bases `g`
    /// from 2, and the Montgomery-form tables of the powers of `psi` and
    /// `psi^-1 = psi^(q-2)` at bit-reversed indices. The searches are bounded
    /// (by `MAX_PRIME_TRIES` further candidates and the base `MAX_ROOT_BASE`);
    /// the `requires` asks that both succeed within them, with `q < 2^63`.
    pub fn build(d: usize, log_d: u32, prime_skip: u64) -> (c: Ctx)
        requires
            d == pow2(log_d as nat),
            log_d <= 32,
            exists|t: int, g: int|
                #![trigger is_first_prime_index(first_multiplier(2 * d, prime_skip as int), 2 * d, t), is_first_root_base(prime_candidate(first_multiplier(2 * d, prime_skip as int), 2 * d, t), (first_multiplier(2 * d, prime_skip as int) + t) as nat, d as nat, g)]
                is_first_prime_index(first_multiplier(2 * d, prime_skip as int), 2 * d, t) && prime_candidate(
                    first_multiplier(2 * d, prime_skip as int),
                    2 * d,
                    t,
                ) < 0x8000_0000_0000_0000 && is_first_root_base(
                    prime_candidate(first_multiplier(2 * d, prime_skip as int), 2 * d, t),
                    (first_multiplier(2 * d, prime_skip as int) + t) as nat,
                    d as nat,
                    g,
                ),
        ensures
            c.wf(),
            c.d == d,
            c.log_d == log_d,
            exists|t: int, g: int|
                #![trigger is_first_prime_index(first_multiplier(2 * d, prime_skip as int), 2 * d, t), is_first_root_base(c.q as int, (first_multiplier(2 * d, prime_skip as int) + t) as nat, d as nat, g)]
                is_first_prime_index(first_multiplier(2 * d, prime_skip as int), 2 * d, t) && c.q == prime_candidate(
                    first_multiplier(2 * d, prime_skip as int),
                    2 * d,
                    t,
                ) && is_first_root_base(
                    c.q as int,
                    (first_multiplier(2 * d, prime_skip as int) + t) as nat,
                    d as nat,
                    g,
                ) && c.tables_from(pow(g, (first_multiplier(2 * d, prime_skip as int) + t) as nat) % (c.q as int)),
            c.twiddles_inverse(),
            c.n_inv_ok(),
    {
        proof {
            lemma2_to64();
            lemma2_to64_rest();
            lemma_pow2_pos(log_d as nat);
            if log_d < 32 {
                lemma_pow2_strictly_increases(log_d as nat, 32);
            }
            lemma_pow2_strictly_increases(33, 49);
            lemma_pow2_adds(32, 1);
        }
        let two_d = 2 * d as u64;
        let lo = 1u64 << (TARGET_LOG_Q - 1);
        proof {
            lemma_u64_shl_is_mul(1, 49);
            assert(lo == pow2(49));
            assert(pow2(49) == 0x2_0000_0000_0000);
        }
        let ghost gk0 = first_multiplier(2 * d, prime_skip as int);
        let ghost t_star = choose|t: int, g: int|
            #![trigger is_first_prime_index(gk0, 2 * d, t), is_first_root_base(prime_candidate(gk0, 2 * d, t), (gk0 + t) as nat, d as nat, g)]
            is_first_prime_index(gk0, 2 * d, t) && prime_candidate(gk0, 2 * d, t) < 0x8000_0000_0000_0000
                && is_first_root_base(prime_candidate(gk0, 2 * d, t), (gk0 + t) as nat, d as nat, g);
        proof {
            lemma_div_pos_is_pos((lo + two_d - 1) as int, two_d as int);
            assert(gk0 + t_star.0 <= (gk0 + t_star.0) * (2 * d)) by (nonlinear_arith)
                requires
                    gk0 + t_star.0 >= 0,
                    d >= 1,
            ;
        }
        let k0 = (lo + two_d - 1) / two_d + prime_skip;
        proof {
            assert(k0 == gk0);
        }
        let q = find_prime(k0, two_d);
        let ghost t1 = choose|t: int|
            is_first_prime_index(k0 as int, two_d as int, t) && q == prime_candidate(k0 as int, two_d as int, t);
        proof {
            lemma_first_prime_unique(gk0, 2 * d, t1, t_star.0);
            assert(q % 2 == 1) by {
                assert(q == (gk0 + t1) * (2 * d) + 1);
                assert((gk0 + t1) * (2 * d) == 2 * ((gk0 + t1) * d)) by (nonlinear_arith);
            }
            assert(gk0 >= 1) by {
                assert(lo + two_d - 1 >= two_d);
                lemma_div_is_ordered(two_d as int, (lo + two_d - 1) as int, two_d as int);
                lemma_div_basics(two_d as int);
            }
            assert(q > 2) by (nonlinear_arith)
                requires
                    q == (gk0 + t1) * (2 * d) + 1,
                    gk0 + t1 >= 1,
                    d >= 1,
            ;
        }
        let q_neg_inv = mont_q_neg_inv(q);
        let r2_mod_q = mont_r2(q);
        let exp = (q - 1) / two_d;
        proof {
            assert(q - 1 == (gk0 + t1) * two_d);
            lemma_div_multiples_vanish(gk0 + t1, two_d as int);
            lemma_mul_is_commutative(gk0 + t1, two_d as int);
            assert(exp == gk0 + t1);
        }
        let psi = find_root(q, exp, d as u64);
        let ghost g1 = choose|g: int| #[trigger] is_first_root_base(q as int, exp as nat, d as nat, g) && psi == (if exp == 0 {
            1
        } else {
            pow(g, exp as nat) % (q as int)
        });
        let psi_inv = powmod(psi, q - 2, q);
        proof {
            lemma_mod_bound(pow(psi as int, (q - 2) as nat), q as int);
        }
        let mut psi_lin = vec![1u64; d];
        let mut psi_inv_lin = vec![1u64; d];
        proof {
            lemma_pow0(psi as int);
            lemma_pow0(psi_inv as int);
            lemma_small_mod(1, q as nat);
        }
        let mut i: usize = 1;
        while i < d
            invariant
                1 <= i <= d,
                1 < q,
                psi < q,
                psi_inv < q,
                psi_lin@.len() == d,
                psi_inv_lin@.len() == d,
                forall|j: int| 0 <= j < i ==> #[trigger] psi_lin@[j] == pow(psi as int, j as nat) % (q as int),
                forall|j: int| 0 <= j < i ==> #[trigger] psi_inv_lin@[j] == pow(psi_inv as int, j as nat) % (q as int),
            decreases d - i,
        {
            let a = mulmod(psi_lin[i - 1], psi, q);
            let b = mulmod(psi_inv_lin[i - 1], psi_inv, q);
            proof {
                lemma_pow_adds(psi as int, (i - 1) as nat, 1);
                lemma_pow1(psi as int);
                lemma_mul_mod_noop_left(pow(psi as int, (i - 1) as nat), psi as int, q as int);
                lemma_pow_adds(psi_inv as int, (i - 1) as nat, 1);
                lemma_pow1(psi_inv as int);
                lemma_mul_mod_noop_left(pow(psi_inv as int, (i - 1) as nat), psi_inv as int, q as int);
            }
            psi_lin.set(i, a);
            psi_inv_lin.set(i, b);
            i = i + 1;
        }
        let mut psi_pow_mont = vec![0u64; d];
        let mut psi_inv_pow_mont = vec![0u64; d];
        let mut k: usize = 0;
        proof {
            lemma_pow2_pos(log_d as nat);
        }
        while k < d
            invariant
                k <= d,
                d == pow2(log_d as nat),
                log_d <= 32,
                1 < q < 0x8000_0000_0000_0000,
                is_neg_inverse(q, q_neg_inv),
                r2_mod_q == (pow2(128) as int) % (q as int),
                psi_lin@.len() == d,
                psi_inv_lin@.len() == d,
                forall|j: int| 0 <= j < d ==> #[trigger] psi_lin@[j] == pow(psi as int, j as nat) % (q as int),
                forall|j: int| 0 <= j < d ==> #[trigger] psi_inv_lin@[j] == pow(psi_inv as int, j as nat) % (q as int),
                psi_pow_mont@.len() == d,
                psi_inv_pow_mont@.len() == d,
                forall|j: int|
                    0 <= j < k ==> #[trigger] psi_pow_mont@[j] == (pow(
                        psi as int,
                        bit_reverse_spec(j as nat, log_d as nat),
                    ) * mont_r()) % (q as int),
                forall|j: int|
                    0 <= j < k ==> #[trigger] psi_inv_pow_mont@[j] == (pow(
                        psi_inv as int,
                        bit_reverse_spec(j as nat, log_d as nat),
                    ) * mont_r()) % (q as int),
                forall|j: int| 0 <= j < d ==> #[trigger] psi_pow_mont@[j] < q,
                forall|j: int| 0 <= j < d ==> #[trigger] psi_inv_pow_mont@[j] < q,
            decreases d - k,
        {
            let br = bit_reverse(k, log_d);
            proof {
                lemma_mod_bound(pow(psi as int, br as nat), q as int);
                lemma_mod_bound(pow(psi_inv as int, br as nat), q as int);
            }
            let a = to_mont_with(psi_lin[br], q, q_neg_inv, r2_mod_q);
            let b = to_mont_with(psi_inv_lin[br], q, q_neg_inv, r2_mod_q);
            proof {
                lemma_mul_mod_noop_left(pow(psi as int, br as nat), mont_r(), q as int);
                lemma_mul_mod_noop_left(pow(psi_inv as int, br as nat), mont_r(), q as int);
            }
            psi_pow_mont.set(k, a);
            psi_inv_pow_mont.set(k, b);
            k = k + 1;
        }
        let n_inv = powmod(d as u64, q - 2, q);
        proof {
            lemma_mod_bound(pow(d as int, (q - 2) as nat), q as int);
        }
        let n_inv_mont = to_mont_with(n_inv, q, q_neg_inv, r2_mod_q);
        let c = Ctx { d, log_d, q, q_neg_inv, r2_mod_q, psi_pow_mont, psi_inv_pow_mont, n_inv_mont };
        proof {
            assert(psi == pow(g1, exp as nat) % (q as int));
            assert(c.tables_from(pow(g1, (gk0 + t1) as nat) % (q as int)));
            assert(is_first_prime_index(gk0, 2 * d, t1) && c.q == prime_candidate(gk0, 2 * d, t1)
                && is_first_root_base(c.q as int, (gk0 + t1) as nat, d as nat, g1));
            let psi_s = pow(g1, (gk0 + t1) as nat) % (q as int);
            assert(pow(psi_s, d as nat) % (q as int) == q - 1);
            assert((q - 1) % (2 * d) == 0) by {
                lemma_mod_multiples_basic(gk0 + t1, 2 * d);
            }
            assert(q > 37) by {
                let x: int = (lo + two_d - 1) as int / (two_d as int);
                lemma_fundamental_div_mod((lo + two_d - 1) as int, two_d as int);
                lemma_mod_bound((lo + two_d - 1) as int, two_d as int);
                assert(x * two_d >= lo) by (nonlinear_arith)
                    requires
                        lo + two_d - 1 == two_d * x + (lo + two_d - 1) % (two_d as int),
                        (lo + two_d - 1) % (two_d as int) < two_d,
                ;
                assert((gk0 + t1) * two_d >= x * two_d) by (nonlinear_arith)
                    requires
                        gk0 + t1 >= x,
                        two_d >= 1,
                ;
            }
            crate::ntt_laws::lemma_passes_base_two(q as int);
            crate::ntt_laws::lemma_built_context(c, psi_s);
        }
        c
    }
}

/// The searches of `Ctx::build` for degree `d` and skip `prime_skip`
/// succeed within their bounds, with a prime below `2^63`.
pub open spec fn build_succeeds(d: int, prime_skip: int) -> bool {
    exists|t: int, g: int|
        #![trigger is_first_prime_index(first_multiplier(2 * d, prime_skip), 2 * d, t), is_first_root_base(prime_candidate(first_multiplier(2 * d, prime_skip), 2 * d, t), (first_multiplier(2 * d, prime_skip) + t) as nat, d as nat, g)]
        is_first_prime_index(first_multiplier(2 * d, prime_skip), 2 * d, t) && prime_candidate(
            first_multiplier(2 * d, prime_skip),
            2 * d,
            t,
        ) < 0x8000_0000_0000_0000 && is_first_root_base(
            prime_candidate(first_multiplier(2 * d, prime_skip), 2 * d, t),
            (first_multiplier(2 * d, prime_skip) + t) as nat,
            d as nat,
            g,
        )
}

/// `c` is the context that `Ctx::build(d, log_d, prime_skip)` returns: the
/// first prime of the search, the tables from the first root, and the
/// facts of a built context.
pub open spec fn built_from(c: Ctx, d: int, log_d: int, prime_skip: int) -> bool {
    &&& c.wf()
    &&& c.d == d
    &&& c.log_d == log_d
    &&& exists|t: int, g: int|
        #![trigger is_first_prime_index(first_multiplier(2 * d, prime_skip), 2 * d, t), is_first_root_base(c.q as int, (first_multiplier(2 * d, prime_skip) + t) as nat, d as nat, g)]
        is_first_prime_index(first_multiplier(2 * d, prime_skip), 2 * d, t) && c.q == prime_candidate(
            first_multiplier(2 * d, prime_skip),
            2 * d,
            t,
        ) && is_first_root_base(c.q as int, (first_multiplier(2 * d, prime_skip) + t) as nat, d as nat, g)
            && c.tables_from(pow(g, (first_multiplier(2 * d, prime_skip) + t) as nat) % (c.q as int))
    &&& c.twiddles_inverse()
    &&& c.n_inv_ok()
}

impl Ctx {
    /// `Ctx::build` when its searches succeed within their bounds, and
    /// `None` when they do not.
    pub fn try_build(d: usize, log_d: u32, prime_skip: u64) -> (r: Option<Ctx>)
        requires
            d == pow2(log_d as nat),
            log_d <= 32,
        ensures
            r is Some <==> build_succeeds(d as int, prime_skip as int),
            r matches Some(c) ==> built_from(c, d as int, log_d as int, prime_skip as int),
    {
        proof {
            lemma2_to64();
            lemma2_to64_rest();
            lemma_pow2_pos(log_d as nat);
            if log_d < 32 {
                lemma_pow2_strictly_increases(log_d as nat, 32);
            }
            lemma_pow2_strictly_increases(33, 49);
            lemma_pow2_adds(32, 1);
        }
        let two_d = 2 * d as u64;
        let lo = 1u64 << (TARGET_LOG_Q - 1);
        proof {
            lemma_u64_shl_is_mul(1, 49);
            assert(lo == pow2(49));
            assert(pow2(49) == 0x2_0000_0000_0000);
        }
        let ghost gk0 = first_multiplier(2 * d, prime_skip as int);
        let base = (lo + two_d - 1) / two_d;
        proof {
            lemma_div_pos_is_pos((lo + two_d - 1) as int, two_d as int);
            assert(base >= 1) by {
                assert(lo + two_d - 1 >= two_d);
                lemma_div_is_ordered(two_d as int, (lo + two_d - 1) as int, two_d as int);
                lemma_div_basics(two_d as int);
            }
        }
        if base > u64::MAX - prime_skip {
            proof {
                assert(!build_succeeds(d as int, prime_skip as int)) by {
                    if build_succeeds(d as int, prime_skip as int) {
                        let (t, g) = choose|t: int, g: int|
                            #![trigger is_first_prime_index(first_multiplier(2 * d, prime_skip as int), 2 * d, t), is_first_root_base(prime_candidate(first_multiplier(2 * d, prime_skip as int), 2 * d, t), (first_multiplier(2 * d, prime_skip as int) + t) as nat, d as nat, g)]
                            is_first_prime_index(gk0, 2 * d, t) && prime_candidate(gk0, 2 * d, t) < 0x8000_0000_0000_0000
                                && is_first_root_base(prime_candidate(gk0, 2 * d, t), (gk0 + t) as nat, d as nat, g);
                        assert(gk0 + t >= 0x1_0000_0000_0000_0000);
                        assert((gk0 + t) * (2 * d) >= gk0 + t) by (nonlinear_arith)
                            requires
                                gk0 + t >= 0,
                                d >= 1,
                        ;
                    }
                }
            }
            return None;
        }
        let k0 = base + prime_skip;
        proof {
            assert(k0 == gk0);
        }
        let qo = find_prime_checked(k0, two_d);
        if qo.is_none() {
            proof {
                assert(!build_succeeds(d as int, prime_skip as int)) by {
                    if build_succeeds(d as int, prime_skip as int) {
                        let (t, g) = choose|t: int, g: int|
                            #![trigger is_first_prime_index(first_multiplier(2 * d, prime_skip as int), 2 * d, t), is_first_root_base(prime_candidate(first_multiplier(2 * d, prime_skip as int), 2 * d, t), (first_multiplier(2 * d, prime_skip as int) + t) as nat, d as nat, g)]
                            is_first_prime_index(gk0, 2 * d, t) && prime_candidate(gk0, 2 * d, t) < 0x8000_0000_0000_0000
                                && is_first_root_base(prime_candidate(gk0, 2 * d, t), (gk0 + t) as nat, d as nat, g);
                        assert(is_first_prime_index(k0 as int, two_d as int, t));
                    }
                }
            }
            return None;
        }
        let q = qo.unwrap();
        let ghost t1 = choose|t: int|
            #[trigger] is_first_prime_index(k0 as int, two_d as int, t) && q == prime_candidate(k0 as int, two_d as int, t)
                && q < 0x8000_0000_0000_0000;
        proof {
            assert(q == (gk0 + t1) * (2 * d) + 1);
            assert(q > 2) by (nonlinear_arith)
                requires
                    q == (gk0 + t1) * (2 * d) + 1,
                    gk0 + t1 >= 1,
                    d >= 1,
            ;
        }
        let exp = (q - 1) / two_d;
        proof {
            assert(q - 1 == (gk0 + t1) * two_d);
            lemma_div_multiples_vanish(gk0 + t1, two_d as int);
            lemma_mul_is_commutative(gk0 + t1, two_d as int);
            assert(exp == gk0 + t1);
        }
        let po = find_root_checked(q, exp, d as u64);
        if po.is_none() {
            proof {
                assert(!build_succeeds(d as int, prime_skip as int)) by {
                    if build_succeeds(d as int, prime_skip as int) {
                        let (t, g) = choose|t: int, g: int|
                            #![trigger is_first_prime_index(first_multiplier(2 * d, prime_skip as int), 2 * d, t), is_first_root_base(prime_candidate(first_multiplier(2 * d, prime_skip as int), 2 * d, t), (first_multiplier(2 * d, prime_skip as int) + t) as nat, d as nat, g)]
                            is_first_prime_index(gk0, 2 * d, t) && prime_candidate(gk0, 2 * d, t) < 0x8000_0000_0000_0000
                                && is_first_root_base(prime_candidate(gk0, 2 * d, t), (gk0 + t) as nat, d as nat, g);
                        lemma_first_prime_unique(gk0, 2 * d, t, t1);
                        assert(is_first_root_base(q as int, exp as nat, d as nat, g));
                    }
                }
            }
            return None;
        }
        let ghost g1 = choose|g: int| #[trigger] is_first_root_base(q as int, exp as nat, d as nat, g);
        proof {
            assert(is_first_prime_index(gk0, 2 * d, t1) && prime_candidate(gk0, 2 * d, t1) < 0x8000_0000_0000_0000
                && is_first_root_base(prime_candidate(gk0, 2 * d, t1), (gk0 + t1) as nat, d as nat, g1));
            let di = d as int;
            let si = prime_skip as int;
            assert(is_first_prime_index(first_multiplier(2 * di, si), 2 * di, t1));
            assert(is_first_root_base(
                prime_candidate(first_multiplier(2 * di, si), 2 * di, t1),
                (first_multiplier(2 * di, si) + t1) as nat,
                di as nat,
                g1,
            ));
            assert(build_succeeds(di, si));
        }
        let c = Ctx::build(d, log_d, prime_skip);
        Some(c)
    }
}


impl Ctx {
    /// The Montgomery product `x y R^-1 mod q`.
    pub open spec fn mprod(&self, x: int, y: int) -> int {
        (x * y * r_inverse(self.q, self.q_neg_inv)) % (self.q as int)
    }

    /// `(a + b) mod q` for reduced `a, b`.
    pub fn add(&self, a: u64, b: u64) -> (r: u64)
        requires
            self.wf(),
            a < self.q,
            b < self.q,
        ensures
            r == (a + b) % (self.q as int),
    {
        let s = a + b;
        if s >= self.q {
            proof {
                lemma_mod_multiples_vanish(-1, s as int, self.q as int);
                lemma_small_mod((s - self.q) as nat, self.q as nat);
            }
            s - self.q
        } else {
            proof {
                lemma_small_mod(s as nat, self.q as nat);
            }
            s
        }
    }

    /// `(a - b) mod q` for reduced `a, b`.
    pub fn sub(&self, a: u64, b: u64) -> (r: u64)
        requires
            self.wf(),
            a < self.q,
            b < self.q,
        ensures
            r == (a - b) % (self.q as int),
    {
        if a >= b {
            proof {
                lemma_small_mod((a - b) as nat, self.q as nat);
            }
            a - b
        } else {
            proof {
                lemma_mod_multiples_vanish(1, a - b, self.q as int);
                lemma_small_mod((a + self.q - b) as nat, self.q as nat);
            }
            a + self.q - b
        }
    }

    /// The Montgomery product of `a` and `b < q`.
    pub fn mm(&self, a: u64, b: u64) -> (r: u64)
        requires
            self.wf(),
            b < self.q,
        ensures
            r == self.mprod(a as int, b as int),
            r < self.q,
    {
        mont_mul(a, b, self.q, self.q_neg_inv)
    }

    /// Montgomery form `x R mod q` of a reduced `x`.
    pub fn to_mont(&self, x: u64) -> (r: u64)
        requires
            self.wf(),
            x < self.q,
        ensures
            r == (x * mont_r()) % (self.q as int),
    {
        to_mont_with(x, self.q, self.q_neg_inv, self.r2_mod_q)
    }

    /// The value `x R^-1 mod q` of a Montgomery-form `x`.
    pub fn from_mont(&self, x: u64) -> (r: u64)
        requires
            self.wf(),
        ensures
            r == (x * r_inverse(self.q, self.q_neg_inv)) % (self.q as int),
            r < self.q,
            (r * mont_r()) % (self.q as int) == (x as int) % (self.q as int),
    {
        assert(x < self.q * mont_r()) by (nonlinear_arith)
            requires
                x < mont_r(),
                self.q >= 1,
        ;
        let r = mont_redc(x as u128, self.q, self.q_neg_inv);
        proof {
            crate::montgomery::lemma_redc_value(self.q, self.q_neg_inv, r as int, x as int);
        }
        r
    }
}

/// Converting a reduced value to Montgomery form and back gives the value.
pub proof fn lemma_from_to_mont(c: Ctx, x: int, y: int, z: int)
    requires
        c.wf(),
        0 <= x < c.q,
        y == (x * mont_r()) % (c.q as int),
        z == (y * r_inverse(c.q, c.q_neg_inv)) % (c.q as int),
    ensures
        z == x,
{
    let qi = c.q as int;
    let j = r_inverse(c.q, c.q_neg_inv);
    lemma_r_inverse(c.q, c.q_neg_inv);
    lemma_mul_mod_noop_general(x * mont_r(), j, qi);
    assert((x * mont_r()) * j == x * (j * mont_r())) by (nonlinear_arith);
    lemma_mul_mod_noop_general(x, j * mont_r(), qi);
    lemma_mul_basics(x);
    lemma_small_mod(x as nat, c.q as nat);
}


impl Ctx {
    /// One Cooley-Tukey layer of the forward transform with `m` blocks of
    /// `2t` values: block `i` takes `s = psi_pow_mont[m + i]` and maps each
    /// pair `(u, v)` at distance `t` to `(u + s v, u - s v)` (Montgomery
    /// products, modulo `q`).
    pub open spec fn fwd_layer(&self, a: Seq<u64>, m: int, t: int) -> Seq<u64> {
        Seq::new(
            a.len(),
            |p: int|
                {
                    let s = self.psi_pow_mont@[m + p / (2 * t)] as int;
                    if p % (2 * t) < t {
                        ((a[p] + self.mprod(a[p + t] as int, s)) % (self.q as int)) as u64
                    } else {
                        ((a[p - t] - self.mprod(a[p] as int, s)) % (self.q as int)) as u64
                    }
                },
        )
    }

    /// The forward layers for `m, 2m, ..., d/2` blocks, in that order.
    pub open spec fn fwd_layers(&self, a: Seq<u64>, m: int) -> Seq<u64>
        decreases self.d - m,
    {
        if m < 1 || 2 * m > self.d {
            a
        } else {
            self.fwd_layers(self.fwd_layer(a, m, (self.d as int) / (2 * m)), 2 * m)
        }
    }

    /// The merged-psi negacyclic forward NTT (output in bit-reversed order).
    pub open spec fn ntt_spec(&self, a: Seq<u64>) -> Seq<u64> {
        self.fwd_layers(a, 1)
    }

    /// One Gentleman-Sande layer of the inverse transform with `h` blocks of
    /// `2t` values: block `i` takes `s = psi_inv_pow_mont[h + i]` and maps each
    /// pair `(u, v)` to `(u + v, s (u - v))`.
    pub open spec fn inv_layer(&self, a: Seq<u64>, h: int, t: int) -> Seq<u64> {
        Seq::new(
            a.len(),
            |p: int|
                {
                    let s = self.psi_inv_pow_mont@[h + p / (2 * t)] as int;
                    if p % (2 * t) < t {
                        ((a[p] + a[p + t]) % (self.q as int)) as u64
                    } else {
                        self.mprod((a[p - t] - a[p]) % (self.q as int), s) as u64
                    }
                },
        )
    }

    /// The inverse layers for `h, h/2, ..., 1` blocks, in that order.
    pub open spec fn inv_layers(&self, a: Seq<u64>, h: int) -> Seq<u64>
        decreases h,
    {
        if h < 1 || h > self.d {
            a
        } else {
            self.inv_layers(self.inv_layer(a, h, (self.d as int) / (2 * h)), h / 2)
        }
    }

    /// The inverse NTT: the inverse layers from `d/2` blocks down to one,
    /// then every value multiplied by `d^-1` (Montgomery products with
    /// `n_inv_mont`).
    pub open spec fn intt_spec(&self, a: Seq<u64>) -> Seq<u64> {
        let b = self.inv_layers(a, (self.d / 2) as int);
        Seq::new(a.len(), |p: int| self.mprod(b[p] as int, self.n_inv_mont as int) as u64)
    }
}

proof fn lemma_block_pos(t: int, i: int, off: int)
    requires
        t >= 1,
        i >= 0,
        0 <= off < 2 * t,
    ensures
        (2 * t * i + off) / (2 * t) == i,
        (2 * t * i + off) % (2 * t) == off,
{
    lemma_mul_is_commutative(2 * t, i);
    lemma_fundamental_div_mod_converse(2 * t * i + off, 2 * t, i, off);
}

impl Ctx {
    /// One forward butterfly block `[j1, j1 + 2t)` with factor `s`.
    fn fwd_block(&self, a: &mut [u64], j1: usize, t: usize, s: u64)
        requires
            self.wf(),
            t >= 1,
            j1 + 2 * t <= old(a)@.len() <= usize::MAX,
            s < self.q,
            forall|p: int| 0 <= p < old(a)@.len() ==> #[trigger] old(a)@[p] < self.q,
        ensures
            final(a)@.len() == old(a)@.len(),
            forall|p: int| 0 <= p < final(a)@.len() ==> #[trigger] final(a)@[p] < self.q,
            forall|p: int|
                j1 <= p < j1 + t ==> #[trigger] final(a)@[p] == (old(a)@[p] + self.mprod(old(a)@[p + t] as int, s as int))
                    % (self.q as int),
            forall|p: int|
                j1 + t <= p < j1 + 2 * t ==> #[trigger] final(a)@[p] == (old(a)@[p - t] - self.mprod(
                    old(a)@[p] as int,
                    s as int,
                )) % (self.q as int),
            forall|p: int| 0 <= p < old(a)@.len() && !(j1 <= p < j1 + 2 * t) ==> #[trigger] final(a)@[p] == old(a)@[p],
    {
        let ghost a0 = a@;
        let mut j: usize = j1;
        while j < j1 + t
            invariant
                self.wf(),
                t >= 1,
                j1 <= j <= j1 + t,
                j1 + 2 * t <= a0.len() <= usize::MAX,
                s < self.q,
                a@.len() == a0.len(),
                forall|p: int| 0 <= p < a0.len() ==> #[trigger] a@[p] < self.q,
                forall|p: int|
                    j1 <= p < j ==> #[trigger] a@[p] == (a0[p] + self.mprod(a0[p + t] as int, s as int)) % (self.q as int),
                forall|p: int|
                    j1 + t <= p < j + t ==> #[trigger] a@[p] == (a0[p - t] - self.mprod(a0[p] as int, s as int)) % (
                    self.q as int),
                forall|p: int| 0 <= p < a0.len() && !(j1 <= p < j) && !(j1 + t <= p < j + t) ==> #[trigger] a@[p] == a0[p],
            decreases j1 + t - j,
        {
            let u = a[j];
            let v = self.mm(a[j + t], s);
            let x = self.add(u, v);
            let y = self.sub(u, v);
            proof {
                lemma_mod_bound(u + v, self.q as int);
                lemma_mod_bound(u - v, self.q as int);
            }
            a[j] = x;
            a[j + t] = y;
            j = j + 1;
        }
    }

    /// One forward layer with `m` blocks of `2t` values, in place.
    fn fwd_layer_exec(&self, a: &mut [u64], m: usize, t: usize)
        requires
            self.wf(),
            m >= 1,
            t >= 1,
            m * (2 * t) == self.d,
            old(a)@.len() == self.d,
            forall|p: int| 0 <= p < old(a)@.len() ==> #[trigger] old(a)@[p] < self.q,
        ensures
            final(a)@ == self.fwd_layer(old(a)@, m as int, t as int),
            forall|p: int| 0 <= p < final(a)@.len() ==> #[trigger] final(a)@[p] < self.q,
    {
        let ghost a0 = a@;
        let ghost lay = self.fwd_layer(a0, m as int, t as int);
        let mut i: usize = 0;
        while i < m
            invariant
                self.wf(),
                m >= 1,
                t >= 1,
                m * (2 * t) == self.d,
                a0.len() == self.d,
                a@.len() == self.d,
                lay == self.fwd_layer(a0, m as int, t as int),
                i <= m,
                forall|p: int| 0 <= p < a@.len() ==> #[trigger] a@[p] < self.q,
                forall|p: int| 0 <= p < 2 * t * i ==> #[trigger] a@[p] == lay[p],
                forall|p: int| 2 * t * i <= p < self.d ==> #[trigger] a@[p] == a0[p],
            decreases m - i,
        {
            proof {
                assert(2 * t * i + 2 * t <= self.d) by (nonlinear_arith)
                    requires
                        i < m,
                        m * (2 * t) == self.d,
                ;
                assert(2 * i * t + 2 * t <= self.d) by (nonlinear_arith)
                    requires
                        i < m,
                        m * (2 * t) == self.d,
                ;
                assert(m + i < self.d) by (nonlinear_arith)
                    requires
                        i < m,
                        m * (2 * t) == self.d,
                        t >= 1,
                ;
            }
            let s = self.psi_pow_mont[m + i];
            let j1 = 2 * i * t;
            proof {
                assert(j1 == 2 * t * i) by (nonlinear_arith)
                    requires
                        j1 == 2 * i * t,
                ;
            }
            let ghost before = a@;
            self.fwd_block(a, j1, t, s);
            proof {
                assert forall|p: int| 0 <= p < 2 * t * (i + 1) implies #[trigger] a@[p] == lay[p] by {
                    assert(2 * t * (i + 1) == 2 * t * i + 2 * t) by (nonlinear_arith);
                    if p >= j1 {
                        lemma_block_pos(t as int, i as int, p - j1);
                        if p < j1 + t {
                            lemma_block_pos(t as int, i as int, p + t - j1);
                            assert(before[p + t] == a0[p + t]);
                        } else {
                            lemma_block_pos(t as int, i as int, p - t - j1);
                        }
                    }
                }
                assert forall|p: int| 2 * t * (i + 1) <= p < self.d implies #[trigger] a@[p] == a0[p] by {
                    assert(2 * t * (i + 1) == 2 * t * i + 2 * t) by (nonlinear_arith);
                }
            }
            i = i + 1;
        }
        proof {
            assert(2 * t * m == self.d) by (nonlinear_arith)
                requires
                    m * (2 * t) == self.d,
            ;
            assert(a@ =~= lay);
        }
    }
}


impl Ctx {
    /// One inverse butterfly block `[j1, j1 + 2t)` with factor `s`.
    fn inv_block(&self, a: &mut [u64], j1: usize, t: usize, s: u64)
        requires
            self.wf(),
            t >= 1,
            j1 + 2 * t <= old(a)@.len() <= usize::MAX,
            s < self.q,
            forall|p: int| 0 <= p < old(a)@.len() ==> #[trigger] old(a)@[p] < self.q,
        ensures
            final(a)@.len() == old(a)@.len(),
            forall|p: int| 0 <= p < final(a)@.len() ==> #[trigger] final(a)@[p] < self.q,
            forall|p: int|
                j1 <= p < j1 + t ==> #[trigger] final(a)@[p] == (old(a)@[p] + old(a)@[p + t]) % (self.q as int),
            forall|p: int|
                j1 + t <= p < j1 + 2 * t ==> #[trigger] final(a)@[p] == self.mprod(
                    (old(a)@[p - t] - old(a)@[p]) % (self.q as int),
                    s as int,
                ),
            forall|p: int| 0 <= p < old(a)@.len() && !(j1 <= p < j1 + 2 * t) ==> #[trigger] final(a)@[p] == old(a)@[p],
    {
        let ghost a0 = a@;
        let mut j: usize = j1;
        while j < j1 + t
            invariant
                self.wf(),
                t >= 1,
                j1 <= j <= j1 + t,
                j1 + 2 * t <= a0.len() <= usize::MAX,
                s < self.q,
                a@.len() == a0.len(),
                forall|p: int| 0 <= p < a0.len() ==> #[trigger] a@[p] < self.q,
                forall|p: int| j1 <= p < j ==> #[trigger] a@[p] == (a0[p] + a0[p + t]) % (self.q as int),
                forall|p: int|
                    j1 + t <= p < j + t ==> #[trigger] a@[p] == self.mprod((a0[p - t] - a0[p]) % (self.q as int), s as int),
                forall|p: int| 0 <= p < a0.len() && !(j1 <= p < j) && !(j1 + t <= p < j + t) ==> #[trigger] a@[p] == a0[p],
            decreases j1 + t - j,
        {
            let u = a[j];
            let v = a[j + t];
            let x = self.add(u, v);
            let diff = self.sub(u, v);
            proof {
                lemma_mod_bound(u + v, self.q as int);
                lemma_mod_bound(u - v, self.q as int);
            }
            let y = self.mm(diff, s);
            a[j] = x;
            a[j + t] = y;
            j = j + 1;
        }
    }

    /// One inverse layer with `h` blocks of `2t` values, in place.
    fn inv_layer_exec(&self, a: &mut [u64], h: usize, t: usize)
        requires
            self.wf(),
            h >= 1,
            t >= 1,
            h * (2 * t) == self.d,
            old(a)@.len() == self.d,
            forall|p: int| 0 <= p < old(a)@.len() ==> #[trigger] old(a)@[p] < self.q,
        ensures
            final(a)@ == self.inv_layer(old(a)@, h as int, t as int),
            forall|p: int| 0 <= p < final(a)@.len() ==> #[trigger] final(a)@[p] < self.q,
    {
        let ghost a0 = a@;
        let ghost lay = self.inv_layer(a0, h as int, t as int);
        let mut i: usize = 0;
        let mut j1: usize = 0;
        while i < h
            invariant
                self.wf(),
                h >= 1,
                t >= 1,
                h * (2 * t) == self.d,
                a0.len() == self.d,
                a@.len() == self.d,
                lay == self.inv_layer(a0, h as int, t as int),
                i <= h,
                j1 == 2 * t * i,
                forall|p: int| 0 <= p < a@.len() ==> #[trigger] a@[p] < self.q,
                forall|p: int| 0 <= p < 2 * t * i ==> #[trigger] a@[p] == lay[p],
                forall|p: int| 2 * t * i <= p < self.d ==> #[trigger] a@[p] == a0[p],
            decreases h - i,
        {
            proof {
                assert(2 * t * i + 2 * t <= self.d) by (nonlinear_arith)
                    requires
                        i < h,
                        h * (2 * t) == self.d,
                ;
                assert(h + i < self.d) by (nonlinear_arith)
                    requires
                        i < h,
                        h * (2 * t) == self.d,
                        t >= 1,
                ;
            }
            let s = self.psi_inv_pow_mont[h + i];
            let ghost before = a@;
            self.inv_block(a, j1, t, s);
            proof {
                assert forall|p: int| 0 <= p < 2 * t * (i + 1) implies #[trigger] a@[p] == lay[p] by {
                    assert(2 * t * (i + 1) == 2 * t * i + 2 * t) by (nonlinear_arith);
                    if p >= j1 {
                        lemma_block_pos(t as int, i as int, p - j1);
                        if p < j1 + t {
                            lemma_block_pos(t as int, i as int, p + t - j1);
                            assert(before[p + t] == a0[p + t]);
                        } else {
                            lemma_block_pos(t as int, i as int, p - t - j1);
                        }
                    }
                }
                assert forall|p: int| 2 * t * (i + 1) <= p < self.d implies #[trigger] a@[p] == a0[p] by {
                    assert(2 * t * (i + 1) == 2 * t * i + 2 * t) by (nonlinear_arith);
                }
            }
            j1 = j1 + 2 * t;
            i = i + 1;
            proof {
                assert(j1 == 2 * t * i) by (nonlinear_arith)
                    requires
                        j1 == 2 * t * (i - 1) + 2 * t,
                ;
            }
        }
        proof {
            assert(2 * t * h == self.d) by (nonlinear_arith)
                requires
                    h * (2 * t) == self.d,
            ;
            assert(a@ =~= lay);
        }
    }

    /// Merged-psi forward NTT (Cooley-Tukey, decimation in time), in place
    /// on `d` Montgomery-form coefficients; the output is in bit-reversed
    /// order.
    pub fn ntt(&self, a: &mut [u64])
        requires
            self.wf(),
            old(a)@.len() == self.d,
            forall|p: int| 0 <= p < old(a)@.len() ==> #[trigger] old(a)@[p] < self.q,
        ensures
            final(a)@ == self.ntt_spec(old(a)@),
            final(a)@.len() == old(a)@.len(),
            forall|p: int| 0 <= p < final(a)@.len() ==> #[trigger] final(a)@[p] < self.q,
    {
        let ghost a0 = a@;
        let n = self.d;
        let mut t = n;
        let mut m: usize = 1;
        let ghost mut j: nat = 0;
        proof {
            lemma2_to64();
        }
        while m < n
            invariant
                self.wf(),
                n == self.d,
                a@.len() == self.d,
                forall|p: int| 0 <= p < a@.len() ==> #[trigger] a@[p] < self.q,
                j <= self.log_d,
                m == pow2(j),
                t == pow2((self.log_d - j) as nat),
                m * t == n,
                self.fwd_layers(a@, m as int) == self.ntt_spec(a0),
            decreases n - m,
        {
            proof {
                if j == self.log_d {
                    assert(m == n);
                }
                lemma_pow2_unfold((self.log_d - j) as nat);
                lemma_pow2_unfold((j + 1) as nat);
                lemma_pow2_pos((self.log_d - j - 1) as nat);
            }
            let ghost t_old = t;
            t = t / 2;
            proof {
                assert(t_old == 2 * t);
                assert(m * (2 * t) == n) by (nonlinear_arith)
                    requires
                        m * t_old == n,
                        t_old == 2 * t,
                ;
                assert((n as int) / (2 * m) == t) by {
                    lemma_mul_is_commutative(2 * m, t as int);
                    assert(n == t * (2 * m)) by (nonlinear_arith)
                        requires
                            m * (2 * t) == n,
                    ;
                    lemma_div_multiples_vanish(t as int, 2 * m);
                }
                assert(2 * m <= n) by (nonlinear_arith)
                    requires
                        m * (2 * t) == n,
                        t >= 1,
                ;
            }
            self.fwd_layer_exec(a, m, t);
            m = m * 2;
            proof {
                j = j + 1;
                assert(m * t == n) by (nonlinear_arith)
                    requires
                        (m / 2) * (2 * t) == n,
                        m % 2 == 0,
                ;
            }
        }
        proof {
            assert(m == n) by (nonlinear_arith)
                requires
                    m * t == n,
                    m >= n,
                    t >= 1,
            ;
        }
    }

    /// Inverse NTT (Gentleman-Sande), in place, with the final scaling by
    /// `d^-1`; input and output in Montgomery form.
    pub fn intt(&self, a: &mut [u64])
        requires
            self.wf(),
            old(a)@.len() == self.d,
            forall|p: int| 0 <= p < old(a)@.len() ==> #[trigger] old(a)@[p] < self.q,
        ensures
            final(a)@ == self.intt_spec(old(a)@),
            final(a)@.len() == old(a)@.len(),
            forall|p: int| 0 <= p < final(a)@.len() ==> #[trigger] final(a)@[p] < self.q,
    {
        let ghost a0 = a@;
        let n = self.d;
        let mut t: usize = 1;
        let mut m = n;
        let ghost mut j: nat = self.log_d as nat;
        proof {
            lemma2_to64();
        }
        while m > 1
            invariant
                self.wf(),
                n == self.d,
                a@.len() == self.d,
                forall|p: int| 0 <= p < a@.len() ==> #[trigger] a@[p] < self.q,
                j <= self.log_d,
                m == pow2(j),
                t == pow2((self.log_d - j) as nat),
                m * t == n,
                self.inv_layers(a@, (m / 2) as int) == self.inv_layers(a0, (self.d / 2) as int),
            decreases m,
        {
            proof {
                lemma2_to64();
                lemma_pow2_pos((self.log_d - j) as nat);
                if j == 0 {
                    assert(m == 1);
                }
                lemma_pow2_unfold(j);
                lemma_pow2_unfold((self.log_d - j + 1) as nat);
                lemma_pow2_pos((j - 1) as nat);
            }
            let h = m / 2;
            proof {
                assert(m == 2 * h);
                assert(h * (2 * t) == n) by (nonlinear_arith)
                    requires
                        m * t == n,
                        m == 2 * h,
                ;
                assert((n as int) / (2 * h) == t) by {
                    assert(n == t * (2 * h)) by (nonlinear_arith)
                        requires
                            h * (2 * t) == n,
                    ;
                    lemma_div_multiples_vanish(t as int, 2 * h);
                }
                assert(h <= n) by (nonlinear_arith)
                    requires
                        h * (2 * t) == n,
                        t >= 1,
                ;
            }
            self.inv_layer_exec(a, h, t);
            proof {
                assert(2 * t <= n) by (nonlinear_arith)
                    requires
                        h * (2 * t) == n,
                        h >= 1,
                ;
            }
            t = t * 2;
            m = h;
            proof {
                j = (j - 1) as nat;
            }
        }
        let ghost b = a@;
        proof {
            assert(m == 1);
            assert(b == self.inv_layers(a0, (self.d / 2) as int));
        }
        let n_inv_m = self.n_inv_mont;
        let mut k: usize = 0;
        while k < n
            invariant
                self.wf(),
                n == self.d,
                n_inv_m == self.n_inv_mont,
                a@.len() == self.d,
                b.len() == self.d,
                k <= n,
                forall|p: int| 0 <= p < a@.len() ==> #[trigger] a@[p] < self.q,
                forall|p: int| 0 <= p < k ==> #[trigger] a@[p] == self.mprod(b[p] as int, n_inv_m as int),
                forall|p: int| k <= p < n ==> #[trigger] a@[p] == b[p],
            decreases n - k,
        {
            let x = self.mm(a[k], n_inv_m);
            a[k] = x;
            k = k + 1;
        }
        proof {
            assert(a@ =~= self.intt_spec(a0));
        }
    }
}


impl Ctx {
    /// The negacyclic product through the transform: forward NTT of both
    /// factors, pointwise Montgomery products, inverse NTT.
    pub open spec fn poly_mul_spec(&self, a: Seq<u64>, b: Seq<u64>) -> Seq<u64> {
        let na = self.ntt_spec(a);
        let nb = self.ntt_spec(b);
        self.intt_spec(Seq::new(self.d as nat, |i: int| self.mprod(na[i] as int, nb[i] as int) as u64))
    }

    /// Every value of `a` is reduced modulo `q`.
    pub open spec fn reduced(&self, a: Seq<u64>) -> bool {
        forall|i: int| 0 <= i < a.len() ==> #[trigger] a[i] < self.q
    }

    /// Negacyclic product of two Montgomery-form polynomials of `d`
    /// coefficients, by NTT; the result is in Montgomery form too.
    pub fn poly_mul(&self, a: &[u64], b: &[u64]) -> (r: Vec<u64>)
        requires
            self.wf(),
            a@.len() == self.d,
            b@.len() == self.d,
            self.reduced(a@),
            self.reduced(b@),
        ensures
            r@ == self.poly_mul_spec(a@, b@),
            self.reduced(r@),
    {
        let mut an = slice_to_vec(a);
        let mut bn = slice_to_vec(b);
        self.ntt(an.as_mut_slice());
        self.ntt(bn.as_mut_slice());
        let ghost na = an@;
        let ghost nb = bn@;
        let mut i: usize = 0;
        while i < self.d
            invariant
                self.wf(),
                i <= self.d,
                an@.len() == self.d,
                bn@ == nb,
                nb.len() == self.d,
                na.len() == self.d,
                self.reduced(an@),
                self.reduced(nb),
                forall|k: int| 0 <= k < i ==> #[trigger] an@[k] == self.mprod(na[k] as int, nb[k] as int),
                forall|k: int| i <= k < self.d ==> #[trigger] an@[k] == na[k],
            decreases self.d - i,
        {
            let x = self.mm(an[i], bn[i]);
            an.set(i, x);
            i = i + 1;
        }
        proof {
            assert(an@ =~= Seq::new(self.d as nat, |k: int| self.mprod(na[k] as int, nb[k] as int) as u64));
        }
        self.intt(an.as_mut_slice());
        an
    }

    /// The entrywise sums modulo `q` of two reduced polynomials.
    pub fn poly_add(&self, a: &[u64], b: &[u64]) -> (r: Vec<u64>)
        requires
            self.wf(),
            a@.len() >= self.d,
            b@.len() >= self.d,
            forall|i: int| 0 <= i < self.d ==> #[trigger] a@[i] < self.q && b@[i] < self.q,
        ensures
            r@.len() == self.d,
            forall|i: int| 0 <= i < self.d ==> #[trigger] r@[i] == (a@[i] + b@[i]) % (self.q as int),
            self.reduced(r@),
    {
        let mut r: Vec<u64> = Vec::new();
        let mut i: usize = 0;
        while i < self.d
            invariant
                self.wf(),
                i <= self.d,
                a@.len() >= self.d,
                b@.len() >= self.d,
                forall|k: int| 0 <= k < self.d ==> #[trigger] a@[k] < self.q && b@[k] < self.q,
                r@.len() == i,
                forall|k: int| 0 <= k < i ==> #[trigger] r@[k] == (a@[k] + b@[k]) % (self.q as int),
            decreases self.d - i,
        {
            assert(a@[i as int] < self.q && b@[i as int] < self.q);
            let x = self.add(a[i], b[i]);
            r.push(x);
            i = i + 1;
        }
        proof {
            assert forall|k: int| 0 <= k < r@.len() implies #[trigger] r@[k] < self.q by {
                lemma_mod_bound(a@[k] + b@[k], self.q as int);
            }
        }
        r
    }

    /// The zero polynomial of `d` coefficients.
    pub fn poly_zero(&self) -> (r: Vec<u64>)
        ensures
            r@ == Seq::new(self.d as nat, |i: int| 0u64),
    {
        let r = vec![0u64; self.d];
        proof {
            assert(r@ =~= Seq::new(self.d as nat, |i: int| 0u64));
        }
        r
    }

    /// A uniformly random polynomial in Montgomery form: each coefficient
    /// `x R mod q` for a value `x` drawn below `q`.
    pub fn poly_rand_uniform_mont(&self, rng: &mut StdRng) -> (r: Vec<u64>)
        requires
            self.wf(),
        ensures
            r@.len() == self.d,
            forall|i: int| 0 <= i < self.d ==> #[trigger] is_mont_value(self.q, r@[i] as int),
            self.reduced(r@),
    {
        let mut r: Vec<u64> = Vec::new();
        let mut i: usize = 0;
        while i < self.d
            invariant
                self.wf(),
                i <= self.d,
                r@.len() == i,
                forall|k: int| 0 <= k < i ==> #[trigger] is_mont_value(self.q, r@[k] as int),
                self.reduced(r@),
            decreases self.d - i,
        {
            let x = rng_below_u64(rng, self.q);
            let y = self.to_mont(x);
            proof {
                lemma_mod_bound(x * mont_r(), self.q as int);
                assert(y == mont_form(self.q, x as int));
            }
            r.push(y);
            i = i + 1;
        }
        r
    }
}


/// Term `i` of coefficient `k` of the plain product of `a` and `b` (both of
/// `d` coefficients): `a_i b_{k-i}`, or zero outside the range.
pub open spec fn conv_term(a: Seq<u64>, b: Seq<u64>, d: int, k: int, i: int) -> int {
    if 0 <= k - i < d {
        a[i] * b[k - i]
    } else {
        0
    }
}

/// Coefficient `k` of the plain (unreduced) product of `a` and `b`.
pub open spec fn conv_coeff(a: Seq<u64>, b: Seq<u64>, d: int, k: int) -> int {
    range_sum(|i: int| conv_term(a, b, d, k, i), 0, d)
}

proof fn lemma_conv_partial_bound(a: Seq<u64>, b: Seq<u64>, d: int, k: int, n: int, q: int)
    requires
        0 <= n <= d,
        a.len() == d,
        b.len() == d,
        q >= 1,
        forall|i: int| 0 <= i < d ==> #[trigger] a[i] < q,
        forall|i: int| 0 <= i < d ==> #[trigger] b[i] < q,
    ensures
        0 <= range_sum(|i: int| conv_term(a, b, d, k, i), 0, n) <= n * ((q - 1) * (q - 1)),
    decreases n,
{
    if n > 0 {
        lemma_conv_partial_bound(a, b, d, k, n - 1, q);
        let i = n - 1;
        if 0 <= k - i < d {
            let x = a[i] as int;
            let y = b[k - i] as int;
            assert(0 <= x * y <= (q - 1) * (q - 1)) by (nonlinear_arith)
                requires
                    0 <= x < q,
                    0 <= y < q,
            ;
        }
        assert(n * ((q - 1) * (q - 1)) == (n - 1) * ((q - 1) * (q - 1)) + (q - 1) * (q - 1)) by (nonlinear_arith);
    }
}

impl Ctx {
    /// The negacyclic product of `a` and `b` modulo `X^d + 1` and `q`, from
    /// the plain product: coefficient `k` is `c_k - c_{k+d}`.
    pub open spec fn schoolbook_spec(&self, a: Seq<u64>, b: Seq<u64>) -> Seq<u64> {
        Seq::new(
            self.d as nat,
            |k: int|
                ((conv_coeff(a, b, self.d as int, k) - conv_coeff(a, b, self.d as int, k + self.d)) % (
                self.q as int)) as u64,
        )
    }

    /// Negacyclic product by the schoolbook method on standard-form
    /// (not Montgomery) coefficients, accumulated exactly in `i128`.
    pub fn poly_mul_schoolbook_std(&self, a: &[u64], b: &[u64]) -> (out: Vec<u64>)
        requires
            self.wf(),
            a@.len() == self.d,
            b@.len() == self.d,
            self.reduced(a@),
            self.reduced(b@),
            self.d * ((self.q - 1) * (self.q - 1)) <= i128::MAX,
            2 * self.d <= usize::MAX,
        ensures
            out@ == self.schoolbook_spec(a@, b@),
    {
        let d = self.d;
        let qz = self.q as i128;
        let ghost bound = d * ((self.q - 1) * (self.q - 1));
        let mut c = vec![0i128; 2 * d];
        let mut i: usize = 0;
        while i < d
            invariant
                self.wf(),
                d == self.d,
                a@.len() == d,
                b@.len() == d,
                self.reduced(a@),
                self.reduced(b@),
                bound == d * ((self.q - 1) * (self.q - 1)),
                bound <= i128::MAX,
                i <= d,
                2 * d <= usize::MAX,
                c@.len() == 2 * d,
                forall|k: int|
                    0 <= k < 2 * d ==> #[trigger] c@[k] == range_sum(|x: int| conv_term(a@, b@, d as int, k, x), 0, i as int),
            decreases d - i,
        {
            let ai = a[i] as i128;
            if ai != 0 {
                let mut j: usize = 0;
                while j < d
                    invariant
                        self.wf(),
                        d == self.d,
                        a@.len() == d,
                        b@.len() == d,
                        self.reduced(a@),
                        self.reduced(b@),
                        bound == d * ((self.q - 1) * (self.q - 1)),
                        bound <= i128::MAX,
                        i < d,
                        j <= d,
                        2 * d <= usize::MAX,
                        ai == a@[i as int],
                        c@.len() == 2 * d,
                        forall|k: int|
                            0 <= k < 2 * d ==> #[trigger] c@[k] == range_sum(
                                |x: int| conv_term(a@, b@, d as int, k, x),
                                0,
                                i as int,
                            ) + (if i <= k < i + j {
                                a@[i as int] * b@[k - i]
                            } else {
                                0
                            }),
                    decreases d - j,
                {
                    let k = i + j;
                    proof {
                        lemma_conv_partial_bound(a@, b@, d as int, k as int, i as int, self.q as int);
                        assert(0 <= a@[i as int] * b@[j as int] <= (self.q - 1) * (self.q - 1)) by (nonlinear_arith)
                            requires
                                a@[i as int] < self.q,
                                b@[j as int] < self.q,
                        ;
                        assert(i * ((self.q - 1) * (self.q - 1)) + (self.q - 1) * (self.q - 1) <= bound) by (nonlinear_arith)
                            requires
                                i < d,
                                bound == d * ((self.q - 1) * (self.q - 1)),
                        ;
                    }
                    c[k] = c[k] + ai * (b[j] as i128);
                    j = j + 1;
                }
            }
            proof {
                assert forall|k: int| 0 <= k < 2 * d implies #[trigger] c@[k] == range_sum(
                    |x: int| conv_term(a@, b@, d as int, k, x),
                    0,
                    i + 1,
                ) by {
                    if ai == 0 {
                        assert(a@[i as int] * b@[k - i] == 0) by (nonlinear_arith)
                            requires
                                a@[i as int] == 0,
                        ;
                    }
                }
            }
            i = i + 1;
        }
        let mut out: Vec<u64> = Vec::new();
        let mut k: usize = 0;
        while k < d
            invariant
                self.wf(),
                d == self.d,
                qz == self.q,
                a@.len() == d,
                b@.len() == d,
                self.reduced(a@),
                self.reduced(b@),
                bound == d * ((self.q - 1) * (self.q - 1)),
                bound <= i128::MAX,
                k <= d,
                2 * d <= usize::MAX,
                c@.len() == 2 * d,
                forall|x: int|
                    0 <= x < 2 * d ==> #[trigger] c@[x] == range_sum(|y: int| conv_term(a@, b@, d as int, x, y), 0, d as int),
                out@.len() == k,
                forall|x: int| 0 <= x < k ==> #[trigger] out@[x] == self.schoolbook_spec(a@, b@)[x],
            decreases d - k,
        {
            proof {
                lemma_conv_partial_bound(a@, b@, d as int, k as int, d as int, self.q as int);
                lemma_conv_partial_bound(a@, b@, d as int, (k + d) as int, d as int, self.q as int);
            }
            let v = c[k] - c[k + d];
            let r: i128 = match v.checked_rem_euclid(qz) {
                Some(x) => x,
                None => 0,
            };
            proof {
                lemma_mod_bound(v as int, qz as int);
            }
            out.push(r as u64);
            k = k + 1;
        }
        proof {
            assert(out@ =~= self.schoolbook_spec(a@, b@));
        }
        out
    }
}

} // verus!
