//! Polynomials of `Z_q[X]/(X^256 + 1)` (`Ring`), vectors and square matrices
//! of them, in coefficient (`Degree255`) or NTT representation, and the
//! `Compressed` wrapper for rounded coefficients.
use vstd::prelude::*;
use vstd::arithmetic::power::*;
use vstd::arithmetic::power2::*;
use vstd::arithmetic::div_mod::*;
use vstd::arithmetic::mul::*;
use vstd::bits::*;
use vstd::string::StringExecFns;
use crate::params::{Q, Q64, ZETA, field_q};
use crate::util::{bitrev7, fastmodpow, bit_reverse_spec, lemma_bit_reverse_of_zero, lemma_twiddle_indices};

verus! {

#[derive(Clone, Copy, PartialEq, Eq, Structural, Debug)]
pub enum RingRepresentation {
    Degree255,
    NTT,
}

/// A polynomial of 256 coefficients, each stored as a `u32`, tagged with its
/// representation. Products of two coefficients are formed in `u64`.
#[derive(Clone, Copy, Debug)]
pub struct Ring {
    pub data: [u32; 256],
    pub t: RingRepresentation,
}

/// Every coefficient is below `bound`.
pub open spec fn coeffs_below(d: Seq<u32>, bound: int) -> bool {
    forall|i: int| 0 <= i < d.len() ==> #[trigger] d[i] < bound
}

/// `ZETA^bitrev7(i) mod q`: the twiddle factor of the `i`-th butterfly block.
pub open spec fn zeta_ntt_spec(i: int) -> int {
    pow(ZETA as int, bit_reverse_spec(i as nat, 7)) % field_q()
}

/// `ZETA^(2 bitrev7(i) + 1) mod q`: the modulus `X^2 - gamma_i` of the
/// `i`-th degree-two factor in NTT representation.
pub open spec fn zeta_mult_spec(i: int) -> int {
    pow(ZETA as int, 2 * bit_reverse_spec(i as nat, 7) + 1) % field_q()
}

/// The product of two NTT-form polynomials: in every degree-two factor,
/// `(a0 + a1 X)(b0 + b1 X) mod (X^2 - gamma)`, coefficients reduced mod q.
pub open spec fn ntt_mult_spec(a: Seq<u32>, b: Seq<u32>) -> Seq<u32> {
    Seq::new(
        256,
        |c: int|
            if c % 2 == 0 {
                ((a[c] * b[c] + zeta_mult_spec(c / 2) * (a[c + 1] * b[c + 1])) % field_q()) as u32
            } else {
                ((a[c - 1] * b[c] + a[c] * b[c - 1]) % field_q()) as u32
            },
    )
}

impl Ring {
    /// The zero polynomial in NTT representation.
    pub fn zeroes_ntt() -> (r: Ring)
        ensures
            r.t == RingRepresentation::NTT,
            forall|i: int| 0 <= i < 256 ==> r.data[i] == 0,
    {
        Ring { data: [0u32; 256], t: RingRepresentation::NTT }
    }

    /// The zero polynomial in coefficient representation.
    pub fn zeroes_degree255() -> (r: Ring)
        ensures
            r.t == RingRepresentation::Degree255,
            forall|i: int| 0 <= i < 256 ==> r.data[i] == 0,
    {
        Ring { data: [0u32; 256], t: RingRepresentation::Degree255 }
    }

    /// The 128 NTT twiddle factors `ZETA^bitrev7(i) mod q`.
    pub fn get_zeta_powers_ntt() -> (z: [u32; 128])
        ensures
            forall|i: int| 0 <= i < 128 ==> z[i] == zeta_ntt_spec(i),
    {
        let mut zeta_powers = [0u32; 128];
        zeta_powers[0] = 1;
        proof {
            lemma_bit_reverse_of_zero(7);
            lemma_pow0(ZETA as int);
            lemma_small_mod(1, field_q() as nat);
        }
        let mut i: usize = 1;
        while i < 128
            invariant
                1 <= i <= 128,
                forall|k: int| 0 <= k < i ==> zeta_powers[k] == zeta_ntt_spec(k),
            decreases 128 - i,
        {
            let b = bitrev7(i as u8);
            zeta_powers[i] = fastmodpow(ZETA, b);
            i = i + 1;
        }
        zeta_powers
    }

    /// The 128 moduli `gamma_i = ZETA^(2 bitrev7(i) + 1) mod q` of the
    /// degree-two factors used by NTT-domain multiplication.
    pub fn get_zeta_powers_mult() -> (z: [u32; 128])
        ensures
            forall|i: int| 0 <= i < 128 ==> z[i] == zeta_mult_spec(i),
    {
        let mut zeta_powers = [0u32; 128];
        zeta_powers[0] = ZETA;
        proof {
            lemma_bit_reverse_of_zero(7);
            lemma_pow1(ZETA as int);
            lemma_small_mod(ZETA as nat, field_q() as nat);
        }
        let mut i: usize = 1;
        while i < 128
            invariant
                1 <= i <= 128,
                forall|k: int| 0 <= k < i ==> zeta_powers[k] == zeta_mult_spec(k),
            decreases 128 - i,
        {
            let b = bitrev7(i as u8);
            zeta_powers[i] = fastmodpow(ZETA, 2 * b + 1);
            i = i + 1;
        }
        zeta_powers
    }

    /// Multiply every coefficient by `value`, modulo q.
    pub fn scalar_mul(&mut self, value: u32)
        ensures
            final(self).t == old(self).t,
            forall|i: int|
                0 <= i < 256 ==> final(self).data[i] == (old(self).data[i] * value) % field_q(),
    {
        let val = value as u64;
        let mut i: usize = 0;
        while i < 256
            invariant
                i <= 256,
                val == value,
                self.t == old(self).t,
                forall|k: int| 0 <= k < i ==> self.data[k] == (old(self).data[k] * value) % field_q(),
                forall|k: int| i <= k < 256 ==> self.data[k] == old(self).data[k],
            decreases 256 - i,
        {
            proof {
                lemma_mul_upper_bound(self.data[i as int] as int, 0xffff_ffff, val as int, 0xffff_ffff);
            }
            self.data[i] = ((self.data[i] as u64 * val) % Q64) as u32;
            i = i + 1;
        }
    }

    /// Coefficient-wise sum modulo q.
    pub fn add(&mut self, other: &Ring) -> (ret: &mut Self)
        requires
            forall|i: int| 0 <= i < 256 ==> old(self).data[i] + other.data[i] <= u32::MAX,
        ensures
            ret.t == old(self).t,
            forall|i: int|
                0 <= i < 256 ==> ret.data[i] == (old(self).data[i] + other.data[i]) % field_q(),
            *final(self) == *final(ret),
    {
        let mut i: usize = 0;
        while i < 256
            invariant
                i <= 256,
                self.t == old(self).t,
                forall|k: int| 0 <= k < 256 ==> old(self).data[k] + other.data[k] <= u32::MAX,
                forall|k: int|
                    0 <= k < i ==> self.data[k] == (old(self).data[k] + other.data[k]) % field_q(),
                forall|k: int| i <= k < 256 ==> self.data[k] == old(self).data[k],
            decreases 256 - i,
        {
            self.data[i] = (self.data[i] + other.data[i]) % Q;
            i = i + 1;
        }
        self
    }

    /// Coefficient-wise difference `a + q - b` modulo q.
    pub fn sub(&mut self, other: &Ring) -> (ret: &mut Self)
        requires
            forall|i: int| 0 <= i < 256 ==> old(self).data[i] + field_q() <= u32::MAX,
            forall|i: int| 0 <= i < 256 ==> other.data[i] <= old(self).data[i] + field_q(),
        ensures
            ret.t == old(self).t,
            forall|i: int|
                0 <= i < 256 ==> ret.data[i] == (old(self).data[i] + field_q() - other.data[i])
                    % field_q(),
            *final(self) == *final(ret),
    {
        let mut i: usize = 0;
        while i < 256
            invariant
                i <= 256,
                self.t == old(self).t,
                forall|k: int| 0 <= k < 256 ==> old(self).data[k] + field_q() <= u32::MAX,
                forall|k: int| 0 <= k < 256 ==> other.data[k] <= old(self).data[k] + field_q(),
                forall|k: int|
                    0 <= k < i ==> self.data[k] == (old(self).data[k] + field_q() - other.data[k])
                        % field_q(),
                forall|k: int| i <= k < 256 ==> self.data[k] == old(self).data[k],
            decreases 256 - i,
        {
            self.data[i] = (self.data[i] + Q - other.data[i]) % Q;
            i = i + 1;
        }
        self
    }

    /// Multiplication of two NTT-form polynomials, factor by factor.
    pub fn mult(&mut self, other: &Ring) -> (ret: &mut Self)
        requires
            old(self).t == RingRepresentation::NTT,
            other.t == RingRepresentation::NTT,
            coeffs_below(old(self).data@, 0x8000_0000),
            coeffs_below(other.data@, 0x8000_0000),
        ensures
            ret.t == RingRepresentation::NTT,
            ret.data@ == ntt_mult_spec(old(self).data@, other.data@),
            *final(self) == *final(ret),
    {
        let zeta_powers = Ring::get_zeta_powers_mult();
        let mut i: usize = 0;
        while i < 128
            invariant
                i <= 128,
                self.t == RingRepresentation::NTT,
                coeffs_below(old(self).data@, 0x8000_0000),
                coeffs_below(other.data@, 0x8000_0000),
                forall|k: int| 0 <= k < 128 ==> zeta_powers[k] == zeta_mult_spec(k),
                forall|c: int|
                    0 <= c < 2 * i ==> self.data[c] == ntt_mult_spec(old(self).data@, other.data@)[c],
                forall|c: int| 2 * i <= c < 256 ==> self.data[c] == old(self).data[c],
            decreases 128 - i,
        {
            let gamma = zeta_powers[i] as u64;
            let a0 = self.data[2 * i] as u64;
            let a1 = self.data[2 * i + 1] as u64;
            let b0 = other.data[2 * i] as u64;
            let b1 = other.data[2 * i + 1] as u64;
            proof {
                assert(a0 < 0x8000_0000 && a1 < 0x8000_0000);
                assert(b0 < 0x8000_0000 && b1 < 0x8000_0000);
                lemma_mul_upper_bound(a1 as int, 0x8000_0000, b1 as int, 0x8000_0000);
                lemma_mul_upper_bound(a0 as int, 0x8000_0000, b0 as int, 0x8000_0000);
                lemma_mul_upper_bound(a0 as int, 0x8000_0000, b1 as int, 0x8000_0000);
                lemma_mul_upper_bound(a1 as int, 0x8000_0000, b0 as int, 0x8000_0000);
                lemma_mod_bound(pow(ZETA as int, 2 * bit_reverse_spec(i as nat, 7) + 1), field_q());
            }
            let prod = (a1 * b1) % Q64;
            proof {
                assert(gamma == zeta_mult_spec(i as int));
                assert(gamma < Q64);
                lemma_mul_upper_bound(gamma as int, Q64 as int, prod as int, Q64 as int);
                lemma_mul_mod_noop_right(gamma as int, (a1 * b1) as int, field_q());
                lemma_add_mod_noop((a0 * b0) as int, gamma * prod, field_q());
                lemma_add_mod_noop((a0 * b0) as int, gamma * (a1 * b1), field_q());
                lemma_mul_is_commutative(a0 as int, b1 as int);
                lemma_mul_is_commutative(a1 as int, b0 as int);
            }
            let r_1: u64 = (a0 * b0 + gamma * prod) % Q64;
            let r_2: u64 = (a0 * b1 + a1 * b0) % Q64;
            self.data[2 * i] = r_1 as u32;
            self.data[2 * i + 1] = r_2 as u32;
            proof {
                let sp = ntt_mult_spec(old(self).data@, other.data@);
                assert((2 * i) % 2 == 0 && (2 * i) / 2 == i);
                assert((2 * i + 1) % 2 == 1);
                assert(self.data[2 * i as int] == sp[2 * i as int]);
                assert(self.data[2 * i + 1] == sp[2 * i + 1]);
            }
            i = i + 1;
        }
        self
    }
}

impl PartialEq for Ring {
    /// Equal coefficients (the representation tags are not compared).
    fn eq(&self, other: &Self) -> (r: bool) {
        let mut i: usize = 0;
        while i < 256
            invariant
                i <= 256,
                forall|k: int| 0 <= k < i ==> self.data[k] == other.data[k],
            decreases 256 - i,
        {
            if self.data[i] != other.data[i] {
                return false;
            }
            i = i + 1;
        }
        proof {
            assert(self.data@ =~= other.data@);
        }
        true
    }
}

impl vstd::std_specs::cmp::PartialEqSpecImpl for Ring {
    open spec fn obeys_eq_spec() -> bool {
        true
    }

    open spec fn eq_spec(&self, other: &Self) -> bool {
        self.data@ == other.data@
    }
}


/// Coefficient-wise sum modulo q.
pub open spec fn add_mod_spec(x: Seq<u32>, y: Seq<u32>) -> Seq<u32> {
    Seq::new(256, |c: int| ((x[c] + y[c]) % field_q()) as u32)
}

/// The zero polynomial's coefficients.
pub open spec fn zero_coeffs() -> Seq<u32> {
    Seq::new(256, |c: int| 0u32)
}

/// The coefficient sequences of a sequence of rings.
pub open spec fn ring_coeffs(v: Seq<Ring>) -> Seq<Seq<u32>> {
    v.map_values(|r: Ring| r.data@)
}

/// `sum_{i < n} a[i] * b[i]` of NTT-form polynomials (given by their
/// coefficients), accumulated modulo q.
pub open spec fn inner_product_spec(a: Seq<Seq<u32>>, b: Seq<Seq<u32>>, n: int) -> Seq<u32>
    decreases n,
{
    if n <= 0 {
        zero_coeffs()
    } else {
        add_mod_spec(
            inner_product_spec(a, b, n - 1),
            ntt_mult_spec(a[n - 1], b[n - 1]),
        )
    }
}

/// Every ring of `v` is in NTT form with coefficients below `2^31`.
pub open spec fn ntt_rings_below(v: Seq<Ring>) -> bool {
    forall|i: int|
        0 <= i < v.len() ==> (#[trigger] v[i]).t == RingRepresentation::NTT && coeffs_below(
            v[i].data@,
            0x8000_0000,
        )
}

/// Accumulated inner products have 256 coefficients, all in `[0, q)`.
pub proof fn lemma_inner_product_bound(a: Seq<Seq<u32>>, b: Seq<Seq<u32>>, n: int)
    ensures
        coeffs_below(inner_product_spec(a, b, n), field_q()),
        inner_product_spec(a, b, n).len() == 256,
    decreases n,
{
    if n > 0 {
        lemma_inner_product_bound(a, b, n - 1);
    }
}

/// A vector of `K` polynomials, all in the same representation.
#[derive(Clone, Copy, Debug)]
pub struct Vector<const K: usize> {
    pub data: [Ring; K],
}

impl<const K: usize> Vector<K> {
    /// The zero vector in NTT representation.
    pub fn new_ntt() -> (v: Vector<K>)
        ensures
            forall|i: int|
                0 <= i < K ==> (#[trigger] v.data[i]).t == RingRepresentation::NTT && v.data[i].data@
                    == zero_coeffs(),
    {
        let z = Ring::zeroes_ntt();
        proof {
            assert(z.data@ =~= zero_coeffs());
        }
        Vector { data: [z; K] }
    }

    /// The zero vector in coefficient representation.
    pub fn new_degree255() -> (v: Vector<K>)
        ensures
            forall|i: int|
                0 <= i < K ==> (#[trigger] v.data[i]).t == RingRepresentation::Degree255
                    && v.data[i].data@ == zero_coeffs(),
    {
        let z = Ring::zeroes_degree255();
        proof {
            assert(z.data@ =~= zero_coeffs());
        }
        Vector { data: [z; K] }
    }

    /// Ring-wise sum modulo q.
    pub fn add(&mut self, other: &Vector<K>) -> (ret: &mut Self)
        requires
            forall|i: int, c: int|
                0 <= i < K && 0 <= c < 256 ==> old(self).data[i].data[c] + other.data[i].data[c]
                    <= u32::MAX,
        ensures
            forall|i: int|
                0 <= i < K ==> (#[trigger] ret.data[i]).t == old(self).data[i].t && ret.data[i].data@
                    == add_mod_spec(old(self).data[i].data@, other.data[i].data@),
            *final(self) == *final(ret),
    {
        let mut i: usize = 0;
        while i < K
            invariant
                i <= K,
                forall|j: int, c: int|
                    0 <= j < K && 0 <= c < 256 ==> old(self).data[j].data[c] + other.data[j].data[c]
                        <= u32::MAX,
                forall|j: int|
                    0 <= j < i ==> (#[trigger] self.data[j]).t == old(self).data[j].t
                        && self.data[j].data@ == add_mod_spec(
                        old(self).data[j].data@,
                        other.data[j].data@,
                    ),
                forall|j: int| i <= j < K ==> #[trigger] self.data[j] == old(self).data[j],
            decreases K - i,
        {
            let mut r = self.data[i];
            r.add(&other.data[i]);
            proof {
                assert(r.data@ =~= add_mod_spec(old(self).data[i as int].data@, other.data[i as int].data@));
            }
            self.data[i] = r;
            i = i + 1;
        }
        self
    }

    /// `sum_i self[i] * other[i]` of NTT-form vectors.
    pub fn inner_product(self, other: Vector<K>) -> (r: Ring)
        requires
            K > 0,
            ntt_rings_below(self.data@),
            ntt_rings_below(other.data@),
        ensures
            r.t == RingRepresentation::NTT,
            r.data@ == inner_product_spec(ring_coeffs(self.data@), ring_coeffs(other.data@), K as int),
    {
        let mut result = match self.data[0].t {
            RingRepresentation::Degree255 => Ring::zeroes_degree255(),
            RingRepresentation::NTT => Ring::zeroes_ntt(),
        };
        proof {
            assert(self.data@[0].t == RingRepresentation::NTT);
            assert(result.data@ =~= inner_product_spec(ring_coeffs(self.data@), ring_coeffs(other.data@), 0));
        }
        let mut i: usize = 0;
        while i < K
            invariant
                i <= K,
                ntt_rings_below(self.data@),
                ntt_rings_below(other.data@),
                result.t == RingRepresentation::NTT,
                result.data@ == inner_product_spec(ring_coeffs(self.data@), ring_coeffs(other.data@), i as int),
            decreases K - i,
        {
            let mut a = self.data[i];
            proof {
                assert(self.data@[i as int].t == RingRepresentation::NTT);
                assert(other.data@[i as int].t == RingRepresentation::NTT);
                lemma_inner_product_bound(ring_coeffs(self.data@), ring_coeffs(other.data@), i as int);
            }
            a.mult(&other.data[i]);
            proof {
                assert forall|c: int| 0 <= c < 256 implies result.data[c] + a.data[c] <= u32::MAX by {
                    assert(result.data[c] < field_q());
                    assert(a.data@[c] == ntt_mult_spec(self.data@[i as int].data@, other.data@[i as int].data@)[c]);
                }
            }
            result.add(&a);
            proof {
                assert(result.data@ =~= inner_product_spec(ring_coeffs(self.data@), ring_coeffs(other.data@), i + 1));
            }
            i = i + 1;
        }
        result
    }
}

impl<const K: usize> PartialEq for Vector<K> {
    /// Equal coefficients in every ring.
    fn eq(&self, other: &Self) -> (r: bool) {
        let mut i: usize = 0;
        while i < K
            invariant
                i <= K,
                forall|k: int| 0 <= k < i ==> (#[trigger] self.data[k]).data@ == other.data[k].data@,
            decreases K - i,
        {
            if self.data[i] != other.data[i] {
                return false;
            }
            i = i + 1;
        }
        true
    }
}

impl<const K: usize> vstd::std_specs::cmp::PartialEqSpecImpl for Vector<K> {
    open spec fn obeys_eq_spec() -> bool {
        true
    }

    open spec fn eq_spec(&self, other: &Self) -> bool {
        forall|k: int| 0 <= k < K ==> (#[trigger] self.data[k]).data@ == other.data[k].data@
    }
}

/// The `i`-th column of a square matrix of polynomials.
pub open spec fn column<const K: usize>(m: [[Ring; K]; K], i: int) -> Seq<Ring> {
    Seq::new(K as nat, |j: int| m[j][i])
}

/// A `K x K` matrix of polynomials.
#[derive(Clone, Copy, Debug)]
pub struct Matrix<const K: usize> {
    pub data: [[Ring; K]; K],
}

impl<const K: usize> Matrix<K> {
    /// The zero matrix in NTT representation.
    pub fn new_ntt() -> (m: Matrix<K>)
        ensures
            forall|i: int, j: int|
                0 <= i < K && 0 <= j < K ==> (#[trigger] m.data[i][j]).t == RingRepresentation::NTT
                    && m.data[i][j].data@ == zero_coeffs(),
    {
        let z = Ring::zeroes_ntt();
        proof {
            assert(z.data@ =~= zero_coeffs());
        }
        Matrix { data: [[z; K]; K] }
    }

    /// `A * v`: entry `i` is `sum_j A[i][j] * v[j]` (NTT form).
    pub fn right_vector_multiply(self, vector: &Vector<K>) -> (r: Vector<K>)
        requires
            forall|i: int| 0 <= i < K ==> ntt_rings_below(#[trigger] self.data[i]@),
            ntt_rings_below(vector.data@),
        ensures
            forall|i: int|
                0 <= i < K ==> (#[trigger] r.data[i]).t == RingRepresentation::NTT && r.data[i].data@
                    == inner_product_spec(ring_coeffs(self.data[i]@), ring_coeffs(vector.data@), K as int),
    {
        let mut result = Vector::<K>::new_ntt();
        let mut i: usize = 0;
        while i < K
            invariant
                i <= K,
                forall|a: int| 0 <= a < K ==> ntt_rings_below(#[trigger] self.data[a]@),
                ntt_rings_below(vector.data@),
                forall|a: int|
                    0 <= a < i ==> (#[trigger] result.data[a]).t == RingRepresentation::NTT
                        && result.data[a].data@ == inner_product_spec(
                        ring_coeffs(self.data[a]@),
                        ring_coeffs(vector.data@),
                        K as int,
                    ),
            decreases K - i,
        {
            let row = Vector { data: self.data[i] };
            let col = Vector { data: vector.data };
            if K > 0 {
                result.data[i] = row.inner_product(col);
            }
            i = i + 1;
        }
        result
    }

    /// `A^T * v`: entry `i` is `sum_j A[j][i] * v[j]` (NTT form).
    pub fn left_vector_multiply(self, vector: &Vector<K>) -> (r: Vector<K>)
        requires
            forall|i: int| 0 <= i < K ==> ntt_rings_below(#[trigger] self.data[i]@),
            ntt_rings_below(vector.data@),
        ensures
            forall|i: int|
                0 <= i < K ==> (#[trigger] r.data[i]).t == RingRepresentation::NTT && r.data[i].data@
                    == inner_product_spec(ring_coeffs(column(self.data, i)), ring_coeffs(vector.data@), K as int),
    {
        let mut result = Vector::<K>::new_ntt();
        let mut i: usize = 0;
        while i < K
            invariant
                i <= K,
                forall|a: int| 0 <= a < K ==> ntt_rings_below(#[trigger] self.data[a]@),
                ntt_rings_below(vector.data@),
                forall|a: int|
                    0 <= a < i ==> (#[trigger] result.data[a]).t == RingRepresentation::NTT
                        && result.data[a].data@ == inner_product_spec(
                        ring_coeffs(column(self.data, a)),
                        ring_coeffs(vector.data@),
                        K as int,
                    ),
            decreases K - i,
        {
            let mut col_i = Vector::<K>::new_ntt();
            let mut j: usize = 0;
            while j < K
                invariant
                    j <= K,
                    i < K,
                    forall|b: int| 0 <= b < j ==> #[trigger] col_i.data[b] == self.data[b][i as int],
                decreases K - j,
            {
                col_i.data[j] = self.data[j][i];
                j = j + 1;
            }
            proof {
                assert(col_i.data@ =~= column(self.data, i as int));
                assert forall|b: int| 0 <= b < K implies (#[trigger] col_i.data@[b]).t == RingRepresentation::NTT
                    && coeffs_below(col_i.data@[b].data@, 0x8000_0000) by {
                    assert(ntt_rings_below(self.data[b]@));
                    assert(self.data[b]@[i as int] == self.data[b][i as int]);
                }
            }
            let v = Vector { data: vector.data };
            if K > 0 {
                result.data[i] = col_i.inner_product(v);
            }
            i = i + 1;
        }
        result
    }
}


/// A compressed polynomial or vector: every coefficient rounded to `D` bits.
#[derive(PartialEq, Clone, Copy, Debug)]
pub struct Compressed<const D: usize, T>(pub T);

/// The constants of `D`-bit compression: `2^(D-1)` and the mask `2^D - 1`.
pub trait CompressionConstants<const D: usize> {
    const POW_HALF: u32;
    const BITMASK: u32;
}

impl<const D: usize, T> CompressionConstants<D> for Compressed<D, T> {
    const POW_HALF: u32 = 1 << (D - 1);
    const BITMASK: u32 = (1 << D) - 1;
}

/// `round(x * 2^d / q) mod 2^d`, rounding halves up.
pub open spec fn compress_coeff(x: int, d: nat) -> int {
    ((x * pow2(d) + field_q() / 2) / field_q()) % (pow2(d) as int)
}

/// `round(x * q / 2^d)`, truncated to 32 bits.
pub open spec fn decompress_coeff(x: int, d: nat) -> u32 {
    ((x * field_q() + pow2((d - 1) as nat)) / (pow2(d) as int)) as u32
}

proof fn lemma_compress_coeff_exec(x: u32, d: usize, mask: u32, shifted: u64, r: u32)
    requires
        1 <= d < 32,
        mask == (pow2(d as nat) - 1) as u32,
        shifted == (x as u64) << (d as u64),
        r == ((((shifted + Q64 / 2) as u64) / Q64) as u32) & mask,
    ensures
        r == compress_coeff(x as int, d as nat),
{
    let xs = x as u64;
    lemma_u32_pow2_no_overflow(d as nat);
    lemma_pow2_strictly_increases(d as nat, 32);
    lemma2_to64();
    lemma2_to64_rest();
    lemma_mul_upper_bound(xs as int, 0xffff_ffff, pow2(d as nat) as int, 0x8000_0000);
    lemma_u64_shl_is_mul(xs, d as u64);
    let v: u64 = ((shifted + Q64 / 2) as u64) / Q64;
    let w: u32 = v as u32;
    assert(w == v % 0x1_0000_0000) by (bit_vector) requires w == v as u32;
    lemma_u32_low_bits_mask_is_mod(w, d as nat);
    assert(mask == low_bits_mask(d as nat) as u32);
    lemma_pow2_adds(d as nat, (32 - d) as nat);
    assert(0x1_0000_0000 == pow2(d as nat) * pow2((32 - d) as nat));
    lemma_mod_mod(v as int, pow2(d as nat) as int, pow2((32 - d) as nat) as int);
    lemma_mul_is_commutative(pow2(d as nat) as int, pow2((32 - d) as nat) as int);
}

proof fn lemma_decompress_coeff_exec(x: u32, d: usize, half: u32, r: u32)
    requires
        1 <= d < 32,
        half == pow2((d - 1) as nat),
        r == (((x as u64) * Q64 + half as u64) as u64 >> (d as u64)) as u32,
    ensures
        r == decompress_coeff(x as int, d as nat),
{
    lemma_mul_upper_bound(x as int, 0xffff_ffff, Q64 as int, Q64 as int);
    lemma_pow2_strictly_increases((d - 1) as nat, 32);
    lemma2_to64_rest();
    let v: u64 = ((x as u64) * Q64 + half as u64) as u64;
    lemma_u64_shr_is_div(v, d as u64);
}

/// `2^d - 1`, the value of `BITMASK` for `d`-bit compression.
fn compression_bitmask(d: usize) -> (m: u32)
    requires
        1 <= d < 32,
    ensures
        m == (pow2(d as nat) - 1) as u32,
        m as int == pow2(d as nat) - 1,
{
    proof {
        lemma_u64_pow2_no_overflow(d as nat);
        lemma_pow2_strictly_increases(d as nat, 32);
        lemma2_to64_rest();
        lemma2_to64();
        lemma_u64_shl_is_mul(1, d as u64);
    }
    let p: u64 = 1u64 << (d as u64);
    assert(p == pow2(d as nat));
    assert(p < 0x1_0000_0000);
    (p - 1) as u32
}

/// `2^(d-1)`, the value of `POW_HALF` for `d`-bit compression.
fn compression_pow_half(d: usize) -> (h: u32)
    requires
        1 <= d < 32,
    ensures
        h == pow2((d - 1) as nat),
{
    proof {
        lemma_u64_pow2_no_overflow((d - 1) as nat);
        lemma_pow2_strictly_increases((d - 1) as nat, 32);
        lemma2_to64_rest();
        lemma2_to64();
        lemma_u64_shl_is_mul(1, (d - 1) as u64);
    }
    let p: u64 = 1u64 << ((d - 1) as u64);
    assert(p == pow2((d - 1) as nat));
    assert(p < 0x1_0000_0000);
    p as u32
}

impl<const D: usize> Compressed<D, Ring> {
    /// Compress every coefficient to `D` bits.
    pub fn compress(ring: Ring) -> (r: Compressed<D, Ring>)
        requires
            1 <= D < 32,
        ensures
            r.0.t == ring.t,
            forall|i: int|
                0 <= i < 256 ==> r.0.data[i] == compress_coeff(ring.data[i] as int, D as nat),
    {
        let mut ring = ring;
        let ghost orig = ring;
        let bitmask: u32 = compression_bitmask(D);
        let mut i: usize = 0;
        while i < 256
            invariant
                i <= 256,
                1 <= D < 32,
                bitmask == (pow2(D as nat) - 1) as u32,
                ring.t == orig.t,
                forall|k: int| 0 <= k < i ==> ring.data[k] == compress_coeff(orig.data[k] as int, D as nat),
                forall|k: int| i <= k < 256 ==> ring.data[k] == orig.data[k],
            decreases 256 - i,
        {
            let x = ring.data[i];
            let shifted = (x as u64) << (D as u64);
            proof {
                lemma_u32_pow2_no_overflow(D as nat);
                lemma_pow2_strictly_increases(D as nat, 32);
                lemma2_to64();
                lemma2_to64_rest();
                lemma_mul_upper_bound(x as int, 0xffff_ffff, pow2(D as nat) as int, 0x8000_0000);
                lemma_u64_shl_is_mul(x as u64, D as u64);
            }
            let r = ((shifted + Q64 / 2) / Q64) as u32 & bitmask;
            proof {
                lemma_compress_coeff_exec(x, D, bitmask, shifted, r);
            }
            ring.data[i] = r;
            i = i + 1;
        }
        Compressed(ring)
    }

    /// Decompress every coefficient from `D` bits back to `[0, q]`.
    pub fn decompress(self) -> (r: Ring)
        requires
            1 <= D < 32,
        ensures
            r.t == self.0.t,
            forall|i: int|
                0 <= i < 256 ==> r.data[i] == decompress_coeff(self.0.data[i] as int, D as nat),
    {
        let Compressed(ring) = self;
        let mut ring = ring;
        let half = compression_pow_half(D);
        let mut i: usize = 0;
        while i < 256
            invariant
                i <= 256,
                1 <= D < 32,
                half == pow2((D - 1) as nat),
                ring.t == self.0.t,
                forall|k: int|
                    0 <= k < i ==> ring.data[k] == decompress_coeff(self.0.data[k] as int, D as nat),
                forall|k: int| i <= k < 256 ==> ring.data[k] == self.0.data[k],
            decreases 256 - i,
        {
            let x = ring.data[i];
            proof {
                lemma_mul_upper_bound(x as int, 0xffff_ffff, Q64 as int, Q64 as int);
            }
            let r = (((x as u64) * Q64 + half as u64) >> (D as u64)) as u32;
            proof {
                lemma_decompress_coeff_exec(x, D, half, r);
            }
            ring.data[i] = r;
            i = i + 1;
        }
        ring
    }
}

impl<const D: usize, const K: usize> Compressed<D, Vector<K>> {
    /// Compress every coefficient of every ring to `D` bits.
    pub fn compress(vector: Vector<K>) -> (r: Compressed<D, Vector<K>>)
        requires
            1 <= D < 32,
        ensures
            forall|i: int, c: int|
                0 <= i < K && 0 <= c < 256 ==> (#[trigger] r.0.data[i].data[c]) == compress_coeff(
                    vector.data[i].data[c] as int,
                    D as nat,
                ),
            forall|i: int| 0 <= i < K ==> (#[trigger] r.0.data[i]).t == vector.data[i].t,
    {
        let mut vector = vector;
        let ghost orig = vector;
        let mut i: usize = 0;
        while i < K
            invariant
                i <= K,
                1 <= D < 32,
                forall|j: int, c: int|
                    0 <= j < i && 0 <= c < 256 ==> (#[trigger] vector.data[j].data[c])
                        == compress_coeff(orig.data[j].data[c] as int, D as nat),
                forall|j: int| 0 <= j < K ==> (#[trigger] vector.data[j]).t == orig.data[j].t,
                forall|j: int| i <= j < K ==> #[trigger] vector.data[j] == orig.data[j],
            decreases K - i,
        {
            let c = Compressed::<D, Ring>::compress(vector.data[i]);
            vector.data[i] = c.0;
            i = i + 1;
        }
        Compressed(vector)
    }

    /// Decompress every coefficient of every ring from `D` bits.
    pub fn decompress(self) -> (r: Vector<K>)
        requires
            1 <= D < 32,
        ensures
            forall|i: int, c: int|
                0 <= i < K && 0 <= c < 256 ==> (#[trigger] r.data[i].data[c]) == decompress_coeff(
                    self.0.data[i].data[c] as int,
                    D as nat,
                ),
            forall|i: int| 0 <= i < K ==> (#[trigger] r.data[i]).t == self.0.data[i].t,
    {
        let Compressed(vector) = self;
        let mut vector = vector;
        let mut i: usize = 0;
        while i < K
            invariant
                i <= K,
                1 <= D < 32,
                forall|j: int, c: int|
                    0 <= j < i && 0 <= c < 256 ==> (#[trigger] vector.data[j].data[c])
                        == decompress_coeff(self.0.data[j].data[c] as int, D as nat),
                forall|j: int| 0 <= j < K ==> (#[trigger] vector.data[j]).t == self.0.data[j].t,
                forall|j: int| i <= j < K ==> #[trigger] vector.data[j] == self.0.data[j],
            decreases K - i,
        {
            let r = Compressed::<D, Ring>(vector.data[i]).decompress();
            vector.data[i] = r;
            i = i + 1;
        }
        vector
    }
}


/// The butterfly lengths of the NTT layers: `1, 2, 4, ..., 128`.
pub open spec fn is_layer_len(len: int) -> bool {
    len == 1 || len == 2 || len == 4 || len == 8 || len == 16 || len == 32 || len == 64 || len
        == 128
}

/// One Cooley-Tukey layer of the forward NTT with butterflies of length
/// `len`: block `b` (of `2 len` coefficients) uses the twiddle factor of index
/// `128 / len + b` and maps `(u, v)` to `(u + z v, u - z v)` modulo q.
pub open spec fn ntt_layer(d: Seq<u32>, len: int) -> Seq<u32> {
    Seq::new(
        256,
        |idx: int|
            {
                let z = zeta_ntt_spec(128int / len + idx / (2 * len));
                if idx % (2 * len) < len {
                    ((d[idx] + (z * d[idx + len]) % field_q()) % field_q()) as u32
                } else {
                    ((d[idx - len] + field_q() - (z * d[idx]) % field_q()) % field_q()) as u32
                }
            },
    )
}

/// The forward NTT layers of lengths `len, len / 2, ..., 2`, in that order.
pub open spec fn ntt_layers(d: Seq<u32>, len: int) -> Seq<u32>
    decreases len,
{
    if len < 2 {
        d
    } else {
        ntt_layers(ntt_layer(d, len), len / 2)
    }
}

/// The forward NTT: the seven layers of lengths `128, 64, ..., 2`.
pub open spec fn ntt_spec(d: Seq<u32>) -> Seq<u32> {
    ntt_layers(d, 128)
}

/// One Gentleman-Sande layer of the inverse NTT with butterflies of length
/// `len`: block `b` uses the twiddle factor of index `256 / len - 1 - b` and
/// maps `(u, v)` to `(u + v, z (v - u))` modulo q.
pub open spec fn intt_layer(d: Seq<u32>, len: int) -> Seq<u32> {
    Seq::new(
        256,
        |idx: int|
            {
                let z = zeta_ntt_spec(256int / len - 1 - idx / (2 * len));
                if idx % (2 * len) < len {
                    ((d[idx + len] + d[idx]) % field_q()) as u32
                } else {
                    ((z * (field_q() + d[idx] - d[idx - len])) % field_q()) as u32
                }
            },
    )
}

/// The inverse NTT layers of lengths `len, 2 len, ..., 128`, in that order.
pub open spec fn intt_layers(d: Seq<u32>, len: int) -> Seq<u32>
    decreases 256 - len,
{
    if len > 128 || len < 1 {
        d
    } else {
        intt_layers(intt_layer(d, len), 2 * len)
    }
}

/// `128^-1 mod q`, the normalisation of the inverse NTT.
pub const INV_128: u32 = 682286673;

/// The inverse NTT: the layers of lengths `2, 4, ..., 128`, then every
/// coefficient multiplied by `128^-1` modulo q.
pub open spec fn intt_spec(d: Seq<u32>) -> Seq<u32> {
    Seq::new(256, |i: int| ((intt_layers(d, 2)[i] * INV_128) % field_q()) as u32)
}

pub(crate) proof fn lemma_block_index(b: int, len: int, p: int)
    requires
        len >= 1,
        b >= 0,
        0 <= p < 2 * len,
    ensures
        (2 * len * b + p) / (2 * len) == b,
        (2 * len * b + p) % (2 * len) == p,
{
    lemma_mul_is_commutative(2 * len, b);
    lemma_fundamental_div_mod_converse(2 * len * b + p, 2 * len, b, p);
}

proof fn lemma_intt_layer_bound(d: Seq<u32>, len: int, i: int)
    requires
        len >= 1,
        0 <= i < 256,
    ensures
        intt_layer(d, len)[i] < field_q(),
{
    let z = zeta_ntt_spec(256int / len - 1 - i / (2 * len));
    if i % (2 * len) < len {
        lemma_mod_bound(d[i + len] + d[i], field_q());
    } else {
        lemma_mod_bound(z * (field_q() + d[i] - d[i - len]), field_q());
    }
}

pub(crate) proof fn lemma_layer_bounds(len: int, b: int)
    requires
        is_layer_len(len),
        len >= 2,
        b >= 0,
        2 * len * b < 256,
    ensures
        2 * len * b + 2 * len <= 256,
        128int / len + b < 128,
        0 <= 256int / len - 1 - b < 128,
        256int / len - 1 - b >= 1,
{
    if len == 2 {
        assert(2 * len * b == 4 * b);
    } else if len == 4 {
        assert(2 * len * b == 8 * b);
    } else if len == 8 {
        assert(2 * len * b == 16 * b);
    } else if len == 16 {
        assert(2 * len * b == 32 * b);
    } else if len == 32 {
        assert(2 * len * b == 64 * b);
    } else if len == 64 {
        assert(2 * len * b == 128 * b);
    } else {
        assert(2 * len * b == 256 * b);
    }
}

/// One forward butterfly block `[start, start + 2 len)` with factor `zeta`.
fn ntt_block(data: &mut [u32; 256], start: usize, len: usize, zeta: u64)
    requires
        len >= 1,
        start + 2 * len <= 256,
        zeta < Q64,
    ensures
        forall|i: int|
            start <= i < start + len ==> final(data)[i] == ((old(data)[i] + (zeta * old(data)[i
                + len]) % field_q()) % field_q()) as u32,
        forall|i: int|
            start + len <= i < start + 2 * len ==> final(data)[i] == ((old(data)[i - len]
                + field_q() - (zeta * old(data)[i]) % field_q()) % field_q()) as u32,
        forall|i: int|
            0 <= i < 256 && !(start <= i < start + 2 * len) ==> final(data)[i] == old(data)[i],
{
    let mut j: usize = start;
    while j < start + len
        invariant
            start <= j <= start + len,
            len >= 1,
            start + 2 * len <= 256,
            zeta < Q64,
            forall|i: int|
                start <= i < j ==> data[i] == ((old(data)[i] + (zeta * old(data)[i + len])
                    % field_q()) % field_q()) as u32,
            forall|i: int|
                start + len <= i < j + len ==> data[i] == ((old(data)[i - len] + field_q() - (zeta
                    * old(data)[i]) % field_q()) % field_q()) as u32,
            forall|i: int|
                0 <= i < 256 && !(start <= i < j) && !(start + len <= i < j + len) ==> data[i]
                    == old(data)[i],
        decreases start + len - j,
    {
        proof {
            lemma_mul_upper_bound(zeta as int, Q64 as int, data[j + len as int] as int, 0xffff_ffff);
        }
        let t = (zeta * data[j + len] as u64) % Q64;
        let dj = data[j] as u64;
        data[j + len] = ((dj + Q64 - t) % Q64) as u32;
        data[j] = ((dj + t) % Q64) as u32;
        j = j + 1;
    }
}

/// One inverse butterfly block `[start, start + 2 len)` with factor `zeta`.
fn intt_block(data: &mut [u32; 256], start: usize, len: usize, zeta: u64)
    requires
        len >= 1,
        start + 2 * len <= 256,
        zeta < Q64,
        coeffs_below(old(data)@, field_q()),
    ensures
        forall|i: int|
            start <= i < start + len ==> final(data)[i] == ((old(data)[i + len] + old(data)[i])
                % field_q()) as u32,
        forall|i: int|
            start + len <= i < start + 2 * len ==> final(data)[i] == ((zeta * (field_q()
                + old(data)[i] - old(data)[i - len])) % field_q()) as u32,
        forall|i: int|
            0 <= i < 256 && !(start <= i < start + 2 * len) ==> final(data)[i] == old(data)[i],
{
    let mut j: usize = start;
    while j < start + len
        invariant
            start <= j <= start + len,
            len >= 1,
            start + 2 * len <= 256,
            zeta < Q64,
            coeffs_below(old(data)@, field_q()),
            forall|i: int|
                start <= i < j ==> data[i] == ((old(data)[i + len] + old(data)[i]) % field_q()) as u32,
            forall|i: int|
                start + len <= i < j + len ==> data[i] == ((zeta * (field_q() + old(data)[i]
                    - old(data)[i - len])) % field_q()) as u32,
            forall|i: int|
                0 <= i < 256 && !(start <= i < j) && !(start + len <= i < j + len) ==> data[i]
                    == old(data)[i],
        decreases start + len - j,
    {
        let t = data[j];
        let u = data[j + len];
        proof {
            assert(old(data)@[j as int] < field_q());
            assert(old(data)@[j + len] < field_q());
        }
        data[j] = (u + t) % Q;
        let w: u32 = Q + u - t;
        proof {
            lemma_mul_upper_bound(zeta as int, Q64 as int, w as int, 0xffff_ffff);
        }
        data[j + len] = ((zeta * w as u64) % Q64) as u32;
        j = j + 1;
    }
}

/// One forward NTT layer, in place.
fn ntt_layer_exec(data: &mut [u32; 256], len: usize, zetas: &[u32; 128])
    requires
        is_layer_len(len as int),
        len >= 2,
        forall|i: int| 0 <= i < 128 ==> zetas[i] == zeta_ntt_spec(i),
    ensures
        final(data)@ == ntt_layer(old(data)@, len as int),
{
    let ghost d0 = data@;
    let ghost lay = ntt_layer(d0, len as int);
    let mut start: usize = 0;
    let mut k: usize = 128 / len;
    let ghost mut b: int = 0;
    while start < 256
        invariant
            is_layer_len(len as int),
            len >= 2,
            forall|i: int| 0 <= i < 128 ==> zetas[i] == zeta_ntt_spec(i),
            lay == ntt_layer(d0, len as int),
            b >= 0,
            start == 2 * len * b,
            k == 128int / (len as int) + b,
            start <= 256,
            forall|i: int| 0 <= i < start ==> data[i] == lay[i],
            forall|i: int| start <= i < 256 ==> data[i] == d0[i],
        decreases 256 - start,
    {
        proof {
            lemma_layer_bounds(len as int, b);
        }
        proof {
            lemma_mod_bound(pow(ZETA as int, bit_reverse_spec(k as nat, 7)), field_q());
            assert(zetas[k as int] == zeta_ntt_spec(k as int));
        }
        let zeta = zetas[k] as u64;
        k = k + 1;
        let ghost before = data@;
        ntt_block(data, start, len, zeta);
        proof {
            assert forall|i: int| 0 <= i < start + 2 * len implies data[i] == lay[i] by {
                if i >= start {
                    if i < start + len {
                        lemma_block_index(b, len as int, i - start);
                    } else {
                        lemma_block_index(b, len as int, i - start);
                        lemma_block_index(b, len as int, i - len - start);
                    }
                }
            }
        }
        start = start + 2 * len;
        proof {
            b = b + 1;
            lemma_mul_is_distributive_add(2 * len as int, b - 1, 1);
        }
    }
    proof {
        assert(data@ =~= lay);
    }
}

/// One inverse NTT layer, in place.
fn intt_layer_exec(data: &mut [u32; 256], len: usize, zetas: &[u32; 128])
    requires
        is_layer_len(len as int),
        len >= 2,
        forall|i: int| 0 <= i < 128 ==> zetas[i] == zeta_ntt_spec(i),
        coeffs_below(old(data)@, field_q()),
    ensures
        final(data)@ == intt_layer(old(data)@, len as int),
        coeffs_below(final(data)@, field_q()),
{
    let ghost d0 = data@;
    let ghost lay = intt_layer(d0, len as int);
    let mut start: usize = 0;
    let mut k: usize = 256 / len - 1;
    let ghost mut b: int = 0;
    while start < 256
        invariant
            is_layer_len(len as int),
            len >= 2,
            forall|i: int| 0 <= i < 128 ==> zetas[i] == zeta_ntt_spec(i),
            lay == intt_layer(d0, len as int),
            d0.len() == 256,
            coeffs_below(d0, field_q()),
            b >= 0,
            start == 2 * len * b,
            k == 256int / (len as int) - 1 - b,
            start <= 256,
            forall|i: int| 0 <= i < start ==> data[i] == lay[i],
            forall|i: int| start <= i < 256 ==> data[i] == d0[i],
        decreases 256 - start,
    {
        proof {
            lemma_layer_bounds(len as int, b);
        }
        proof {
            lemma_mod_bound(pow(ZETA as int, bit_reverse_spec(k as nat, 7)), field_q());
            assert(zetas[k as int] == zeta_ntt_spec(k as int));
        }
        let zeta = zetas[k] as u64;
        k = k - 1;
        let ghost before = data@;
        proof {
            assert forall|i: int| 0 <= i < 256 implies #[trigger] data@[i] < field_q() by {
                if i < start {
                    lemma_intt_layer_bound(d0, len as int, i);
                } else {
                    assert(data[i] == d0[i]);
                    assert(d0[i] < field_q());
                }
            }
        }
        intt_block(data, start, len, zeta);
        proof {
            assert forall|i: int| 0 <= i < start + 2 * len implies data[i] == lay[i] by {
                if i >= start {
                    if i < start + len {
                        lemma_block_index(b, len as int, i - start);
                    } else {
                        lemma_block_index(b, len as int, i - start);
                        lemma_block_index(b, len as int, i - len - start);
                    }
                }
            }
        }
        start = start + 2 * len;
        proof {
            b = b + 1;
            lemma_mul_is_distributive_add(2 * len as int, b - 1, 1);
        }
    }
    proof {
        assert(data@ =~= lay);
        assert forall|i: int| 0 <= i < 256 implies #[trigger] data@[i] < field_q() by {
            lemma_intt_layer_bound(d0, len as int, i);
        }
    }
}


impl Ring {
    /// In place, transforms a coefficient-form polynomial to NTT form.
    pub fn ntt(&mut self) -> (ret: &mut Self)
        requires
            old(self).t == RingRepresentation::Degree255,
        ensures
            ret.t == RingRepresentation::NTT,
            ret.data@ == ntt_spec(old(self).data@),
            *final(self) == *final(ret),
    {
        let zeta_powers = Ring::get_zeta_powers_ntt();
        let mut data = self.data;
        let mut len: usize = 128;
        while len >= 2
            invariant
                is_layer_len(len as int),
                forall|i: int| 0 <= i < 128 ==> zeta_powers[i] == zeta_ntt_spec(i),
                ntt_layers(data@, len as int) == ntt_spec(old(self).data@),
            decreases len,
        {
            ntt_layer_exec(&mut data, len, &zeta_powers);
            len = len / 2;
        }
        self.data = data;
        self.t = RingRepresentation::NTT;
        self
    }

    /// In place, transforms an NTT-form polynomial back to coefficient form
    /// (inverse layers, then normalisation by `128^-1`).
    pub fn inverse_ntt(&mut self) -> (ret: &mut Self)
        requires
            old(self).t == RingRepresentation::NTT,
            coeffs_below(old(self).data@, field_q()),
        ensures
            ret.t == RingRepresentation::Degree255,
            ret.data@ == intt_spec(old(self).data@),
            *final(self) == *final(ret),
    {
        let zeta_powers = Ring::get_zeta_powers_ntt();
        let mut data = self.data;
        let mut len: usize = 2;
        while len <= 128
            invariant
                is_layer_len(len as int) || len == 256,
                len >= 2,
                forall|i: int| 0 <= i < 128 ==> zeta_powers[i] == zeta_ntt_spec(i),
                coeffs_below(data@, field_q()),
                intt_layers(data@, len as int) == intt_layers(old(self).data@, 2),
            decreases 256 - len,
        {
            intt_layer_exec(&mut data, len, &zeta_powers);
            len = len * 2;
        }
        self.data = data;
        let ghost before = self.data@;
        self.scalar_mul(INV_128);
        self.t = RingRepresentation::Degree255;
        proof {
            assert(intt_layers(before, 256) == before);
            assert(self.data@ =~= intt_spec(old(self).data@));
        }
        self
    }
}


proof fn lemma_ntt_layers_bound(d: Seq<u32>, len: int)
    requires
        len >= 2,
    ensures
        coeffs_below(ntt_layers(d, len), field_q()),
        ntt_layers(d, len).len() == 256,
    decreases len,
{
    let l = ntt_layer(d, len);
    assert forall|i: int| 0 <= i < 256 implies #[trigger] l[i] < field_q() by {
        let z = zeta_ntt_spec(128int / len + i / (2 * len));
        lemma_mod_bound(d[i] + (z * d[i + len]) % field_q(), field_q());
        lemma_mod_bound(d[i - len] + field_q() - (z * d[i]) % field_q(), field_q());
    }
    assert(ntt_layers(d, len) == ntt_layers(l, len / 2));
    if len / 2 >= 2 {
        lemma_ntt_layers_bound(l, len / 2);
    } else {
        assert(ntt_layers(l, len / 2) == l);
    }
}

/// The forward NTT yields coefficients in `[0, q)`.
pub proof fn lemma_ntt_bound(d: Seq<u32>)
    ensures
        coeffs_below(ntt_spec(d), field_q()),
        ntt_spec(d).len() == 256,
{
    lemma_ntt_layers_bound(d, 128);
}

/// The inverse NTT yields coefficients in `[0, q)`.
pub proof fn lemma_intt_bound(d: Seq<u32>)
    ensures
        coeffs_below(intt_spec(d), field_q()),
        intt_spec(d).len() == 256,
{
    assert forall|i: int| 0 <= i < 256 implies #[trigger] intt_spec(d)[i] < field_q() by {
        lemma_mod_bound(intt_layers(d, 2)[i] * INV_128, field_q());
    }
}

impl<const K: usize> Vector<K> {
    /// Transform every ring to NTT form.
    pub fn ntt(self) -> (r: Self)
        requires
            forall|i: int| 0 <= i < K ==> (#[trigger] self.data[i]).t == RingRepresentation::Degree255,
        ensures
            forall|i: int|
                0 <= i < K ==> (#[trigger] r.data[i]).t == RingRepresentation::NTT && r.data[i].data@
                    == ntt_spec(self.data[i].data@),
    {
        let mut v = self;
        let mut i: usize = 0;
        while i < K
            invariant
                i <= K,
                forall|j: int| 0 <= j < K ==> (#[trigger] self.data[j]).t == RingRepresentation::Degree255,
                forall|j: int|
                    0 <= j < i ==> (#[trigger] v.data[j]).t == RingRepresentation::NTT
                        && v.data[j].data@ == ntt_spec(self.data[j].data@),
                forall|j: int| i <= j < K ==> #[trigger] v.data[j] == self.data[j],
            decreases K - i,
        {
            let mut r = v.data[i];
            r.ntt();
            v.data[i] = r;
            i = i + 1;
        }
        v
    }

    /// Transform every ring back to coefficient form.
    pub fn inverse_ntt(self) -> (r: Self)
        requires
            forall|i: int|
                0 <= i < K ==> (#[trigger] self.data[i]).t == RingRepresentation::NTT && coeffs_below(
                    self.data[i].data@,
                    field_q(),
                ),
        ensures
            forall|i: int|
                0 <= i < K ==> (#[trigger] r.data[i]).t == RingRepresentation::Degree255
                    && r.data[i].data@ == intt_spec(self.data[i].data@),
    {
        let mut v = self;
        let mut i: usize = 0;
        while i < K
            invariant
                i <= K,
                forall|j: int|
                    0 <= j < K ==> (#[trigger] self.data[j]).t == RingRepresentation::NTT
                        && coeffs_below(self.data[j].data@, field_q()),
                forall|j: int|
                    0 <= j < i ==> (#[trigger] v.data[j]).t == RingRepresentation::Degree255
                        && v.data[j].data@ == intt_spec(self.data[j].data@),
                forall|j: int| i <= j < K ==> #[trigger] v.data[j] == self.data[j],
            decreases K - i,
        {
            let mut r = v.data[i];
            r.inverse_ntt();
            v.data[i] = r;
            i = i + 1;
        }
        v
    }
}

/// `ZETA^128 = -1` modulo q: `ZETA` is a primitive 256-th root of unity.
pub proof fn lemma_zeta_128()
    ensures
        pow(ZETA as int, 128) % field_q() == field_q() - 1,
{
    let z = ZETA as int;
    let q = field_q();
    lemma_pow1(z);
    lemma_pow_adds(z, 1, 1);
    lemma_mul_mod_noop(z, z, q);
    assert((174453379 * 174453379) % 687659009 == 186394284);
    assert(pow(z, 2) % q == 186394284);
    lemma_pow_adds(z, 2, 2);
    lemma_mul_mod_noop(pow(z, 2), pow(z, 2), q);
    assert((186394284 * 186394284) % 687659009 == 567420614);
    assert(pow(z, 4) % q == 567420614);
    lemma_pow_adds(z, 4, 4);
    lemma_mul_mod_noop(pow(z, 4), pow(z, 4), q);
    assert((567420614 * 567420614) % 687659009 == 143496961);
    assert(pow(z, 8) % q == 143496961);
    lemma_pow_adds(z, 8, 8);
    lemma_mul_mod_noop(pow(z, 8), pow(z, 8), q);
    assert((143496961 * 143496961) % 687659009 == 236367000);
    assert(pow(z, 16) % q == 236367000);
    lemma_pow_adds(z, 16, 16);
    lemma_mul_mod_noop(pow(z, 16), pow(z, 16), q);
    assert((236367000 * 236367000) % 687659009 == 511718430);
    assert(pow(z, 32) % q == 511718430);
    lemma_pow_adds(z, 32, 32);
    lemma_mul_mod_noop(pow(z, 32), pow(z, 32), q);
    assert((511718430 * 511718430) % 687659009 == 146688711);
    assert(pow(z, 64) % q == 146688711);
    lemma_pow_adds(z, 64, 64);
    lemma_mul_mod_noop(pow(z, 64), pow(z, 64), q);
    assert((146688711 * 146688711) % 687659009 == 687659008);
}

/// The twiddle factor of block `b` of the forward layer of length `len`
/// times that of block `b` of the inverse layer of the same length is `-1`
/// modulo q.
pub proof fn lemma_twiddle_product(len: int, b: int)
    requires
        is_layer_len(len),
        len >= 2,
        0 <= b < 128int / len,
    ensures
        256int / len - 1 - b == 2 * (128int / len) - 1 - b,
        (zeta_ntt_spec(128int / len + b) * zeta_ntt_spec(256int / len - 1 - b)) % field_q() == field_q() - 1,
{
    lemma2_to64();
    let l: nat = if len == 2 {
        assert(pow2(6) == 128int / len);
        6
    } else if len == 4 {
        assert(pow2(5) == 128int / len);
        5
    } else if len == 8 {
        assert(pow2(4) == 128int / len);
        4
    } else if len == 16 {
        assert(pow2(3) == 128int / len);
        3
    } else if len == 32 {
        assert(pow2(2) == 128int / len);
        2
    } else if len == 64 {
        assert(pow2(1) == 128int / len);
        1
    } else {
        assert(len == 128);
        assert(128int / 128 == 1);
        assert(pow2(0) == 128int / len);
        0
    };
    assert(pow2(l) == 128int / len);
    lemma_twiddle_indices(l, b as nat);
    let e1 = bit_reverse_spec((128int / len + b) as nat, 7);
    let e2 = bit_reverse_spec((256int / len - 1 - b) as nat, 7);
    assert(e1 + e2 == 128);
    lemma_pow_adds(ZETA as int, e1, e2);
    lemma_mul_mod_noop(pow(ZETA as int, e1), pow(ZETA as int, e2), field_q());
    lemma_zeta_128();
}

/// A forward layer followed by the inverse layer of the same length doubles
/// every coefficient modulo q.
pub proof fn lemma_layer_inverse(d: Seq<u32>, len: int)
    requires
        is_layer_len(len),
        len >= 2,
        d.len() == 256,
    ensures
        forall|i: int| 0 <= i < 256 ==> #[trigger] intt_layer(ntt_layer(d, len), len)[i] == ((2 * d[i]) % field_q()) as u32,
{
    let q = field_q();
    let l = ntt_layer(d, len);
    assert forall|i: int| 0 <= i < 256 implies #[trigger] intt_layer(l, len)[i] == ((2 * d[i]) % q) as u32 by {
        let b = i / (2 * len);
        let p = i % (2 * len);
        lemma_fundamental_div_mod(i, 2 * len);
        assert(i == 2 * len * b + p);
        lemma_mod_bound(i, 2 * len);
        assert(b >= 0) by {
            lemma_div_pos_is_pos(i, 2 * len);
        }
        assert(2 * len * b < 256) by (nonlinear_arith)
            requires
                i == 2 * len * b + p,
                0 <= p,
                i < 256,
        ;
        lemma_layer_bounds(len, b);
        assert(b < 128int / len) by {
            if len == 2 {
                assert(2 * len * b == 4 * b);
            } else if len == 4 {
                assert(2 * len * b == 8 * b);
            } else if len == 8 {
                assert(2 * len * b == 16 * b);
            } else if len == 16 {
                assert(2 * len * b == 32 * b);
            } else if len == 32 {
                assert(2 * len * b == 64 * b);
            } else if len == 64 {
                assert(2 * len * b == 128 * b);
            } else {
                assert(len == 128);
                assert(2 * len * b == 256 * b);
            }
        }
        lemma_twiddle_product(len, b);
        let zf = zeta_ntt_spec(128int / len + b);
        let zi = zeta_ntt_spec(256int / len - 1 - b);
        lemma_mod_bound(pow(ZETA as int, bit_reverse_spec((128int / len + b) as nat, 7)), q);
        lemma_mod_bound(pow(ZETA as int, bit_reverse_spec((256int / len - 1 - b) as nat, 7)), q);
        if p < len {
            lemma_block_index(b, len, p);
            lemma_block_index(b, len, p + len);
            let d0 = d[i] as int;
            let d1 = d[i + len] as int;
            let t = (zf * d1) % q;
            lemma_mod_bound(zf * d1, q);
            let a1 = d0 + t;
            let b1 = d0 + q - t;
            assert(l[i] == a1 % q);
            assert(l[i + len] == b1 % q);
            lemma_add_mod_noop(b1, a1, q);
            lemma_mod_add_multiples_vanish(2 * d0, q);
            assert(b1 + a1 == q + 2 * d0);
        } else {
            lemma_block_index(b, len, p);
            lemma_block_index(b, len, p - len);
            let d0 = d[i - len] as int;
            let d1 = d[i] as int;
            let t = (zf * d1) % q;
            lemma_mod_bound(zf * d1, q);
            let x = (d0 + q - t) % q;
            let y = (d0 + t) % q;
            assert(l[i] == x);
            assert(l[i - len] == y);
            lemma_mod_bound(d0 + q - t, q);
            lemma_mod_bound(d0 + t, q);
            let w = q + x - y;
            lemma_mod_add_multiples_vanish(x - y, q);
            lemma_sub_mod_noop(d0 + q - t, d0 + t, q);
            assert((d0 + q - t) - (d0 + t) == q + (-2 * t));
            lemma_mod_add_multiples_vanish(-2 * t, q);
            assert(w % q == (-2 * t) % q);
            lemma_mul_mod_noop_right(zi, w, q);
            lemma_mul_mod_noop_right(zi, -2 * t, q);
            lemma_mul_mod_noop_right(-2, zf * d1, q);
            lemma_mul_mod_noop_right(zi, -2 * (zf * d1), q);
            assert(zi * (-2 * (zf * d1)) == (zi * zf) * (-2 * d1)) by (nonlinear_arith);
            assert(zf * zi == zi * zf) by (nonlinear_arith);
            lemma_mul_mod_noop_left(zi * zf, -2 * d1, q);
            assert((q - 1) * (-2 * d1) == q * (-2 * d1) + 2 * d1) by (nonlinear_arith);
            lemma_mod_multiples_vanish(-2 * d1, 2 * d1, q);
            assert(intt_layer(l, len)[i] == ((zi * w) % q) as u32);
        }
    }
}

/// Every coefficient multiplied by `k`, modulo q.
pub open spec fn scale_coeffs(x: Seq<u32>, k: int) -> Seq<u32> {
    Seq::new(256, |i: int| ((k * x[i]) % field_q()) as u32)
}

/// An inverse layer commutes with scaling by a constant modulo q.
pub proof fn lemma_intt_layer_scale(x: Seq<u32>, k: int, len: int)
    requires
        is_layer_len(len),
        len >= 1,
        k >= 0,
        x.len() == 256,
    ensures
        intt_layer(scale_coeffs(x, k), len) =~= scale_coeffs(intt_layer(x, len), k),
{
    let q = field_q();
    let sx = scale_coeffs(x, k);
    assert forall|i: int| 0 <= i < 256 implies #[trigger] intt_layer(sx, len)[i] == scale_coeffs(
        intt_layer(x, len),
        k,
    )[i] by {
        let b = i / (2 * len);
        let p = i % (2 * len);
        lemma_fundamental_div_mod(i, 2 * len);
        lemma_mod_bound(i, 2 * len);
        assert(b >= 0) by {
            lemma_div_pos_is_pos(i, 2 * len);
        }
        let z = zeta_ntt_spec(256int / len - 1 - b);
        if p < len {
            assert(2 * len * b < 256) by (nonlinear_arith)
                requires
                    i == 2 * len * b + p,
                    0 <= p,
                    i < 256,
            ;
            assert(2 * len * b + 2 * len <= 256) by {
                if len == 1 {
                    assert(2 * len * b == 2 * b);
                } else {
                    lemma_layer_bounds(len, b);
                }
            }
            let u = x[i] as int;
            let v = x[i + len] as int;
            lemma_mod_bound(k * v, q);
            lemma_mod_bound(k * u, q);
            lemma_add_mod_noop(k * v, k * u, q);
            lemma_mul_mod_noop_right(k, v + u, q);
            assert(k * v + k * u == k * (v + u)) by (nonlinear_arith);
        } else {
            let u = x[i - len] as int;
            let v = x[i] as int;
            lemma_mod_bound(k * v, q);
            lemma_mod_bound(k * u, q);
            let w1 = q + (k * v) % q - (k * u) % q;
            let w2 = q + v - u;
            lemma_mod_add_multiples_vanish((k * v) % q - (k * u) % q, q);
            lemma_sub_mod_noop(k * v, k * u, q);
            lemma_mod_add_multiples_vanish(v - u, q);
            lemma_mul_mod_noop_right(k, v - u, q);
            lemma_mul_mod_noop_right(k, w2, q);
            assert(k * v - k * u == k * (v - u)) by (nonlinear_arith);
            assert(w1 % q == (k * w2) % q);
            lemma_mul_mod_noop_right(z, w1, q);
            lemma_mul_mod_noop_right(z, k * w2, q);
            lemma_mul_mod_noop_right(k, z * w2, q);
            assert(z * (k * w2) == k * (z * w2)) by (nonlinear_arith);
        }
    }
}

/// Inverse layers of lengths `2 .. 128` after the forward layers of lengths
/// `len .. 2` amount to scaling by `len`, then the inverse layers of lengths
/// `2 len .. 128`.
proof fn lemma_ntt_intt_compose(d: Seq<u32>, len: int)
    requires
        is_layer_len(len),
        d.len() == 256,
        coeffs_below(d, field_q()),
    ensures
        intt_layers(ntt_layers(d, len), 2) == intt_layers(scale_coeffs(d, len), 2 * len),
    decreases len,
{
    let q = field_q();
    if len == 1 {
        assert(scale_coeffs(d, 1) =~= d) by {
            assert forall|i: int| 0 <= i < 256 implies #[trigger] scale_coeffs(d, 1)[i] == d[i] by {
                lemma_small_mod(d[i] as nat, q as nat);
            }
        }
    } else {
        let e = ntt_layer(d, len);
        assert(coeffs_below(e, q)) by {
            assert forall|i: int| 0 <= i < 256 implies #[trigger] e[i] < q by {
                let z = zeta_ntt_spec(128int / len + i / (2 * len));
                lemma_mod_bound(d[i] + (z * d[i + len]) % q, q);
                lemma_mod_bound(d[i - len] + q - (z * d[i]) % q, q);
            }
        }
        lemma_ntt_intt_compose(e, len / 2);
        let half = len / 2;
        assert(2 * half == len);
        lemma_intt_layer_scale(e, half, len);
        lemma_layer_inverse(d, len);
        let m = intt_layer(e, len);
        assert(scale_coeffs(m, half) =~= scale_coeffs(d, len)) by {
            assert forall|i: int| 0 <= i < 256 implies #[trigger] scale_coeffs(m, half)[i] == scale_coeffs(d, len)[i] by {
                lemma_mul_mod_noop_right(half, 2 * d[i], q);
                assert(half * (2 * d[i]) == len * d[i]) by (nonlinear_arith)
                    requires
                        2 * half == len,
                ;
            }
        }
    }
}

/// The inverse NTT undoes the forward NTT on coefficients in `[0, q)`.
pub proof fn lemma_intt_ntt_inverse(d: Seq<u32>)
    requires
        d.len() == 256,
        coeffs_below(d, field_q()),
    ensures
        intt_spec(ntt_spec(d)) =~= d,
{
    let q = field_q();
    lemma_ntt_intt_compose(d, 128);
    let s = scale_coeffs(d, 128);
    assert(intt_layers(s, 256) == s);
    assert forall|i: int| 0 <= i < 256 implies #[trigger] intt_spec(ntt_spec(d))[i] == d[i] by {
        assert(intt_layers(ntt_spec(d), 2)[i] == s[i]);
        lemma_mul_mod_noop_left(128 * d[i], INV_128 as int, q);
        assert(128 * d[i] * 682286673 == d[i] * (128 * 682286673)) by (nonlinear_arith);
        lemma_mul_mod_noop_right(d[i] as int, 128int * 682286673, q);
        assert((128 * 682286673) % 687659009 == 1);
        lemma_small_mod(d[i] as nat, q as nat);
    }
}

/// The upper-case hexadecimal digit of `v` (for `0 <= v < 16`).
pub open spec fn hex_char(v: int) -> char {
    if v < 10 {
        (48 + v) as char
    } else {
        (55 + v) as char
    }
}

/// Upper-case hexadecimal notation of `x`, without leading zeros (`0` is "0").
pub open spec fn hex_spec(x: nat) -> Seq<char>
    decreases x,
{
    if x < 16 {
        seq![hex_char(x as int)]
    } else {
        hex_spec(x / 16).push(hex_char((x % 16) as int))
    }
}

/// The text of the first `n` coefficients: each in hexadecimal, followed by a comma.
pub open spec fn coeffs_hex(d: Seq<u32>, n: int) -> Seq<char>
    decreases n,
{
    if n <= 0 {
        Seq::empty()
    } else {
        coeffs_hex(d, n - 1) + hex_spec(d[n - 1] as nat) + seq![',']
    }
}

fn hex_digit(v: u32) -> (s: &'static str)
    requires
        v < 16,
    ensures
        s@ == seq![hex_char(v as int)],
{
    proof {
        reveal_strlit("0");
        reveal_strlit("1");
        reveal_strlit("2");
        reveal_strlit("3");
        reveal_strlit("4");
        reveal_strlit("5");
        reveal_strlit("6");
        reveal_strlit("7");
        reveal_strlit("8");
        reveal_strlit("9");
        reveal_strlit("A");
        reveal_strlit("B");
        reveal_strlit("C");
        reveal_strlit("D");
        reveal_strlit("E");
        reveal_strlit("F");
    }
    match v {
        0 => "0",
        1 => "1",
        2 => "2",
        3 => "3",
        4 => "4",
        5 => "5",
        6 => "6",
        7 => "7",
        8 => "8",
        9 => "9",
        10 => "A",
        11 => "B",
        12 => "C",
        13 => "D",
        14 => "E",
        _ => "F",
    }
}

fn push_hex(s: &mut String, x: u32)
    ensures
        final(s)@ == old(s)@ + hex_spec(x as nat),
    decreases x,
{
    if x >= 16 {
        push_hex(s, x / 16);
    }
    s.append(hex_digit(x % 16));
    proof {
        if x >= 16 {
            assert(old(s)@ + hex_spec(x as nat) =~= (old(s)@ + hex_spec((x / 16) as nat)) + seq![hex_char((x % 16) as int)]);
        }
    }
}

impl Ring {
    /// Every coefficient in upper-case hexadecimal, each followed by a comma.
    pub fn to_string(&self) -> (s: String)
        ensures
            s@ == coeffs_hex(self.data@, 256),
    {
        let mut s = String::new();
        let mut i: usize = 0;
        while i < 256
            invariant
                i <= 256,
                s@ == coeffs_hex(self.data@, i as int),
            decreases 256 - i,
        {
            push_hex(&mut s, self.data[i]);
            proof {
                reveal_strlit(",");
            }
            s.append(",");
            i = i + 1;
        }
        s
    }
}


/// `at` is the block transpose of `a`: entry `(i, j)` of `at` is entry
/// `(j, i)` of `a`.
pub open spec fn is_block_transpose<const K: usize>(a: Matrix<K>, at: Matrix<K>) -> bool {
    forall|i: int, j: int| 0 <= i < K && 0 <= j < K ==> #[trigger] at.data[i][j] == a.data[j][i]
}

/// Multiplying by a vector on the left is multiplying the transpose by it
/// on the right: what `a.left_vector_multiply(&v)` gives at every index is
/// what `at.right_vector_multiply(&v)` gives there, and the requirements of
/// the first give those of the second.
pub proof fn lemma_left_multiply_is_right_multiply_of_transpose<const K: usize>(a: Matrix<K>, at: Matrix<K>, v: Vector<K>)
    requires
        is_block_transpose(a, at),
    ensures
        (forall|i: int| 0 <= i < K ==> ntt_rings_below(#[trigger] a.data[i]@)) ==> (forall|i: int|
            0 <= i < K ==> ntt_rings_below(#[trigger] at.data[i]@)),
        forall|i: int|
            0 <= i < K ==> inner_product_spec(ring_coeffs(#[trigger] column(a.data, i)), ring_coeffs(v.data@), K as int)
                == inner_product_spec(ring_coeffs(at.data[i]@), ring_coeffs(v.data@), K as int),
{
    assert forall|i: int| 0 <= i < K implies #[trigger] column(a.data, i) =~= at.data[i]@ by {
        assert forall|j: int| 0 <= j < K implies column(a.data, i)[j] == at.data[i]@[j] by {
            assert(at.data[i][j] == a.data[j][i]);
        }
    }
    if forall|i: int| 0 <= i < K ==> ntt_rings_below(#[trigger] a.data[i]@) {
        assert forall|i: int| 0 <= i < K implies ntt_rings_below(#[trigger] at.data[i]@) by {
            assert forall|j: int| 0 <= j < at.data[i]@.len() implies (#[trigger] at.data[i]@[j]).t
                == RingRepresentation::NTT && coeffs_below(at.data[i]@[j].data@, 0x8000_0000) by {
                assert(at.data[i][j] == a.data[j][i]);
                assert(ntt_rings_below(a.data[j]@));
                assert(a.data[j]@[i] == a.data[j][i]);
            }
        }
    }
}


/// The distance between `a` and `b` on the circle of residues modulo `q`.
pub open spec fn mod_q_dist(a: int, b: int) -> int {
    let u = (a - b) % field_q();
    let w = (b - a) % field_q();
    if u <= w {
        u
    } else {
        w
    }
}

/// Compressing a reduced value to `d` bits and decompressing it again
/// gives a reduced value at most `(q + 2^d) / 2^(d+1)` away from it,
/// modulo `q`.
pub proof fn lemma_decompress_compress_error(x: int, d: nat)
    requires
        1 <= d <= 29,
        0 <= x < field_q(),
    ensures
        ({
            let y = decompress_coeff(compress_coeff(x, d), d) as int;
            &&& 0 <= y < field_q()
            &&& pow2(d + 1) * mod_q_dist(y, x) <= field_q() + pow2(d)
        }),
{
    let q = field_q() as int;
    let p = pow2(d) as int;
    let hp = pow2((d - 1) as nat) as int;
    lemma_pow2_unfold(d);
    lemma_pow2_unfold(d + 1);
    assert(((d + 1) as nat - 1) as nat == d);
    lemma_pow2_pos((d - 1) as nat);
    lemma2_to64();
    if d < 29 {
        lemma_pow2_strictly_increases(d, 29);
    }
    assert(p <= 0x2000_0000);
    let h = q / 2;
    assert(q == 2 * h + 1 && h == 343829504);
    let n = x * p + h;
    let a = n / q;
    let r = n % q;
    lemma_fundamental_div_mod(n, q);
    lemma_mod_bound(n, q);
    assert(n >= 0) by (nonlinear_arith)
        requires
            x >= 0,
            p >= 1,
            h >= 0,
            n == x * p + h,
    ;
    lemma_div_pos_is_pos(n, q);
    assert(a <= p) by (nonlinear_arith)
        requires
            n == q * a + r,
            0 <= r,
            n == x * p + h,
            x <= q - 1,
            h < q,
            p >= 1,
            q >= 1,
    ;
    let c = a % p;
    lemma_mod_bound(a, p);
    assert(compress_coeff(x, d) == c);
    let num = c * q + hp;
    assert(0 <= num && num < p * q) by (nonlinear_arith)
        requires
            0 <= c <= p - 1,
            num == c * q + hp,
            0 <= hp < q,
            q >= 1,
    ;
    let m = num / p;
    let s = num % p;
    lemma_fundamental_div_mod(num, p);
    lemma_mod_bound(num, p);
    lemma_div_pos_is_pos(num, p);
    assert(m < q) by (nonlinear_arith)
        requires
            num == p * m + s,
            0 <= s,
            num < p * q,
            p >= 1,
    ;
    assert(decompress_coeff(c, d) as int == m);
    if a < p {
        lemma_small_mod(a as nat, p as nat);
        assert(p * (m - x) == h - r + hp - s) by (nonlinear_arith)
            requires
                num == p * m + s,
                num == c * q + hp,
                c == a,
                n == q * a + r,
                n == x * p + h,
        ;
        assert(2 * p * (m - x) <= q + p && -(q + p) <= 2 * p * (m - x)) by (nonlinear_arith)
            requires
                p * (m - x) == h - r + hp - s,
                0 <= r < q,
                0 <= s < p,
                q == 2 * h + 1,
                p == 2 * hp,
        ;
        if m >= x {
            assert(m - x < q) by (nonlinear_arith)
                requires
                    2 * p * (m - x) <= q + p,
                    p >= 2,
                    q >= 1,
            ;
            lemma_small_mod((m - x) as nat, q as nat);
            lemma_mod_bound(x - m, q);
            assert(mod_q_dist(m, x) <= m - x);
            assert(pow2(d + 1) * mod_q_dist(m, x) <= q + p) by (nonlinear_arith)
                requires
                    pow2(d + 1) == 2 * p,
                    0 <= mod_q_dist(m, x) <= m - x,
                    p >= 1,
                    2 * p * (m - x) <= q + p,
            ;
        } else {
            assert(x - m < q) by (nonlinear_arith)
                requires
                    -(q + p) <= 2 * p * (m - x),
                    p >= 2,
                    q >= 1,
            ;
            lemma_small_mod((x - m) as nat, q as nat);
            lemma_mod_bound(m - x, q);
            assert(mod_q_dist(m, x) <= x - m);
            assert(pow2(d + 1) * mod_q_dist(m, x) <= q + p) by (nonlinear_arith)
                requires
                    pow2(d + 1) == 2 * p,
                    0 <= mod_q_dist(m, x) <= x - m,
                    p >= 1,
                    -(q + p) <= 2 * p * (m - x),
            ;
        }
    } else {
        assert(a == p);
        lemma_mod_self_0(p);
        assert(c == 0);
        assert(num == hp) by (nonlinear_arith)
            requires
                c == 0,
                num == c * q + hp,
        ;
        lemma_small_mod(hp as nat, p as nat);
        assert(m == 0) by {
            lemma_fundamental_div_mod_converse(num, p, 0, hp);
        }
        assert(p * (q - x) == h - r) by (nonlinear_arith)
            requires
                n == q * a + r,
                a == p,
                n == x * p + h,
        ;
        assert(x > 0) by {
            if x == 0 {
                assert(p * q == h - r);
                assert(p * q >= q) by (nonlinear_arith)
                    requires
                        p >= 1,
                        q >= 1,
                ;
            }
        }
        lemma_mod_add_multiples_vanish(-x, q);
        lemma_small_mod((q - x) as nat, q as nat);
        assert((m - x) % q == q - x);
        lemma_mod_bound(x - m, q);
        assert(mod_q_dist(m, x) <= q - x);
        assert(pow2(d + 1) * mod_q_dist(m, x) <= q + p) by (nonlinear_arith)
            requires
                pow2(d + 1) == 2 * p,
                0 <= mod_q_dist(m, x) <= q - x,
                p >= 1,
                p * (q - x) == h - r,
                0 <= r,
                q == 2 * h + 1,
        ;
    }
}

/// Decompressing a `d`-bit value and compressing it again gives it back.
pub proof fn lemma_compress_decompress_identity(z: int, d: nat)
    requires
        1 <= d <= 29,
        0 <= z < pow2(d),
    ensures
        compress_coeff(decompress_coeff(z, d) as int, d) == z,
{
    let q = field_q() as int;
    let p = pow2(d) as int;
    let hp = pow2((d - 1) as nat) as int;
    lemma_pow2_unfold(d);
    lemma_pow2_pos((d - 1) as nat);
    lemma2_to64();
    if d < 29 {
        lemma_pow2_strictly_increases(d, 29);
    }
    assert(p <= 0x2000_0000);
    let h = q / 2;
    assert(q == 2 * h + 1 && h == 343829504);
    let num = z * q + hp;
    assert(0 <= num && num < p * q) by (nonlinear_arith)
        requires
            0 <= z <= p - 1,
            num == z * q + hp,
            0 <= hp < q,
            q >= 1,
    ;
    let m = num / p;
    let s = num % p;
    lemma_fundamental_div_mod(num, p);
    lemma_mod_bound(num, p);
    lemma_div_pos_is_pos(num, p);
    assert(m < q) by (nonlinear_arith)
        requires
            num == p * m + s,
            0 <= s,
            num < p * q,
            p >= 1,
    ;
    assert(decompress_coeff(z, d) as int == m);
    let n = m * p + h;
    assert(n == z * q + (hp - s + h)) by (nonlinear_arith)
        requires
            num == p * m + s,
            num == z * q + hp,
            n == m * p + h,
    ;
    lemma_fundamental_div_mod_converse(n, q, z, hp - s + h);
    lemma_small_mod(z as nat, p as nat);
}


/// Ring compression, coefficient by coefficient: what
/// `Compressed::compress` then `decompress` give from a reduced ring is
/// reduced and within `(q + 2^d) / 2^(d+1)` of it modulo `q`, and what
/// `decompress` then `compress` give from a `d`-bit ring is that ring.
pub proof fn lemma_ring_compression_round_trips(x: Seq<u32>, z: Seq<u32>, d: nat)
    requires
        1 <= d <= 29,
        x.len() == 256,
        z.len() == 256,
        coeffs_below(x, field_q()),
        forall|i: int| 0 <= i < 256 ==> #[trigger] z[i] < pow2(d),
    ensures
        forall|i: int|
            0 <= i < 256 ==> {
                let y = decompress_coeff(compress_coeff(#[trigger] x[i] as int, d), d) as int;
                &&& 0 <= y < field_q()
                &&& pow2(d + 1) * mod_q_dist(y, x[i] as int) <= field_q() + pow2(d)
            },
        forall|i: int| 0 <= i < 256 ==> compress_coeff(decompress_coeff(#[trigger] z[i] as int, d) as int, d) == z[i],
{
    assert forall|i: int| 0 <= i < 256 implies {
        let y = decompress_coeff(compress_coeff(#[trigger] x[i] as int, d), d) as int;
        &&& 0 <= y < field_q()
        &&& pow2(d + 1) * mod_q_dist(y, x[i] as int) <= field_q() + pow2(d)
    } by {
        assert(x[i] < field_q());
        lemma_decompress_compress_error(x[i] as int, d);
    }
    assert forall|i: int| 0 <= i < 256 implies compress_coeff(decompress_coeff(#[trigger] z[i] as int, d) as int, d)
        == z[i] by {
        lemma_compress_decompress_identity(z[i] as int, d);
    }
}

} // verus!
