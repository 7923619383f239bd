//! Sampling of polynomials: uniform NTT-form polynomials from the SHAKE128
//! stream (rejection sampling of 23-bit candidates), and centred binomial
//! polynomials from PRF output.
use vstd::prelude::*;
use vstd::arithmetic::power2::*;
use crate::params::{Q, field_q};
use crate::ring::{Ring, RingRepresentation};
use crate::crypt::{XOF, shake128_byte};

verus! {

/// Candidate `c` read from the stream on `input` from position `start`:
/// three bytes, little endian, the top bit of the third cleared.
pub open spec fn ntt_candidate(input: Seq<u8>, start: nat, c: int) -> int {
    let b0 = shake128_byte(input, (start + 3 * c) as nat) as int;
    let b1 = shake128_byte(input, (start + 3 * c + 1) as nat) as int;
    let b2 = shake128_byte(input, (start + 3 * c + 2) as nat) as int;
    b0 + 256 * b1 + 65536 * (b2 % 128)
}

/// A uniform NTT-form polynomial from the XOF stream: each coefficient is a
/// 23-bit candidate of three stream bytes, kept when below q. Every 23-bit
/// candidate is below q, so 256 candidates are read and all are kept.
pub fn sample_ntt(xof_stream: XOF) -> (ring: Ring)
    requires
        xof_stream.wf(),
        xof_stream.position() + 771 <= usize::MAX / 2,
    ensures
        ring.t == RingRepresentation::NTT,
        forall|c: int|
            0 <= c < 256 ==> ring.data[c] == ntt_candidate(xof_stream.input(), xof_stream.position(), c),
{
    let mut xof_stream = xof_stream;
    let ghost input = xof_stream.input();
    let ghost start = xof_stream.position();
    let mut ring = Ring::zeroes_ntt();
    let mut three_bytes = [0u8; 3];
    let mut j: usize = 0;
    while j < 256
        invariant
            j <= 256,
            xof_stream.wf(),
            xof_stream.input() == input,
            xof_stream.position() == start + 3 * j,
            start + 771 <= usize::MAX / 2,
            ring.t == RingRepresentation::NTT,
            forall|c: int| 0 <= c < j ==> ring.data[c] == ntt_candidate(input, start, c),
        decreases 256 - j,
    {
        xof_stream.get_3_bytes(&mut three_bytes);
        let b0 = three_bytes[0] as u32;
        let b1 = three_bytes[1] as u32;
        let b2 = three_bytes[2] as u32;
        let d = b0 | (b1 << 8) | ((b2 & 0x7F) << 16);
        assert(d == b0 + 256 * b1 + 65536 * (b2 % 128) && d < 0x80_0000) by (bit_vector)
            requires
                d == b0 | (b1 << 8) | ((b2 & 0x7F) << 16),
                b0 < 256,
                b1 < 256,
                b2 < 256,
        ;
        if d < Q {
            ring.data[j] = d;
            j = j + 1;
        }
    }
    ring
}

/// Bit `i` of the little-endian bit string of `bytes`.
pub open spec fn bit_of(bytes: Seq<u8>, i: int) -> int {
    (bytes[i / 8] as int / pow2((i % 8) as nat) as int) % 2
}

/// The number of set bits among bits `start .. start + n`.
pub open spec fn bit_count(bytes: Seq<u8>, start: int, n: int) -> int
    decreases n,
{
    if n <= 0 {
        0
    } else {
        bit_count(bytes, start, n - 1) + bit_of(bytes, start + n - 1)
    }
}

/// Coefficient `i` of the centred binomial polynomial: `x - y` modulo q,
/// `x` and `y` the numbers of set bits among the `eta` bits at `2 eta i`
/// and the `eta` bits after them.
pub open spec fn cbd_coeff(bytes: Seq<u8>, eta: int, i: int) -> int {
    (bit_count(bytes, 2 * eta * i, eta) + field_q() - bit_count(bytes, 2 * eta * i + eta, eta)) % field_q()
}

/// Bit `idx` of `bytes`, as in a least-significant-bit-first bit view.
fn get_bit(bytes: &[u8], idx: usize) -> (b: u32)
    requires
        idx / 8 < bytes@.len(),
    ensures
        b == bit_of(bytes@, idx as int),
        b <= 1,
{
    let x = bytes[idx / 8];
    let k = (idx % 8) as u8;
    proof {
        vstd::bits::lemma_u8_shr_is_div(x, k);
    }
    let y = x >> k;
    assert((y & 1) == y % 2) by (bit_vector);
    (y & 1) as u32
}

/// A polynomial whose coefficients follow the centred binomial distribution
/// of parameter `eta`, from `64 * eta` PRF bytes.
pub fn sample_poly_cbd(byte_array: &[u8], eta: usize) -> (f: Ring)
    requires
        byte_array@.len() == 64 * eta,
        512 * eta <= usize::MAX,
        eta <= field_q(),
    ensures
        f.t == RingRepresentation::Degree255,
        forall|i: int| 0 <= i < 256 ==> f.data[i] == cbd_coeff(byte_array@, eta as int, i),
{
    let mut f = Ring::zeroes_degree255();
    let mut i: usize = 0;
    while i < 256
        invariant
            i <= 256,
            byte_array@.len() == 64 * eta,
            512 * eta <= usize::MAX,
            eta <= field_q(),
            f.t == RingRepresentation::Degree255,
            forall|a: int| 0 <= a < i ==> f.data[a] == cbd_coeff(byte_array@, eta as int, a),
        decreases 256 - i,
    {
        let mut x: u32 = 0;
        let mut y: u32 = 0;
        let mut j: usize = 0;
        proof {
            assert(i * 2 * eta <= 512 * eta) by (nonlinear_arith)
                requires
                    i < 256,
            ;
        }
        let base = i * 2 * eta;
        while j < eta
            invariant
                j <= eta,
                i < 256,
                base == i * 2 * eta,
                byte_array@.len() == 64 * eta,
                512 * eta <= usize::MAX,
                eta <= field_q(),
                x == bit_count(byte_array@, base as int, j as int),
                y == bit_count(byte_array@, base + eta, j as int),
                x <= j,
                y <= j,
            decreases eta - j,
        {
            proof {
                assert(i * 2 * eta + j + eta < 512 * eta) by (nonlinear_arith)
                    requires
                        i < 256,
                        j < eta,
                ;
            }
            x = x + get_bit(byte_array, base + j);
            y = y + get_bit(byte_array, base + j + eta);
            j = j + 1;
        }
        f.data[i] = (x + Q - y) % Q;
        proof {
            assert(base + eta == 2 * eta * i + eta) by (nonlinear_arith)
                requires
                    base == i * 2 * eta,
            ;
        }
        i = i + 1;
    }
    f
}


/// The number of set bits among the `n` bits from `start`, counted as a
/// plain sum of the bits.
pub open spec fn ones_in_window(bytes: Seq<u8>, start: int, n: nat) -> int {
    crate::field_laws::fsum(|k: int| bit_of(bytes, start + k), n)
}

proof fn lemma_bit_of_is_bit(bytes: Seq<u8>, i: int)
    ensures
        bit_of(bytes, i) == 0 || bit_of(bytes, i) == 1,
{
    vstd::arithmetic::div_mod::lemma_mod_bound(
        bytes[i / 8] as int / pow2((i % 8) as nat) as int,
        2,
    );
}

proof fn lemma_bit_count_is_ones(bytes: Seq<u8>, start: int, n: nat)
    ensures
        bit_count(bytes, start, n as int) == ones_in_window(bytes, start, n),
        0 <= bit_count(bytes, start, n as int) <= n,
    decreases n,
{
    if n > 0 {
        lemma_bit_count_is_ones(bytes, start, (n - 1) as nat);
        lemma_bit_of_is_bit(bytes, start + n - 1);
        assert(ones_in_window(bytes, start, n) == ones_in_window(bytes, start, (n - 1) as nat) + bit_of(
            bytes,
            start + (n - 1),
        ));
    }
}

/// Centred binomial sampling: coefficient `i` is the number of set bits in
/// the `eta`-bit window at `2 eta i` minus the number of set bits in the
/// next, disjoint, `eta`-bit window, modulo q. So it is `eta` when the
/// first window is all ones and the second all zeros, and `q - eta` (that
/// is `-eta`) in the opposite case.
pub proof fn lemma_cbd_coeff_is_centred_binomial(bytes: Seq<u8>, eta: nat, i: int)
    requires
        1 <= eta < field_q(),
    ensures
        cbd_coeff(bytes, eta as int, i) == (ones_in_window(bytes, 2 * eta * i, eta) - ones_in_window(
            bytes,
            2 * eta * i + eta,
            eta,
        )) % field_q(),
        (forall|k: int|
            0 <= k < eta ==> #[trigger] bit_of(bytes, 2 * eta * i + k) == 1 && bit_of(bytes, 2 * eta * i + eta + k) == 0)
            ==> cbd_coeff(bytes, eta as int, i) == eta,
        (forall|k: int|
            0 <= k < eta ==> #[trigger] bit_of(bytes, 2 * eta * i + k) == 0 && bit_of(bytes, 2 * eta * i + eta + k) == 1)
            ==> cbd_coeff(bytes, eta as int, i) == field_q() - eta,
{
    let q = field_q();
    let s1 = 2 * eta * i;
    let s2 = 2 * eta * i + eta;
    lemma_bit_count_is_ones(bytes, s1, eta);
    lemma_bit_count_is_ones(bytes, s2, eta);
    let x = ones_in_window(bytes, s1, eta);
    let y = ones_in_window(bytes, s2, eta);
    vstd::arithmetic::div_mod::lemma_mod_add_multiples_vanish(x - y, q);
    if forall|k: int|
        0 <= k < eta ==> #[trigger] bit_of(bytes, 2 * eta * i + k) == 1 && bit_of(bytes, 2 * eta * i + eta + k) == 0 {
        assert forall|k: int| 0 <= k < eta implies #[trigger] bit_of(bytes, s1 + k) == 1 by {
            assert(bit_of(bytes, 2 * eta * i + k) == 1);
        }
        assert forall|k: int| 0 <= k < eta implies #[trigger] bit_of(bytes, s2 + k) == 0 by {
            assert(bit_of(bytes, 2 * eta * i + k) == 1);
            assert(bit_of(bytes, 2 * eta * i + eta + k) == 0);
            assert(2 * eta * i + eta + k == s2 + k);
        }
        lemma_fsum_const(|k: int| bit_of(bytes, s1 + k), 1, eta);
        lemma_fsum_const(|k: int| bit_of(bytes, s2 + k), 0, eta);
        vstd::arithmetic::div_mod::lemma_small_mod(eta, q as nat);
    }
    if forall|k: int|
        0 <= k < eta ==> #[trigger] bit_of(bytes, 2 * eta * i + k) == 0 && bit_of(bytes, 2 * eta * i + eta + k) == 1 {
        assert forall|k: int| 0 <= k < eta implies #[trigger] bit_of(bytes, s1 + k) == 0 by {
            assert(bit_of(bytes, 2 * eta * i + k) == 0);
        }
        assert forall|k: int| 0 <= k < eta implies #[trigger] bit_of(bytes, s2 + k) == 1 by {
            assert(bit_of(bytes, 2 * eta * i + k) == 0);
            assert(bit_of(bytes, 2 * eta * i + eta + k) == 1);
            assert(2 * eta * i + eta + k == s2 + k);
        }
        lemma_fsum_const(|k: int| bit_of(bytes, s1 + k), 0, eta);
        lemma_fsum_const(|k: int| bit_of(bytes, s2 + k), 1, eta);
        vstd::arithmetic::div_mod::lemma_mod_add_multiples_vanish(-(eta as int), q);
        vstd::arithmetic::div_mod::lemma_small_mod((q - eta) as nat, q as nat);
    }
}

proof fn lemma_fsum_const(f: spec_fn(int) -> int, v: int, n: nat)
    requires
        forall|k: int| 0 <= k < n ==> #[trigger] f(k) == v,
    ensures
        crate::field_laws::fsum(f, n) == v * n,
    decreases n,
{
    if n > 0 {
        lemma_fsum_const(f, v, (n - 1) as nat);
        assert(crate::field_laws::fsum(f, n) == crate::field_laws::fsum(f, (n - 1) as nat) + f(n - 1));
        assert(v * n == v * (n - 1) + v) by (nonlinear_arith);
    } else {
        assert(v * n == 0) by (nonlinear_arith)
            requires
                n == 0,
        ;
    }
}

} // verus!
