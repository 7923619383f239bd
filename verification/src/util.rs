use vstd::prelude::*;
use vstd::arithmetic::power::*;
use vstd::arithmetic::power2::*;
use vstd::arithmetic::div_mod::*;
use vstd::arithmetic::mul::*;
use vstd::bits::*;
use crate::params::Q64;
use crate::arith::lemma_square_multiply_step;

verus! {

/// The `n` low bits of `x`, read in reverse order: bit `b` of `x` becomes
/// bit `n - 1 - b` of the result.
pub open spec fn bit_reverse_spec(x: nat, n: nat) -> nat
    decreases n,
{
    if n == 0 {
        0
    } else {
        (x % 2) * pow2((n - 1) as nat) + bit_reverse_spec(x / 2, (n - 1) as nat)
    }
}

proof fn lemma_bit_reverse_bound(x: nat, n: nat)
    ensures
        bit_reverse_spec(x, n) < pow2(n),
    decreases n,
{
    if n == 0 {
        lemma_pow2_pos(0);
        lemma2_to64();
    } else {
        lemma_bit_reverse_bound(x / 2, (n - 1) as nat);
        lemma_pow2_unfold(n);
        assert(x % 2 <= 1);
        assert((x % 2) * pow2((n - 1) as nat) <= pow2((n - 1) as nat)) by (nonlinear_arith)
            requires x % 2 <= 1;
    }
}

/// Reverses the 7 low bits of `x` (the high bit of `x` is dropped): bit
/// `b` of the result is bit `6 - b` of `x`, and reversing the result again
/// (`bitrev7(r)`) gives `x & 0x7f`.
pub fn bitrev7(x: u8) -> (r: u8)
    ensures
        r as nat == bit_reverse_spec(x as nat, 7),
        r < 128,
        forall|b: u8| b < 7 ==> (r >> b) & 1 == (#[trigger] (x >> (6 - b))) & 1,
        bit_reverse_spec(r as nat, 7) == x & 0x7f,
{
    let ghost x0 = x;
    let mut x = x;
    let mut y: u8 = 0;
    let mut i: u8 = 0;
    proof {
        lemma2_to64();
        lemma_pow2_unfold(7);
    }
    while i < 7
        invariant
            i <= 7,
            y < pow2(i as nat),
            x as nat == x0 as nat / pow2(i as nat),
            y * pow2((7 - i) as nat) + bit_reverse_spec(x as nat, (7 - i) as nat)
                == bit_reverse_spec(x0 as nat, 7),
        decreases 7 - i,
    {
        proof {
            lemma2_to64();
            lemma_pow2_unfold((7 - i) as nat);
            lemma_pow2_unfold((i + 1) as nat);
            assert(y < 64) by {
                if i < 6 { lemma_pow2_strictly_increases(i as nat, 6); }
            }
        }
        let bit = x & 1;
        assert(bit == x % 2) by (bit_vector) requires bit == x & 1;
        let ny = (y << 1) | bit;
        assert(y < 64 && bit <= 1 ==> ny == 2 * y + bit) by (bit_vector)
            requires ny == (y << 1) | bit;
        let nx = x >> 1;
        assert(nx == x / 2) by (bit_vector) requires nx == x >> 1;
        proof {
            let m = (7 - i) as nat;
            assert(bit_reverse_spec(x as nat, m) == (x as nat % 2) * pow2((m - 1) as nat)
                + bit_reverse_spec(x as nat / 2, (m - 1) as nat));
            assert(y * pow2(m) == 2 * y * pow2((m - 1) as nat)) by (nonlinear_arith)
                requires pow2(m) == 2 * pow2((m - 1) as nat);
            assert(ny * pow2((m - 1) as nat) == 2 * y * pow2((m - 1) as nat) + bit * pow2((m - 1) as nat))
                by (nonlinear_arith) requires ny == 2 * y + bit;
            lemma_pow2_pos(i as nat);
            lemma_div_denominator(x0 as int, pow2(i as nat) as int, 2);
            lemma_pow2_adds(i as nat, 1);
            lemma_pow1(2);
        }
        y = ny;
        x = nx;
        i = i + 1;
    }
    proof {
        lemma2_to64();
        assert(i == 7);
        assert(bit_reverse_spec(x as nat, 0) == 0);
        assert(y * pow2(0) == y);
        assert(y as nat == bit_reverse_spec(x0 as nat, 7));
        lemma_bitrev7_reverses(x0);
        assert(y as nat as u8 == y);
    }
    y
}

/// `base^exp mod q`, by square-and-multiply with 64-bit intermediates.
pub fn fastmodpow(base: u32, exp: u8) -> (r: u32)
    ensures
        r as int == pow(base as int, exp as nat) % (Q64 as int),
{
    let mut base: u64 = base as u64;
    let mut exp: u64 = exp as u64;
    let mut result: u64 = 1;
    let ghost b0 = base as int;
    let ghost e0 = exp as nat;
    proof {
        lemma_pow0(base as int);
    }
    while exp > 0
        invariant
            result < Q64 || result == 1,
            base < 0x1_0000_0000,
            (result * pow(base as int, exp as nat)) % (Q64 as int) == pow(b0, e0) % (Q64 as int),
        decreases exp,
    {
        proof {
            lemma_square_multiply_step(result as int, base as int, exp as nat, Q64 as int);
        }
        if exp % 2 == 1 {
            assert(result * base < 0x1_0000_0000 * 0x1_0000_0000) by (nonlinear_arith)
                requires result < 0x1_0000_0000, base < 0x1_0000_0000;
            result = (result * base) % Q64;
        }
        let e2 = exp >> 1;
        assert(e2 == exp / 2) by (bit_vector) requires e2 == exp >> 1;
        exp = e2;
        assert(base * base < 0x1_0000_0000 * 0x1_0000_0000) by (nonlinear_arith)
            requires base < 0x1_0000_0000;
        base = (base * base) % Q64;
    }
    proof {
        lemma_pow0(base as int);
        lemma_small_mod(result as nat, Q64 as nat);
    }
    result as u32
}

/// Reversing the bits of zero gives zero.
pub proof fn lemma_bit_reverse_of_zero(n: nat)
    ensures
        bit_reverse_spec(0, n) == 0,
    decreases n,
{
    if n > 0 {
        assert(0nat / 2 == 0 && 0nat % 2 == 0);
        lemma_bit_reverse_of_zero((n - 1) as nat);
    }
}

/// Reversing `n` bits of one gives `2^(n-1)`.
pub proof fn lemma_bit_reverse_one(n: nat)
    requires
        n >= 1,
    ensures
        bit_reverse_spec(1, n) == pow2((n - 1) as nat),
{
    assert(1nat / 2 == 0 && 1nat % 2 == 1);
    lemma_bit_reverse_of_zero((n - 1) as nat);
}

/// Two `n`-bit values that are each other's complement have reversals that
/// are each other's complement.
pub proof fn lemma_bit_reverse_complement(x: nat, y: nat, n: nat)
    requires
        x + y + 1 == pow2(n),
    ensures
        bit_reverse_spec(x, n) + bit_reverse_spec(y, n) + 1 == pow2(n),
    decreases n,
{
    if n == 0 {
        lemma2_to64();
    } else {
        lemma_pow2_unfold(n);
        let h = pow2((n - 1) as nat);
        assert(x % 2 + y % 2 == 1 && x / 2 + y / 2 + 1 == h) by {
            lemma_fundamental_div_mod(x as int, 2);
            lemma_fundamental_div_mod(y as int, 2);
        }
        lemma_bit_reverse_complement(x / 2, y / 2, (n - 1) as nat);
        let xb = x % 2;
        let yb = y % 2;
        assert(xb * h + yb * h == h) by (nonlinear_arith)
            requires
                xb + yb == 1,
        ;
    }
}

/// Reversing `n` bits of `2^l c + b`, with `b < 2^l`, places the reversed
/// low `l` bits `b` above the reversed remaining `n - l` bits of `c`.
pub proof fn lemma_bit_reverse_split(c: nat, b: nat, l: nat, n: nat)
    requires
        l <= n,
        b < pow2(l),
    ensures
        bit_reverse_spec(pow2(l) * c + b, n) == bit_reverse_spec(b, l) * pow2((n - l) as nat)
            + bit_reverse_spec(c, (n - l) as nat),
    decreases l,
{
    if l == 0 {
        lemma2_to64();
        assert(b == 0);
        assert(pow2(0) * c + b == c);
    } else {
        lemma_pow2_unfold(l);
        let pl1 = pow2((l - 1) as nat);
        let x = pow2(l) * c + b;
        let x2 = pl1 * c + b / 2;
        assert(x % 2 == b % 2 && x / 2 == x2) by {
            lemma_fundamental_div_mod(b as int, 2);
            assert(x == 2 * x2 + b % 2) by (nonlinear_arith)
                requires
                    x == pow2(l) * c + b,
                    pow2(l) == 2 * pl1,
                    x2 == pl1 * c + b / 2,
                    b == 2 * (b / 2) + b % 2,
            ;
            lemma_fundamental_div_mod_converse(x as int, 2, x2 as int, (b % 2) as int);
        }
        assert(b / 2 < pl1) by {
            lemma_fundamental_div_mod(b as int, 2);
        }
        lemma_bit_reverse_split(c, b / 2, (l - 1) as nat, (n - 1) as nat);
        lemma_pow2_adds((l - 1) as nat, (n - l) as nat);
        assert(((l - 1) as nat + (n - l) as nat) as nat == (n - 1) as nat);
        let brb2 = bit_reverse_spec(b / 2, (l - 1) as nat);
        let pnl = pow2((n - l) as nat);
        assert(((b % 2) * pl1 + brb2) * pnl == (b % 2) * (pl1 * pnl) + brb2 * pnl) by (nonlinear_arith);
    }
}

/// The twiddle factors of a butterfly block and of its partner in the
/// inverse transform: for `m = 2^l <= 64` and `b < m`, the reversed 7-bit
/// indices `m + b` and `2m - 1 - b` add up to 128.
pub proof fn lemma_twiddle_indices(l: nat, b: nat)
    requires
        l <= 6,
        b < pow2(l),
    ensures
        bit_reverse_spec(pow2(l) + b, 7) + bit_reverse_spec((2 * pow2(l) - 1 - b) as nat, 7) == 128,
{
    let m = pow2(l);
    let b2 = (m - 1 - b) as nat;
    lemma_bit_reverse_split(1, b, l, 7);
    lemma_bit_reverse_split(1, b2, l, 7);
    assert(m * 1 + b == m + b);
    assert(m * 1 + b2 == (2 * m - 1 - b) as nat);
    lemma_bit_reverse_one((7 - l) as nat);
    lemma_bit_reverse_complement(b, b2, l);
    lemma_pow2_unfold((7 - l) as nat);
    lemma_pow2_adds(l, (7 - l) as nat);
    lemma2_to64();
    let p = pow2((7 - l) as nat);
    let s1 = bit_reverse_spec(b, l);
    let s2 = bit_reverse_spec(b2, l);
    assert(s1 * p + s2 * p + p == (s1 + s2 + 1) * p) by (nonlinear_arith);
}


/// Reversing `n` bits twice gives the `n` low bits back.
pub proof fn lemma_bit_reverse_involution(x: nat, n: nat)
    ensures
        bit_reverse_spec(bit_reverse_spec(x, n), n) == x % pow2(n),
    decreases n,
{
    if n == 0 {
        lemma2_to64();
    } else {
        let n1 = (n - 1) as nat;
        let b = x % 2;
        let r = bit_reverse_spec(x / 2, n1);
        lemma_bit_reverse_bound(x / 2, n1);
        assert(bit_reverse_spec(x, n) == pow2(n1) * b + r) by {
            lemma_mul_is_commutative(b as int, pow2(n1) as int);
        }
        lemma_bit_reverse_split(b, r, n1, n);
        assert((n - n1) as nat == 1);
        lemma2_to64();
        assert(bit_reverse_spec(b, 1) == b) by {
            assert(bit_reverse_spec(b, 1) == (b % 2) * pow2(0) + bit_reverse_spec(b / 2, 0));
        }
        lemma_bit_reverse_involution(x / 2, n1);
        lemma_pow2_unfold(n);
        lemma_pow2_pos(n1);
        lemma_mod_breakdown(x as int, 2, pow2(n1) as int);
    }
}

/// Bit `b` of the `n`-bit reversal of `x` is bit `n - 1 - b` of `x`.
pub proof fn lemma_bit_reverse_bit(x: nat, n: nat, b: nat)
    requires
        b < n,
    ensures
        (bit_reverse_spec(x, n) / pow2(b)) % 2 == (x / pow2((n - 1 - b) as nat)) % 2,
    decreases n,
{
    let n1 = (n - 1) as nat;
    let r = bit_reverse_spec(x / 2, n1);
    let top = x % 2;
    lemma_bit_reverse_bound(x / 2, n1);
    lemma_pow2_pos(b);
    lemma_pow2_pos(n1);
    let xr = bit_reverse_spec(x, n);
    assert(xr == top * pow2(n1) + r);
    if b == n1 {
        lemma_fundamental_div_mod_converse(xr as int, pow2(n1) as int, top as int, r as int);
        assert((n - 1 - b) as nat == 0);
        lemma2_to64();
    } else {
        let m = pow2(b) as int;
        let e = (n1 - b) as nat;
        lemma_pow2_adds(b, e);
        assert((b + e) as nat == n1);
        lemma_pow2_unfold(e);
        let h = pow2((e - 1) as nat) as int;
        lemma_fundamental_div_mod(r as int, m);
        lemma_mod_bound(r as int, m);
        let qr = r as int / m;
        assert(xr == m * (2 * (top * h) + qr) + r as int % m) by (nonlinear_arith)
            requires
                xr == top * pow2(n1) + r,
                pow2(n1) == m * pow2(e),
                pow2(e) == 2 * h,
                r == m * qr + r as int % m,
        ;
        lemma_fundamental_div_mod_converse(xr as int, m, 2 * (top * h) + qr, r as int % m);
        lemma_mod_multiples_vanish(top * h, qr, 2);
        lemma_bit_reverse_bit(x / 2, n1, b);
        assert((n1 - 1 - b) as nat + 1 == (n - 1 - b) as nat);
        lemma_pow2_unfold((n - 1 - b) as nat);
        assert(((n - 1 - b) as nat - 1) as nat == (n1 - 1 - b) as nat);
        lemma_pow2_pos((n1 - 1 - b) as nat);
        lemma_div_denominator(x as int, 2, pow2((n1 - 1 - b) as nat) as int);
    }
}

/// `bitrev7` reverses the seven low bits: the result `r` is below 128,
/// bit `b` of `r` is bit `6 - b` of `x`, and reversing `r` gives the seven
/// low bits of `x` back.
pub proof fn lemma_bitrev7_reverses(x: u8)
    ensures
        ({
            let r = bit_reverse_spec(x as nat, 7);
            &&& r < 128
            &&& forall|b: u8| b < 7 ==> ((r as u8) >> b) & 1 == (#[trigger] (x >> (6 - b))) & 1
            &&& bit_reverse_spec(r, 7) == x & 0x7f
        }),
{
    let r = bit_reverse_spec(x as nat, 7);
    lemma_bit_reverse_bound(x as nat, 7);
    lemma2_to64();
    assert(r < 128);
    let ru = r as u8;
    assert forall|b: u8| b < 7 implies ((r as u8) >> b) & 1 == (#[trigger] (x >> (6 - b))) & 1 by {
        lemma_u8_shr_is_div(ru, b);
        lemma_u8_shr_is_div(x, (6 - b) as u8);
        lemma_bit_reverse_bit(x as nat, 7, b as nat);
        assert((7 - 1 - b) as nat == (6 - b) as nat);
        let y1 = ru >> b;
        let y2 = x >> (6 - b);
        assert(y1 & 1 == y1 % 2) by (bit_vector);
        assert(y2 & 1 == y2 % 2) by (bit_vector);
    }
    lemma_bit_reverse_involution(x as nat, 7);
    assert(x & 0x7f == x % 128) by (bit_vector);
}

} // verus!
