//! SplitMix64: a small non-cryptographic generator that makes the inputs of
//! repeated runs distinct. The state advances by the golden-ratio increment
//! modulo `2^64`, and each output is a fixed mixing of the new state.
use vstd::prelude::*;

verus! {

/// The golden-ratio increment of the state.
pub const SPLITMIX_GAMMA: u64 = 0x9E37_79B9_7F4A_7C15;

/// `x * y` modulo `2^64`.
pub open spec fn mul_mod64(x: u64, y: u64) -> u64 {
    ((x as nat * y as nat) % 0x1_0000_0000_0000_0000) as u64
}

/// The state after one step: `s + GAMMA` modulo `2^64`.
pub open spec fn splitmix_advance(s: u64) -> u64 {
    if s + SPLITMIX_GAMMA > u64::MAX {
        (s + SPLITMIX_GAMMA - 0x1_0000_0000_0000_0000) as u64
    } else {
        (s + SPLITMIX_GAMMA) as u64
    }
}

/// The output for the (already advanced) state `s`.
pub open spec fn splitmix_mix(s: u64) -> u64 {
    let z1 = mul_mod64(s ^ (s >> 30u64), 0xBF58_476D_1CE4_E5B9);
    let z2 = mul_mod64(z1 ^ (z1 >> 27u64), 0x94D0_49BB_1331_11EB);
    z2 ^ (z2 >> 31u64)
}

/// The state after `k` steps from `s`.
pub open spec fn splitmix_state(s: u64, k: nat) -> u64
    decreases k,
{
    if k == 0 {
        s
    } else {
        splitmix_advance(splitmix_state(s, (k - 1) as nat))
    }
}

/// Output number `k` (from zero) of the generator started at `s`.
pub open spec fn splitmix_output(s: u64, k: nat) -> u64 {
    splitmix_mix(splitmix_state(s, k + 1))
}

/// Byte `j < 8` of `v` in little-endian order.
pub open spec fn le_byte(v: u64, j: nat) -> u8 {
    ((v >> ((8 * j) as u64)) & 0xff) as u8
}

/// The `len` bytes that `fill` writes from the generator started at `s`:
/// the outputs in turn, each as eight little-endian bytes, the last one cut
/// short.
pub open spec fn splitmix_bytes(s: u64, len: nat) -> Seq<u8> {
    Seq::new(len, |i: int| le_byte(splitmix_output(s, (i / 8) as nat), (i % 8) as nat))
}

/// A SplitMix64 generator; the field is its state.
pub struct SplitMix64(pub u64);

impl SplitMix64 {
    /// Advance the state and return the mixing of the new state.
    pub fn next_u64(&mut self) -> (r: u64)
        ensures
            final(self).0 == splitmix_advance(old(self).0),
            r == splitmix_mix(final(self).0),
    {
        self.0 = self.0.wrapping_add(SPLITMIX_GAMMA);
        let mut z = self.0;
        z = (z ^ (z >> 30)).wrapping_mul(0xBF58_476D_1CE4_E5B9);
        z = (z ^ (z >> 27)).wrapping_mul(0x94D0_49BB_1331_11EB);
        z ^ (z >> 31)
    }

    /// Fill `out` with the next outputs, eight little-endian bytes each
    /// (the last output cut to what is left).
    pub fn fill(&mut self, out: &mut [u8])
        ensures
            final(out)@.len() == old(out)@.len(),
            final(out)@ == splitmix_bytes(old(self).0, old(out)@.len()),
            final(self).0 == splitmix_state(old(self).0, ((old(out)@.len() + 7) / 8) as nat),
    {
        let ghost s0 = self.0;
        let len = out.len();
        let mut pos: usize = 0;
        let mut k: usize = 0;
        while pos < len
            invariant
                out@.len() == len,
                pos == 8 * k || pos == len,
                pos <= len,
                k == (pos + 7) / 8,
                self.0 == splitmix_state(s0, k as nat),
                forall|i: int| 0 <= i < pos ==> #[trigger] out@[i] == splitmix_bytes(s0, len as nat)[i],
            decreases len - pos,
        {
            let v = self.next_u64();
            proof {
                assert(v == splitmix_output(s0, k as nat));
            }
            let mut j: usize = 0;
            while j < 8 && pos < len
                invariant
                    out@.len() == len,
                    j <= 8,
                    pos == 8 * k + j,
                    pos <= len,
                    v == splitmix_output(s0, k as nat),
                    forall|i: int| 0 <= i < pos ==> #[trigger] out@[i] == splitmix_bytes(s0, len as nat)[i],
                decreases 8 - j,
            {
                let b = ((v >> (8 * j as u64)) & 0xff) as u8;
                proof {
                    assert(pos / 8 == k && pos % 8 == j) by {
                        vstd::arithmetic::div_mod::lemma_fundamental_div_mod_converse(pos as int, 8, k as int, j as int);
                    }
                    assert(b == le_byte(v, j as nat));
                }
                out[pos] = b;
                pos = pos + 1;
                j = j + 1;
            }
            k = k + 1;
            proof {
                assert(pos == 8 * k || pos == len);
            }
        }
        proof {
            assert(out@ =~= splitmix_bytes(s0, len as nat));
        }
    }
}

/// 32 bytes from the generator: its next four outputs, little-endian.
pub fn rand_b32(rng: &mut SplitMix64) -> (r: [u8; 32])
    ensures
        r@ == splitmix_bytes(old(rng).0, 32),
        final(rng).0 == splitmix_state(old(rng).0, 4),
{
    let mut out = [0u8; 32];
    rng.fill(&mut out);
    out
}

} // verus!
