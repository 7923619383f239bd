//! Randomness and hashing, backed by the `rand` and `sha3` crates: the
//! entropy-seeded generator, uniform draws, SHA3-512 (`g`), SHA3-256 (`h`),
//! SHAKE256 (`j`, `prf`), the SHAKE128 stream (`XOF`), and the key
//! derivation and implicit rejection of the Fujisaki-Okamoto transform.
use vstd::prelude::*;
use rand::{Rng, RngCore, SeedableRng};
use rand::rngs::StdRng;
use sha3::{Digest, Sha3_256, Sha3_512, Shake128, Shake256};
use sha3::digest::{ExtendableOutput, Update, XofReader};

verus! {

#[verifier::external_type_specification]
#[verifier::external_body]
pub struct ExStdRng(rand::rngs::StdRng);

/// A generator seeded from the operating system's entropy
/// (`StdRng::from_entropy`). Nothing is stated of its state.
#[verifier::external_body]
pub(crate) fn new_rng() -> StdRng {
    StdRng::from_entropy()
}

/// A value drawn by `Rng::gen_range(0..bound)`, which returns a value of
/// the half-open range; the range is nonempty.
#[verifier::external_body]
pub(crate) fn rng_below_u32(rng: &mut StdRng, bound: u32) -> (r: u32)
    requires
        bound > 0,
    ensures
        r < bound,
{
    rng.gen_range(0..bound)
}

/// A value drawn by `Rng::gen_range(0..bound)` on `u64`.
#[verifier::external_body]
pub(crate) fn rng_below_u64(rng: &mut StdRng, bound: u64) -> (r: u64)
    requires
        bound > 0,
    ensures
        r < bound,
{
    rng.gen_range(0..bound)
}

/// A value drawn by `Rng::gen_range(0..bound)` on `u128`.
#[verifier::external_body]
pub(crate) fn rng_below_u128(rng: &mut StdRng, bound: u128) -> (r: u128)
    requires
        bound > 0,
    ensures
        r < bound,
{
    rng.gen_range(0..bound)
}

/// `RngCore::fill_bytes`: overwrites the buffer with random bytes. Nothing
/// is stated of the bytes.
#[verifier::external_body]
fn rng_fill_bytes<const N: usize>(rng: &mut StdRng, buf: &mut [u8; N]) {
    rng.fill_bytes(buf)
}

/// `N` random bytes from a generator seeded from the system's entropy.
pub fn random_bytes<const N: usize>() -> [u8; N] {
    let mut rng = new_rng();
    let mut res = [0u8; N];
    rng_fill_bytes(&mut rng, &mut res);
    res
}

/// The 64-byte SHA3-512 digest of `input`.
pub uninterp spec fn sha3_512(input: Seq<u8>) -> Seq<u8>;

/// Byte `index` of the SHAKE128 output stream on `input`.
pub uninterp spec fn shake128_byte(input: Seq<u8>, index: nat) -> u8;

/// Byte `index` of the SHAKE256 output stream on `input`.
pub uninterp spec fn shake256_byte(input: Seq<u8>, index: nat) -> u8;

/// `G(c)`: the SHA3-512 digest of `c` (`Sha3_512::new`, `update`,
/// `finalize`), split into its two 32-byte halves. The halves are stated to
/// make up the digest of `c`.
#[verifier::external_body]
pub fn g<const L: usize>(c: &[u8; L]) -> (r: ([u8; 32], [u8; 32]))
    ensures
        r.0@ + r.1@ == sha3_512(c@),
{
    let mut hasher = Sha3_512::new();
    Digest::update(&mut hasher, c);
    let output = hasher.finalize();
    let (a, b) = output.split_at(32);
    (a.try_into().unwrap(), b.try_into().unwrap())
}

/// The first `len` bytes of the SHAKE256 output on `input`
/// (`Shake256::default`, `update`, `finalize_xof`, `read`).
#[verifier::external_body]
fn shake256(input: &[u8], len: usize) -> (r: Vec<u8>)
    ensures
        r@.len() == len,
        forall|i: int| 0 <= i < len ==> r@[i] == shake256_byte(input@, i as nat),
{
    let mut hasher = Shake256::default();
    hasher.update(input);
    let mut reader = hasher.finalize_xof();
    let mut res = vec![0u8; len];
    XofReader::read(&mut reader, &mut res);
    res
}

/// The first `len` bytes of the SHAKE128 output on `input`
/// (`Shake128::default`, `update`, `finalize_xof`, `read`).
#[verifier::external_body]
fn shake128(input: &[u8], len: usize) -> (r: Vec<u8>)
    ensures
        r@.len() == len,
        forall|i: int| 0 <= i < len ==> r@[i] == shake128_byte(input@, i as nat),
{
    let mut hasher = Shake128::default();
    hasher.update(input);
    let mut reader = hasher.finalize_xof();
    let mut res = vec![0u8; len];
    XofReader::read(&mut reader, &mut res);
    res
}

/// The 32-byte SHA3-256 digest of `input`.
pub uninterp spec fn sha3_256(input: Seq<u8>) -> Seq<u8>;

/// `H(s)`: the SHA3-256 digest of `s` (`Sha3_256::new`, `update`,
/// `finalize`), stated to be the digest named `sha3_256` of the bytes.
#[verifier::external_body]
pub fn h(s: &Vec<u8>) -> (r: [u8; 32])
    ensures
        r@ == sha3_256(s@),
{
    let mut hasher = Sha3_256::new();
    Digest::update(&mut hasher, s);
    hasher.finalize().into()
}

/// The first `len` bytes of the SHAKE256 stream on `input`.
pub open spec fn shake256_prefix(input: Seq<u8>, len: nat) -> Seq<u8> {
    Seq::new(len, |i: int| shake256_byte(input, i as nat))
}

/// `PRF_eta(s, b)`: the first `64 * eta` bytes of SHAKE256 on `s || b`.
pub fn prf(s: &[u8; 32], b: u8, eta: usize) -> (r: Vec<u8>)
    requires
        64 * eta <= usize::MAX,
    ensures
        r@ == shake256_prefix(s@.push(b), (64 * eta) as nat),
{
    let mut input: Vec<u8> = Vec::with_capacity(33);
    let mut i: usize = 0;
    while i < 32
        invariant
            i <= 32,
            input@ == s@.subrange(0, i as int),
        decreases 32 - i,
    {
        input.push(s[i]);
        proof {
            assert(input@ =~= s@.subrange(0, i + 1));
        }
        i = i + 1;
    }
    input.push(b);
    proof {
        assert(input@ =~= s@.push(b));
    }
    let r = shake256(input.as_slice(), 64 * eta);
    proof {
        assert(r@ =~= shake256_prefix(s@.push(b), (64 * eta) as nat));
    }
    r
}

/// `J(s)`: the first 32 bytes of SHAKE256 on `s`.
pub fn j(s: Vec<u8>) -> (r: [u8; 32])
    ensures
        r@ == shake256_prefix(s@, 32),
{
    let bytes = shake256(s.as_slice(), 32);
    proof {
        assert(bytes@ =~= shake256_prefix(s@, 32));
    }
    let mut res = [0u8; 32];
    let mut i: usize = 0;
    while i < 32
        invariant
            i <= 32,
            bytes@ == shake256_prefix(s@, 32),
            forall|k: int| 0 <= k < i ==> res@[k] == bytes@[k],
        decreases 32 - i,
    {
        res[i] = bytes[i];
        i = i + 1;
    }
    proof {
        assert(res@ =~= shake256_prefix(s@, 32));
    }
    res
}

/// The key and the coins of the Fujisaki-Okamoto transform: `G(m || h)`
/// for the message `m` and the hash `h = H(ek)` of the encryption key.
pub fn fo_key_and_coins(m: &[u8; 32], ek_hash: &[u8; 32]) -> (r: ([u8; 32], [u8; 32]))
    ensures
        r.0@ + r.1@ == sha3_512(m@ + ek_hash@),
{
    let mut combined = [0u8; 64];
    let mut i: usize = 0;
    while i < 64
        invariant
            i <= 64,
            forall|k: int| 0 <= k < i ==> combined@[k] == (m@ + ek_hash@)[k],
        decreases 64 - i,
    {
        if i < 32 {
            combined[i] = m[i];
        } else {
            combined[i] = ek_hash[i - 32];
        }
        i = i + 1;
    }
    proof {
        assert(combined@ =~= m@ + ek_hash@);
    }
    g(&combined)
}

/// Implicit rejection of the Fujisaki-Okamoto transform: the candidate key
/// when the re-encryption matched the ciphertext, and `J(z || c)` (from the
/// rejection seed `z` and the ciphertext bytes `c`) when it did not.
pub fn fo_select_key(key_candidate: [u8; 32], ct_match: bool, z: &[u8; 32], ct_bytes: &[u8]) -> (r: [u8; 32])
    ensures
        r@ == (if ct_match {
            key_candidate@
        } else {
            shake256_prefix(z@ + ct_bytes@, 32)
        }),
{
    if ct_match {
        key_candidate
    } else {
        let mut input: Vec<u8> = Vec::new();
        let mut i: usize = 0;
        while i < 32
            invariant
                i <= 32,
                input@ == z@.subrange(0, i as int),
            decreases 32 - i,
        {
            input.push(z[i]);
            proof {
                assert(input@ =~= z@.subrange(0, i + 1));
            }
            i = i + 1;
        }
        let mut k: usize = 0;
        while k < ct_bytes.len()
            invariant
                k <= ct_bytes@.len(),
                input@ == z@ + ct_bytes@.subrange(0, k as int),
            decreases ct_bytes@.len() - k,
        {
            input.push(ct_bytes[k]);
            proof {
                assert(input@ =~= z@ + ct_bytes@.subrange(0, k + 1));
            }
            k = k + 1;
        }
        proof {
            assert(z@.subrange(0, 32) =~= z@);
            assert(ct_bytes@.subrange(0, ct_bytes@.len() as int) =~= ct_bytes@);
        }
        j(input)
    }
}

/// The SHAKE128 stream on `p || i || j`, read three bytes at a time.
pub struct XOF {
    input: Vec<u8>,
    buffer: Vec<u8>,
    pos: usize,
}

impl XOF {
    /// The bytes the stream is computed on.
    pub closed spec fn input(&self) -> Seq<u8> {
        self.input@
    }

    /// How many bytes have been read.
    pub closed spec fn position(&self) -> nat {
        self.pos as nat
    }

    /// The buffered bytes are the start of the stream, and the read position
    /// lies within them.
    pub closed spec fn wf(&self) -> bool {
        &&& self.pos <= self.buffer@.len()
        &&& forall|k: int|
            0 <= k < self.buffer@.len() ==> #[trigger] self.buffer@[k] == shake128_byte(self.input@, k as nat)
    }

    /// The stream on `p || i || j`, at its start.
    pub fn new(p: &[u8], i: u8, j: u8) -> (x: XOF)
        ensures
            x.wf(),
            x.input() == p@.push(i).push(j),
            x.position() == 0,
    {
        let mut input: Vec<u8> = Vec::new();
        let mut k: usize = 0;
        while k < p.len()
            invariant
                k <= p@.len(),
                input@ == p@.subrange(0, k as int),
            decreases p@.len() - k,
        {
            input.push(p[k]);
            proof {
                assert(input@ =~= p@.subrange(0, k + 1));
            }
            k = k + 1;
        }
        input.push(i);
        input.push(j);
        proof {
            assert(input@ =~= p@.push(i).push(j));
        }
        XOF { input, buffer: Vec::new(), pos: 0 }
    }

    /// The next three bytes of the stream.
    pub fn get_3_bytes(&mut self, buf: &mut [u8; 3])
        requires
            old(self).wf(),
            old(self).position() + 3 <= usize::MAX / 2,
        ensures
            final(self).wf(),
            final(self).input() == old(self).input(),
            final(self).position() == old(self).position() + 3,
            forall|k: int|
                0 <= k < 3 ==> #[trigger] final(buf)[k] == shake128_byte(
                    old(self).input(),
                    (old(self).position() + k) as nat,
                ),
    {
        if self.pos + 3 > self.buffer.len() {
            let want = if 2 * self.buffer.len() > self.pos + 3 {
                2 * self.buffer.len()
            } else {
                self.pos + 171
            };
            self.buffer = shake128(self.input.as_slice(), want);
        }
        let p = self.pos;
        buf[0] = self.buffer[p];
        buf[1] = self.buffer[p + 1];
        buf[2] = self.buffer[p + 2];
        self.pos = p + 3;
    }
}

} // verus!
