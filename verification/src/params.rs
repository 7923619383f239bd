//! Parameter sets and constants.
//!
//! - `N` is the ring degree (256 coefficients per polynomial).
//! - `Q` is the prime modulus of the coefficient field, and `ZETA` a primitive
//!   256-th root of unity modulo `Q` (`ZETA^128 = -1 mod Q`), used by the NTT.
//! - `K_BITS` gives the power-of-two modulus `2^K_BITS` of the `Z_{2^k}` branch.
//!
//! Each parameter-set struct fixes the module rank `K`, the noise widths
//! `ETA_1`, `ETA_2` and the ciphertext compression widths `D_U`, `D_V`.
use vstd::prelude::*;

verus! {

pub const N: usize = 256;

pub const Q: u32 = 687659009;

pub const Q32: u32 = 687659009;

pub const Q64: u64 = 687659009;

pub const ZETA: u32 = 174453379;

/// The field modulus `Q` as a mathematical integer.
pub open spec fn field_q() -> int {
    Q64 as int
}

/// Bit width of the power-of-two modulus of the `Z_{2^k}` branch.
pub const K_BITS: u32 = 30;

/// Values of a parameter set. Functions generic over parameter sets take this
/// trait as a bound.
pub trait MlKemParams {
    const K: usize;
    const ETA_1: usize;
    const ETA_2: usize;
    const D_U: usize;
    const D_V: usize;
}

#[derive(Debug)]
pub struct MlKem512;

impl MlKemParams for MlKem512 {
    const K: usize = 2;
    const ETA_1: usize = 3;
    const ETA_2: usize = 2;
    const D_U: usize = 21;
    const D_V: usize = 18;
}

#[derive(Debug)]
pub struct MlKem768;

impl MlKemParams for MlKem768 {
    const K: usize = 3;
    const ETA_1: usize = 2;
    const ETA_2: usize = 2;
    const D_U: usize = 10;
    const D_V: usize = 4;
}

#[derive(Debug)]
pub struct MlKem1024;

impl MlKemParams for MlKem1024 {
    const K: usize = 4;
    const ETA_1: usize = 2;
    const ETA_2: usize = 2;
    const D_U: usize = 11;
    const D_V: usize = 5;
}

/// Ladon parameter set at 128-bit computational security (module rank 6).
#[derive(Debug)]
pub struct Ladon128;

impl MlKemParams for Ladon128 {
    const K: usize = 6;
    const ETA_1: usize = 2;
    const ETA_2: usize = 2;
    const D_U: usize = 28;
    const D_V: usize = 23;
}

/// Ladon parameter set at 256-bit computational security (module rank 10).
#[derive(Debug)]
pub struct Ladon256;

impl MlKemParams for Ladon256 {
    const K: usize = 10;
    const ETA_1: usize = 2;
    const ETA_2: usize = 2;
    const D_U: usize = 28;
    const D_V: usize = 26;
}

} // verus!
