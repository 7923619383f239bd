pub mod arith;
pub mod params;
pub mod util;
pub mod crypt;
pub mod shamir;
pub mod shamir_ring;
pub mod additive_2k;
pub mod ring;
pub mod additive_ring;
pub mod linalg;
pub mod negacyclic;
pub mod dealer;
pub mod sample;
pub mod kpke;
pub mod party;
pub mod threshold;
pub mod dealer_spdz;
pub mod party_spdz;
pub mod threshold_decrypt;
pub mod montgomery;
pub mod ntt_ctx;
pub mod ring_algebra;
pub mod lwe;
pub mod ntt_laws;
pub mod field_laws;
pub mod lagrange_laws;
pub mod committee_laws;
pub mod ring_laws;
pub mod kpke_laws;
pub mod nega_laws;
pub mod kpke_2k_laws;
pub mod ring_mult_laws;
pub mod ctx_mult_laws;
pub mod splitmix;
pub mod kem;
