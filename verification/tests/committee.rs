use ladon::additive_2k::SpdzParams;
use ladon::dealer::{Dealer, ThrParams};
use ladon::kpke::{decrypt, encrypt, key_gen_from_seed};
use ladon::params;
use ladon::party::mod_switch_coeff;
use ladon::ring::{Compressed, Ring};
use ladon::shamir_ring::reconstruct_vector;
use ladon::threshold::{assemble_parties, decode_coeff as decode_coeff_u64, open_v, receiver_reconstruct, threshold_decrypt};
use ladon::threshold_decrypt::{decode_coeff, open_e_tilde};
use ladon::dealer_spdz::DealerSpdz;
use ladon::kpke::{decrypt_2k, encrypt_2k, key_gen_2k_from_seed};
use ladon::negacyclic::{decompress_ring_2k, decompress_vector_2k};
use ladon::params::K_BITS;
use ladon::threshold_decrypt::{
    assemble_parties as assemble_spdz, receiver_reconstruct as receiver_spdz,
    threshold_decrypt as threshold_decrypt_spdz,
};

#[test]
fn test_mod_switch_coeff_basic() {
    let q = params::Q64;
    let eta = q - 1;
    assert_eq!(mod_switch_coeff(0, q, eta), 0);
    assert_eq!(mod_switch_coeff(1, q, eta), 1);
    assert_eq!(mod_switch_coeff(12345, q, eta), 12345);
    assert_eq!(mod_switch_coeff(q - 1, q, eta), eta - 1);
}

#[test]
fn test_decode_coeff_bits() {
    let q_prime: u128 = 1 << 20;
    let mu_prime = q_prime / 2;
    let p: u128 = 2;
    assert_eq!(decode_coeff(0, q_prime, mu_prime, p), 0);
    assert_eq!(decode_coeff(mu_prime, q_prime, mu_prime, p), 1);
    assert_eq!(decode_coeff(mu_prime + 7, q_prime, mu_prime, p), 1);
    assert_eq!(decode_coeff(q_prime - 5, q_prime, mu_prime, p), 0);
}

#[test]
fn test_open_e_tilde_sum() {
    let thr = SpdzParams::new(20, 40, 2);
    let n = 3;
    let ell = 4;
    let mut shares: Vec<Vec<[u128; 256]>> = vec![vec![[0u128; 256]; ell]; n];
    for i in 0..n {
        for j in 0..ell {
            for c in 0..256 {
                shares[i][j][c] =
                    ((i as u128 + 1) * (j as u128 + 1) * (c as u128 + 1) * 7) % thr.mu_prime;
            }
        }
    }
    let e_tilde = open_e_tilde(&shares, &thr);
    assert_eq!(e_tilde.len(), ell);
    for j in 0..ell {
        for c in 0..256 {
            let expected = shares.iter().fold(0u128, |a, s| (a + s[j][c]) % thr.mu_prime);
            assert_eq!(e_tilde[j][c], expected);
        }
    }
}

#[test]
fn thr_params_exact_values() {
    let thr = ThrParams::new(2);
    assert_eq!(thr.q, 687_659_009);
    assert_eq!(thr.q_prime, 1 << 29);
    assert_eq!(thr.mu, 687_659_009 / 2);
    assert_eq!(thr.mu_prime, 1 << 28);
}

#[test]
fn decode_coeff_centres_and_rounds() {
    let q_prime: u64 = 1 << 29;
    let mu_prime: u64 = 1 << 28;
    assert_eq!(decode_coeff_u64(0, q_prime, mu_prime, 2), 0);
    assert_eq!(decode_coeff_u64(mu_prime, q_prime, mu_prime, 2), 1);
    assert_eq!(decode_coeff_u64(mu_prime / 2 - 1, q_prime, mu_prime, 2), 0);
    assert_eq!(decode_coeff_u64(mu_prime / 2, q_prime, mu_prime, 2), 1);
    assert_eq!(decode_coeff_u64(q_prime - 3, q_prime, mu_prime, 2), 0);
    assert_eq!(decode_coeff_u64(q_prime + mu_prime, q_prime, mu_prime, 2), 1);
}

#[test]
fn open_v_sums_modulo_mu_prime() {
    let thr = ThrParams::new(2);
    let a: Vec<[u64; 256]> = vec![[thr.mu_prime - 1; 256], [5; 256]];
    let b: Vec<[u64; 256]> = vec![[3; 256], [thr.mu_prime - 5; 256]];
    let opened = open_v(&[a, b], &thr);
    assert_eq!(opened.len(), 2);
    assert_eq!(opened[0][0], 2);
    assert_eq!(opened[1][255], 0);
}

fn message_ring(bytes: &[u8; 32]) -> Compressed<1, Ring> {
    let mut r = Ring::zeroes_degree255();
    for c in 0..256 {
        r.data[c] = ((bytes[c / 8] >> (c % 8)) & 1) as u32;
    }
    Compressed(r)
}

#[test]
fn kpke_round_trip_recovers_message() {
    const K: usize = 6;
    let d = [7u8; 32];
    let ((t, rho), s) = key_gen_from_seed::<K>(&d, 2);
    let mut msg = [0u8; 32];
    for i in 0..32 {
        msg[i] = (i as u8).wrapping_mul(37) ^ 0x5a;
    }
    let m = message_ring(&msg);
    let c = encrypt::<K, 28, 23>((t, rho), m, [9u8; 32], 2, 2);
    let m2 = decrypt::<K, 28, 23>(s, c);
    for i in 0..256 {
        assert_eq!(m2.0.data[i], m.0.data[i], "bit {i}");
    }
}

#[test]
fn threshold_decryption_recovers_message() {
    const K: usize = 6;
    let dealer = Dealer::new(1, 3, 2);
    let ks = dealer.generate_keypair::<K>(2);
    let rec1 = reconstruct_vector(&ks.sk_shares[0..2]);
    let rec2 = reconstruct_vector(&ks.sk_shares[1..3]);
    assert_eq!(rec1, rec2);
    let dbl = dealer.generate_double_sharing(3);
    let parties = assemble_parties::<K>(&ks.sk_shares, &dbl, dealer.thr);
    let mut msg = [0u8; 32];
    for i in 0..32 {
        msg[i] = (i as u8).wrapping_mul(91).wrapping_add(3);
    }
    let m = message_ring(&msg);
    let c = encrypt::<K, 28, 23>(ks.ek, m, [1u8; 32], 2, 2);
    let shares = threshold_decrypt::<K, 28, 23>(&parties, c, &dealer.thr);
    assert_eq!(shares.len(), 3);
    let out = receiver_reconstruct(&shares, &dealer.thr);
    assert_eq!(out, msg);
}

#[test]
fn kpke_2k_round_trip_recovers_message() {
    const K: usize = 6;
    let d = [3u8; 32];
    let ((t, rho), s) = key_gen_2k_from_seed::<K>(&d, 2);
    let mut msg = [0u8; 32];
    for i in 0..32 {
        msg[i] = (i as u8).wrapping_mul(13) ^ 0xc3;
    }
    let m = message_ring(&msg);
    let c = encrypt_2k::<K, 28, 23>((t, rho), m, [5u8; 32], 2, 2);
    let m2 = decrypt_2k::<K, 28, 23>(s, c);
    for i in 0..256 {
        assert_eq!(m2.0.data[i], m.0.data[i], "bit {i}");
    }
}

#[test]
fn spdz_threshold_decryption_recovers_message() {
    const K: usize = 6;
    let dealer = DealerSpdz::new(3, 30, 40, 2);
    let ks = dealer.generate_keypair::<K>(2);
    let dbl = dealer.generate_double_sharing(3);
    let parties = assemble_spdz::<K>(&ks.sk_shares, &dbl, dealer.thr);
    let mut msg = [0u8; 32];
    for i in 0..32 {
        msg[i] = (i as u8).wrapping_mul(29).wrapping_add(11);
    }
    let m = message_ring(&msg);
    let c = encrypt_2k::<K, 28, 23>(ks.ek, m, [2u8; 32], 2, 2);
    let u = decompress_vector_2k(&c.0 .0, 28, K_BITS);
    let v = decompress_ring_2k(&c.1 .0, 23, K_BITS);
    let shares = threshold_decrypt_spdz::<K>(&parties, &u, &v, &dealer.thr);
    assert_eq!(shares.len(), 3);
    let out = receiver_spdz(&shares, &dealer.thr);
    assert_eq!(out, msg);
}
