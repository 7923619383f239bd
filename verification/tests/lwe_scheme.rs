use ladon::lwe::{
    add_mod_q, additive_share, combine, encrypt, inner_product, keygen, matvec, matvec_transposed, partial_decrypt,
    redq, sub_mod_q, vec_add_mod, N, Q,
};
use rand::rngs::StdRng;
use rand::{Rng, SeedableRng};

#[test]
fn scalar_arithmetic_mod_q() {
    assert_eq!(redq(65537), 0);
    assert_eq!(redq(65538), 1);
    assert_eq!(redq(u64::MAX), (u64::MAX % 65537) as u32);
    assert_eq!(add_mod_q(65536, 1), 0);
    assert_eq!(add_mod_q(65536, 65536), 65535);
    assert_eq!(sub_mod_q(0, 1), 65536);
    assert_eq!(sub_mod_q(10, 3), 7);
}

#[test]
fn matrix_products_exact() {
    // A = [[1, 2, 3], [4, 5, 6]]
    let a = [1u32, 2, 3, 4, 5, 6];
    assert_eq!(matvec(&a, &[1, 1, 1], 2, 3), vec![6, 15]);
    assert_eq!(matvec_transposed(&a, &[1, 2], 2, 3), vec![9, 12, 15]);
    assert_eq!(inner_product(&[65536, 2], &[65536, 3]), ((65536u64 * 65536 + 6) % 65537) as u32);
    assert_eq!(vec_add_mod(&[65536, 1, 7], &[1, 1]), vec![0, 2]);
}

#[test]
fn additive_shares_sum_to_secret() {
    let mut rng = StdRng::seed_from_u64(11);
    let s: Vec<u32> = (0..N).map(|i| (i as u32 * 977) % Q).collect();
    let shares = additive_share(&s, 5, &mut rng);
    assert_eq!(shares.len(), 5);
    for i in 0..N {
        let total = shares.iter().fold(0u64, |acc, sh| (acc + sh[i] as u64) % Q as u64);
        assert_eq!(total as u32, s[i]);
    }
}

#[test]
fn combine_decodes_quarters() {
    assert_eq!(combine(0, &[]), 0);
    assert_eq!(combine(16384, &[]), 1);
    assert_eq!(combine(32768, &[]), 2);
    assert_eq!(combine(65537 - 16384, &[]), 3);
    assert_eq!(combine(16384 + 100, &[50, 50]), 1);
    assert_eq!(combine(5, &[10]), 0);
}

fn small(rng: &mut StdRng, bound: i32) -> u32 {
    let x: i32 = rng.gen_range(-bound..=bound);
    x.rem_euclid(Q as i32) as u32
}

#[test]
fn threshold_round_trip_with_small_noise() {
    let mut rng = StdRng::seed_from_u64(5);
    let t = 4;
    let s: Vec<u32> = (0..N).map(|_| small(&mut rng, 5)).collect();
    let e_pk: Vec<u32> = (0..N).map(|_| small(&mut rng, 5)).collect();
    let (pk, shares) = keygen(t, &s, &e_pk, &mut rng);
    let r: Vec<u32> = (0..N).map(|_| small(&mut rng, 3)).collect();
    let f: Vec<u32> = (0..N).map(|_| small(&mut rng, 3)).collect();
    let (a_prime, b_prime) = encrypt(&pk, &r, &f, small(&mut rng, 50));
    let partials: Vec<u32> =
        shares.iter().map(|s_i| partial_decrypt(&a_prime, &s_i[..N], small(&mut rng, 7))).collect();
    assert_eq!(combine(b_prime, &partials), 0);
}
