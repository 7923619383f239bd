use ladon::montgomery::{is_prime, mont_mul, mont_q_neg_inv, mont_r2, mont_redc, mulmod, powmod};
use ladon::ntt_ctx::{bit_reverse, Ctx};
use rand::rngs::StdRng;
use rand::{Rng, SeedableRng};

#[test]
fn modular_helpers_exact_values() {
    assert_eq!(mulmod(1 << 40, 1 << 40, 1_000_000_007), ((1u128 << 80) % 1_000_000_007) as u64);
    assert_eq!(powmod(3, 0, 7), 1);
    assert_eq!(powmod(3, 5, 7), 243 % 7);
    assert_eq!(powmod(2, 64, 1_000_000_007), ((1u128 << 64) % 1_000_000_007) as u64);
    assert_eq!(powmod(10, 3, 1), 0);
    let q = 1_000_000_007u64;
    assert_eq!(mont_r2(q), (((1u128 << 64) % q as u128).pow(2) % q as u128) as u64);
}

#[test]
fn neg_inverse_and_reduction() {
    for q in [3u64, 65537, 1_000_000_007, (1u64 << 61) - 1] {
        let qinv = mont_q_neg_inv(q);
        assert_eq!(q.wrapping_mul(qinv), u64::MAX);
        // R = 2^64 = 2^64 mod q; redc(x R) = x
        let r_mod = ((1u128 << 64) % q as u128) as u64;
        for x in [0u64, 1, 2, q - 1, q / 2] {
            let t = x as u128 * r_mod as u128;
            assert_eq!(mont_redc(t, q, qinv), x);
        }
        // mont_mul(a, b) * R = a * b (mod q)
        let a = q - 2;
        let b = q / 3;
        let m = mont_mul(a, b, q, qinv);
        assert_eq!((m as u128 * r_mod as u128) % q as u128, (a as u128 * b as u128) % q as u128);
    }
}

#[test]
fn miller_rabin_decisions() {
    for p in [2u64, 3, 5, 37, 41, 65537, 1_000_000_007, (1u64 << 61) - 1, 18_446_744_073_709_551_557] {
        assert!(is_prime(p), "{p} is prime");
    }
    for c in [0u64, 1, 4, 9, 561, 1_373_653, 3_215_031_751, 341_550_071_728_321, 18_446_744_073_709_551_615] {
        assert!(!is_prime(c), "{c} is composite");
    }
}

#[test]
fn bit_reverse_values() {
    assert_eq!(bit_reverse(1, 8), 128);
    assert_eq!(bit_reverse(0b1011, 4), 0b1101);
    assert_eq!(bit_reverse(6, 3), 3);
    assert_eq!(bit_reverse(0xff, 0), 0);
}

fn schoolbook_agrees(c: &Ctx, seed: u64) {
    let mut rng = StdRng::seed_from_u64(seed);
    let a_std: Vec<u64> = (0..c.d).map(|_| rng.gen_range(0..c.q)).collect();
    let b_std: Vec<u64> = (0..c.d).map(|_| rng.gen_range(0..c.q)).collect();
    let a_m: Vec<u64> = a_std.iter().map(|&x| c.to_mont(x)).collect();
    let b_m: Vec<u64> = b_std.iter().map(|&x| c.to_mont(x)).collect();
    let ntt_out_m = c.poly_mul(&a_m, &b_m);
    let ntt_out_std: Vec<u64> = ntt_out_m.iter().map(|&x| c.from_mont(x)).collect();
    let sb_out = c.poly_mul_schoolbook_std(&a_std, &b_std);
    assert_eq!(ntt_out_std, sb_out, "NTT vs schoolbook mismatch at d = {}", c.d);
}

#[test]
fn context_prime_and_root() {
    let c = Ctx::build(256, 8, 0);
    assert!(is_prime(c.q));
    assert_eq!(c.q % 512, 1);
    assert!(c.q >= 1u64 << 49 && c.q < 1u64 << 50);
    // psi_pow_mont[bitrev(1)] = psi R; psi^256 = -1 (mod q)
    let psi = c.from_mont(c.psi_pow_mont[bit_reverse(1, 8)]);
    assert_eq!(powmod(psi, 256, c.q), c.q - 1);
    assert_eq!(c.from_mont(c.psi_pow_mont[0]), 1);
    let psi_inv = c.from_mont(c.psi_inv_pow_mont[bit_reverse(1, 8)]);
    assert_eq!(mulmod(psi, psi_inv, c.q), 1);
    assert_eq!(mulmod(c.from_mont(c.n_inv_mont), 256, c.q), 1);
    let other = Ctx::build(256, 8, 1024);
    assert_ne!(other.q, c.q);
    assert!(is_prime(other.q));
}

#[test]
fn montgomery_round_trip_and_field_ops() {
    let c = Ctx::build(256, 8, 0);
    for x in [0u64, 1, 12345, c.q - 1] {
        assert_eq!(c.from_mont(c.to_mont(x)), x);
    }
    assert_eq!(c.add(c.q - 1, 2), 1);
    assert_eq!(c.sub(1, 2), c.q - 1);
    let a = c.to_mont(7);
    let b = c.to_mont(6);
    assert_eq!(c.from_mont(c.mm(a, b)), 42);
}

#[test]
fn ntt_then_inverse_is_identity() {
    let c = Ctx::build(256, 8, 0);
    let mut rng = StdRng::seed_from_u64(7);
    let a: Vec<u64> = (0..c.d).map(|_| rng.gen_range(0..c.q)).collect();
    let mut x = a.clone();
    c.ntt(&mut x);
    assert_ne!(x, a);
    c.intt(&mut x);
    assert_eq!(x, a);
}

#[test]
fn ntt_product_matches_schoolbook() {
    let c = Ctx::build(256, 8, 0);
    schoolbook_agrees(&c, 1);
    let c2 = Ctx::build(2048, 11, 0);
    schoolbook_agrees(&c2, 2);
}

#[test]
fn negacyclic_wrap_in_context() {
    // X * X^(d-1) = -1 in Z_q[X]/(X^d + 1)
    let c = Ctx::build(256, 8, 0);
    let mut a = c.poly_zero();
    let mut b = c.poly_zero();
    a[1] = c.to_mont(1);
    b[255] = c.to_mont(1);
    let p = c.poly_mul(&a, &b);
    assert_eq!(c.from_mont(p[0]), c.q - 1);
    for i in 1..256 {
        assert_eq!(p[i], 0);
    }
    let s = c.poly_add(&a, &b);
    assert_eq!(c.from_mont(s[1]), 1);
    assert_eq!(c.from_mont(s[255]), 1);
    let mut rng = StdRng::seed_from_u64(3);
    let u = c.poly_rand_uniform_mont(&mut rng);
    assert_eq!(u.len(), 256);
    assert!(u.iter().all(|&x| x < c.q));
}

#[test]
fn transform_product_is_schoolbook_times_r_inverse() {
    // On values taken as they are (not converted), the transform product is
    // the schoolbook product times R^-1 modulo q.
    for (d, log_d, seed) in [(8usize, 3u32, 11u64), (256, 8, 12)] {
        let c = Ctx::build(d, log_d, 0);
        let mut rng = StdRng::seed_from_u64(seed);
        let a: Vec<u64> = (0..c.d).map(|_| rng.gen_range(0..c.q)).collect();
        let b: Vec<u64> = (0..c.d).map(|_| rng.gen_range(0..c.q)).collect();
        let by_transform = c.poly_mul(&a, &b);
        let by_schoolbook: Vec<u64> =
            c.poly_mul_schoolbook_std(&a, &b).iter().map(|&x| c.from_mont(x)).collect();
        assert_eq!(by_transform, by_schoolbook);
    }
}

#[test]
fn checked_build_gives_the_built_context() {
    let c = Ctx::try_build(256, 8, 0).expect("search succeeds for d = 256");
    let b = Ctx::build(256, 8, 0);
    assert_eq!(c.q, b.q);
    assert_eq!(c.psi_pow_mont, b.psi_pow_mont);
    assert_eq!(c.n_inv_mont, b.n_inv_mont);
    // A skip so large that the first candidate is far beyond 2^63.
    assert!(Ctx::try_build(256, 8, u64::MAX / 2).is_none());
}
