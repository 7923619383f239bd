use ladon::params;
use ladon::shamir::{
    add, eval_poly_at, inverse, lagrange_coeff_at_zero, mod_pow, mul, reconstruct, share, sub,
    Share,
};
use ladon::shamir_ring::{reconstruct_vector, share_vector};
use ladon::ring::Vector;

#[test]
fn test_inverse_roundtrip() {
    for a in [1u32, 2, 17, 1753, 123456, params::Q - 1] {
        assert_eq!(mul(a, inverse(a)), 1, "a * a^-1 should be 1 for a={a}");
    }
}

#[test]
fn test_eval_constant_poly() {
    let f = [42u32];
    assert_eq!(eval_poly_at(&f, 0), 42);
    assert_eq!(eval_poly_at(&f, 5), 42);
}

#[test]
fn test_eval_linear_poly() {
    let f = [3u32, 5u32];
    assert_eq!(eval_poly_at(&f, 0), 3);
    assert_eq!(eval_poly_at(&f, 1), 8);
    assert_eq!(eval_poly_at(&f, 2), 13);
}

#[test]
fn test_lagrange_reconstructs_secret() {
    let secret = 100u32;
    let f = [secret, 7u32];
    let ids = [1u32, 2u32, 3u32];
    let shares: Vec<u32> = ids.iter().map(|&x| eval_poly_at(&f, x)).collect();

    let active = [1u32, 2u32];
    let mut recon: u32 = 0;
    for (idx, &id) in active.iter().enumerate() {
        let lambda = lagrange_coeff_at_zero(&active, id);
        recon = add(recon, mul(lambda, shares[idx]));
    }
    assert_eq!(recon, secret);

    let active2 = [2u32, 3u32];
    let mut recon2: u32 = 0;
    for &id in active2.iter() {
        let share = shares[(id - 1) as usize];
        let lambda = lagrange_coeff_at_zero(&active2, id);
        recon2 = add(recon2, mul(lambda, share));
    }
    assert_eq!(recon2, secret);
}

#[test]
fn test_share_reconstruct_roundtrip() {
    let secret = 1234567u32 % params::Q;
    let t = 2;
    let n = 5;
    let shares = share(secret, t, n);
    assert_eq!(shares.len(), n);

    let subset: Vec<Share> = shares[0..t + 1].to_vec();
    assert_eq!(reconstruct(&subset), secret);

    let subset2: Vec<Share> = shares[2..5].to_vec();
    assert_eq!(reconstruct(&subset2), secret);

    assert_eq!(reconstruct(&shares), secret);
}

#[test]
fn field_ops_exact_values() {
    let q = params::Q;
    assert_eq!(add(q - 1, 2), 1);
    assert_eq!(sub(1, 2), q - 1);
    assert_eq!(mul(q - 1, q - 1), 1);
    assert_eq!(mod_pow(3, 4), 81);
    assert_eq!(mod_pow(2, 0), 1);
    assert_eq!(inverse(2), (q + 1) / 2);
}

#[test]
fn lagrange_coefficient_exact_value() {
    // For points {1, 2}: lambda_1 = 2 / (2 - 1) = 2, lambda_2 = 1 / (1 - 2) = -1.
    assert_eq!(lagrange_coeff_at_zero(&[1, 2], 1), 2);
    assert_eq!(lagrange_coeff_at_zero(&[1, 2], 2), params::Q - 1);
}

#[test]
fn shamir_vector_quorums_agree() {
    const K: usize = 2;
    let mut secret = Vector::<K>::new_ntt();
    for k in 0..K {
        for c in 0..256 {
            secret.data[k].data[c] = ((k * 1000 + c * 7) as u32) % params::Q;
        }
    }
    let shares = share_vector(&secret, 1, 3);
    let rec1 = reconstruct_vector(&shares[0..2]);
    let rec2 = reconstruct_vector(&shares[1..3]);
    assert_eq!(rec1, secret);
    assert_eq!(rec2, secret);
}

#[test]
fn reconstruct_from_any_quorum_in_any_order() {
    // A secret above q is shared modulo q.
    let secret = params::Q + 5;
    let t = 3;
    let n = 7;
    let shares = share(secret, t, n);
    let picks: [&[usize]; 3] = [&[6, 0, 3, 5], &[1, 2, 4, 6, 0], &[5, 4, 3, 2, 1, 0, 6]];
    for p in picks.iter() {
        let subset: Vec<Share> = p.iter().map(|&i| shares[i]).collect();
        assert_eq!(reconstruct(&subset), 5);
    }
}

#[test]
fn reconstruct_at_arbitrary_points() {
    let coeffs = [42u32, 7, 3];
    let shares: Vec<Share> = [5u32, 9, 2, 1000]
        .iter()
        .map(|&x| Share { x, y: eval_poly_at(&coeffs, x) })
        .collect();
    assert_eq!(reconstruct(&shares[..3]), 42);
    assert_eq!(reconstruct(&shares), 42);
    assert_eq!(reconstruct(&[]), 0);
    // the weights at zero recover f(0)
    let ids: Vec<u32> = shares.iter().map(|s| s.x).collect();
    let mut acc = 0u32;
    for s in &shares {
        acc = add(acc, mul(lagrange_coeff_at_zero(&ids, s.x), s.y));
    }
    assert_eq!(acc, 42);
}
