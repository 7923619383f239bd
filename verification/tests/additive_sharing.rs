use ladon::additive_2k::{reconstruct, reconstruct_lifted, share, share_lifted, SpdzParams};
use ladon::additive_ring::{
    reconstruct_ring_lifted, reconstruct_ring_mod, reconstruct_vector_lifted, share_ring_lifted,
    share_vector_lifted,
};
use ladon::ring::{Ring, Vector};

fn make_ring(seed: u32, k_bits: u32) -> Ring {
    let mask: u32 = (1u32 << k_bits) - 1;
    let mut r = Ring::zeroes_degree255();
    for i in 0..256 {
        let v = seed
            .wrapping_mul(2_654_435_761)
            .wrapping_add((i as u32).wrapping_mul(40_503));
        r.data[i] = v & mask;
    }
    r
}

#[test]
fn test_share_reconstruct_roundtrip_basic() {
    let modulus = 1u128 << 60;
    let v = 123_456_789_u128;
    let shares = share(v, 5, modulus);
    assert_eq!(shares.len(), 5);
    assert_eq!(reconstruct(&shares, modulus), v);
}

#[test]
fn test_lifted_share_recovers_base() {
    let p = SpdzParams::new(20, 40, 2);
    let secret: u128 = 0xABCDE;
    let shares = share_lifted(secret, 4, &p);
    assert_eq!(reconstruct_lifted(&shares, &p), secret);
}

#[test]
fn test_paper_notation_consistency() {
    let p = SpdzParams::new(30, 40, 2);
    assert_eq!(p.q, p.q_prime);
    assert_eq!(p.mu, p.mu_prime);
    assert_eq!(p.mu, p.q / 2);
}

#[test]
fn test_share_reconstruct_ring_lifted() {
    let params = SpdzParams::new(20, 40, 2);
    let secret = make_ring(7, params.k);
    let n = 4;
    let shares = share_ring_lifted(&secret, n, &params);
    assert_eq!(shares.len(), n);
    for (i, s) in shares.iter().enumerate() {
        assert_eq!(s.x, (i + 1) as u32);
        for c in 0..256 {
            assert!(s.data[c] < params.m_share);
        }
    }
    let rec = reconstruct_ring_lifted(&shares, &params);
    assert_eq!(rec, secret);
}

#[test]
fn test_share_reconstruct_vector_lifted() {
    const K: usize = 3;
    let params = SpdzParams::new(20, 40, 2);
    let mut secret = Vector::<K>::new_degree255();
    for k in 0..K {
        secret.data[k] = make_ring(100 + k as u32, params.k);
    }

    let n = 5;
    let shares = share_vector_lifted::<K>(&secret, n, &params);
    assert_eq!(shares.len(), n);
    for (i, s) in shares.iter().enumerate() {
        assert_eq!(s.x, (i + 1) as u32);
    }

    let rec = reconstruct_vector_lifted::<K>(&shares, &params);
    assert_eq!(rec, secret);
}

#[test]
fn test_partial_reveal_does_not_match_secret() {
    let params = SpdzParams::new(20, 40, 2);
    let secret = make_ring(13, params.k);
    let n = 4;
    let shares = share_ring_lifted(&secret, n, &params);

    let partial: [u128; 256] = reconstruct_ring_mod(&shares[..n - 1], params.m_share);
    let mut equal = true;
    for c in 0..256 {
        if (partial[c] % params.m_base) as u32 != secret.data[c] {
            equal = false;
            break;
        }
    }
    assert!(!equal, "n-1 shares should not reproduce the secret");
}

#[test]
fn lifted_params_exact_values() {
    let p = SpdzParams::new(20, 40, 4);
    assert_eq!(p.m_base, 1u128 << 20);
    assert_eq!(p.m_share, 1u128 << 60);
    assert_eq!(p.q_prime, 1u128 << 20);
    assert_eq!(p.mu, 1u128 << 18);
    assert_eq!(p.mu_prime, 1u128 << 18);
}

#[test]
fn additive_shares_sum_to_secret_modulo() {
    let modulus = 1u128 << 20;
    let v = 1000u128;
    let shares = share(v, 3, modulus);
    let mut sum = 0u128;
    for (i, s) in shares.iter().enumerate() {
        assert_eq!(s.x, (i + 1) as u32);
        assert!(s.y < modulus);
        sum = (sum + s.y) % modulus;
    }
    assert_eq!(sum, v);
}

#[test]
fn lifted_reconstruction_is_order_independent() {
    const K: usize = 2;
    let params = SpdzParams::new(20, 40, 2);
    let mut secret = Vector::<K>::new_degree255();
    for k in 0..K {
        secret.data[k] = make_ring(7 + k as u32, params.k);
    }
    let shares = share_vector_lifted::<K>(&secret, 4, &params);
    let mut reversed = shares.clone();
    reversed.reverse();
    let rotated: Vec<_> = shares[1..].iter().chain(shares[..1].iter()).cloned().collect();
    assert_eq!(reconstruct_vector_lifted::<K>(&reversed, &params), secret);
    assert_eq!(reconstruct_vector_lifted::<K>(&rotated, &params), secret);
}
