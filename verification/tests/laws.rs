use ladon::negacyclic::{compress_2k, decompress_2k};
use ladon::params::Q;
use ladon::ring::Ring;

#[test]
fn inverse_ntt_undoes_ntt() {
    let mut r = Ring::zeroes_degree255();
    for c in 0..256 {
        r.data[c] = ((c as u64 * 2_654_435_761u64) % Q as u64) as u32;
    }
    let orig = r;
    r.ntt();
    assert_ne!(r, orig);
    r.inverse_ntt();
    assert_eq!(r.data, orig.data);
}

#[test]
fn ntt_product_is_negacyclic_product() {
    // X * X^255 = X^256 = -1 in Z_q[X]/(X^256 + 1).
    let mut a = Ring::zeroes_degree255();
    let mut b = Ring::zeroes_degree255();
    a.data[1] = 1;
    b.data[255] = 1;
    a.ntt();
    b.ntt();
    a.mult(&b);
    a.inverse_ntt();
    assert_eq!(a.data[0], Q - 1);
    for c in 1..256 {
        assert_eq!(a.data[c], 0);
    }
}

#[test]
fn decompress_then_compress_is_identity_2k() {
    for d in [1u32, 11, 23, 28] {
        for y in [0u32, 1, 5, (1u32 << d) - 1] {
            if y < (1u32 << d) {
                assert_eq!(compress_2k(decompress_2k(y, d, 30), d, 30), y);
            }
        }
    }
}

#[test]
fn ring_text_is_upper_hex_with_commas() {
    let mut r = Ring::zeroes_degree255();
    r.data[0] = 255;
    r.data[2] = 0x1A2B;
    r.data[255] = 10;
    let mut expected = String::from("FF,0,1A2B,");
    for _ in 3..255 {
        expected.push_str("0,");
    }
    expected.push_str("A,");
    assert_eq!(r.to_string(), expected);
}

#[test]
fn ntt_undoes_inverse_ntt() {
    let mut r = Ring::zeroes_ntt();
    for c in 0..256 {
        r.data[c] = ((c as u64 * 40_503u64 + 7) % Q as u64) as u32;
    }
    let orig = r;
    r.inverse_ntt();
    assert_ne!(r.data, orig.data);
    r.ntt();
    assert_eq!(r.data, orig.data);
}

#[test]
fn compress_then_decompress_error_is_below_half_a_step() {
    for (d, k) in [(1u32, 30u32), (11, 30), (4, 12), (10, 31)] {
        let step = 1i64 << (k - d);
        let modulus = 1i64 << k;
        for x in [0u32, 1, 7, (1u32 << (k - 1)) + 3, (1u32 << k) - 1, (1u32 << k) - (1u32 << (k - d - 1))] {
            let y = decompress_2k(compress_2k(x, d, k), d, k);
            assert!((y as i64) < modulus);
            assert_eq!(y as i64 % step, 0);
            let mut e = (y as i64 - x as i64).rem_euclid(modulus);
            if e > modulus / 2 {
                e -= modulus;
            }
            assert!(-(step / 2) < e && e <= step / 2, "d = {d}, k = {k}, x = {x}, e = {e}");
        }
    }
}
