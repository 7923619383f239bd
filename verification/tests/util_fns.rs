use ladon::params::{Q, ZETA};
use ladon::util::{bitrev7, fastmodpow};

#[test]
fn test_bitrev7() {
    assert_eq!(127, bitrev7(127));
    assert_eq!(1, bitrev7(64));
    assert_eq!(64, bitrev7(1));
    assert_eq!(0, bitrev7(0));
}

#[test]
fn fastmodpow_exact_values() {
    assert_eq!(fastmodpow(ZETA, 0), 1);
    assert_eq!(fastmodpow(ZETA, 1), ZETA);
    assert_eq!(fastmodpow(ZETA, 2), ((ZETA as u64 * ZETA as u64) % Q as u64) as u32);
    // ZETA is a primitive 256-th root of unity modulo q: ZETA^128 = -1.
    assert_eq!(fastmodpow(ZETA, 128), Q - 1);
}

#[test]
fn bitrev7_is_an_involution_on_seven_bits() {
    for x in 0..=255u8 {
        let r = bitrev7(x);
        assert!(r < 128);
        assert_eq!(bitrev7(r), x & 0x7f);
        for b in 0..7u8 {
            assert_eq!((r >> b) & 1, (x >> (6 - b)) & 1);
        }
    }
}
