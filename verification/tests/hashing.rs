use ladon::crypt::{prf, XOF};
use ladon::kpke::key_gen_from_seed;
use ladon::sample::sample_ntt;

#[test]
fn key_seed_is_split_by_sha3_512() {
    let ((_t, rho), _s) = key_gen_from_seed::<2>(&[7u8; 32], 2);
    let expected: [u8; 32] = [
        114, 162, 38, 49, 4, 242, 219, 133, 113, 208, 142, 72, 19, 196, 2, 11, 163, 212, 89, 60,
        81, 155, 189, 234, 135, 56, 87, 13, 137, 42, 211, 91,
    ];
    assert_eq!(rho, expected);
}

#[test]
fn prf_is_shake256_of_seed_and_counter() {
    let mut s = [0u8; 32];
    for i in 0..32 {
        s[i] = i as u8;
    }
    let out = prf(&s, 5, 2);
    assert_eq!(out.len(), 128);
    assert_eq!(&out[..8], &[121, 127, 22, 72, 249, 146, 204, 144]);
}

#[test]
fn xof_stream_is_shake128_and_sampled_by_three_bytes() {
    let mut p = [0u8; 32];
    for i in 0..32 {
        p[i] = i as u8;
    }
    let mut xof = XOF::new(&p, 1, 2);
    let mut buf = [0u8; 3];
    xof.get_3_bytes(&mut buf);
    assert_eq!(buf, [2, 174, 102]);
    let ring = sample_ntt(XOF::new(&p, 1, 2));
    assert_eq!(ring.data[0], 6_729_218);
    assert_eq!(ring.data[1], 5_166_372);
}

#[test]
fn h_is_sha3_256() {
    // SHA3-256 of the empty input and of "abc".
    let empty = ladon::crypt::h(&Vec::new());
    assert_eq!(
        empty,
        [
            0xa7, 0xff, 0xc6, 0xf8, 0xbf, 0x1e, 0xd7, 0x66, 0x51, 0xc1, 0x47, 0x56, 0xa0, 0x61, 0xd6, 0x62, 0xf5,
            0x80, 0xff, 0x4d, 0xe4, 0x3b, 0x49, 0xfa, 0x82, 0xd8, 0x0a, 0x4b, 0x80, 0xf8, 0x43, 0x4a
        ]
    );
    let abc = ladon::crypt::h(&b"abc".to_vec());
    assert_eq!(abc[0], 0x3a);
    assert_eq!(abc[31], 0x32);
}

#[test]
fn j_is_32_bytes_of_shake256() {
    // SHAKE256 of the empty input, first 32 bytes.
    let out = ladon::crypt::j(Vec::new());
    assert_eq!(
        out,
        [
            0x46, 0xb9, 0xdd, 0x2b, 0x0b, 0xa8, 0x8d, 0x13, 0x23, 0x3b, 0x3f, 0xeb, 0x74, 0x3e, 0xeb, 0x24, 0x3f,
            0xcd, 0x52, 0xea, 0x62, 0xb8, 0x1b, 0x82, 0xb5, 0x0c, 0x27, 0x64, 0x6e, 0xd5, 0x76, 0x2f
        ]
    );
    assert_ne!(ladon::crypt::j(vec![1u8]), out);
}

#[test]
fn fo_helpers_follow_the_transform() {
    let m = [3u8; 32];
    let hk = [9u8; 32];
    let mut combined = [0u8; 64];
    combined[..32].copy_from_slice(&m);
    combined[32..].copy_from_slice(&hk);
    assert_eq!(ladon::crypt::fo_key_and_coins(&m, &hk), ladon::crypt::g(&combined));

    let cand = [5u8; 32];
    let z = [1u8; 32];
    let ct = vec![2u8, 4, 6];
    assert_eq!(ladon::crypt::fo_select_key(cand, true, &z, &ct), cand);
    let mut zc = z.to_vec();
    zc.extend_from_slice(&ct);
    assert_eq!(ladon::crypt::fo_select_key(cand, false, &z, &ct), ladon::crypt::j(zc));
}

#[test]
fn message_ring_reads_the_bits_of_the_bytes() {
    let mut m = [0u8; 32];
    m[0] = 0b0000_0101;
    m[31] = 0b1000_0000;
    let r = ladon::kem::message_ring(&m);
    assert_eq!(r.0.data[0], 1);
    assert_eq!(r.0.data[1], 0);
    assert_eq!(r.0.data[2], 1);
    assert_eq!(r.0.data[255], 1);
    assert_eq!(r.0.data.iter().sum::<u32>(), 3);
}
