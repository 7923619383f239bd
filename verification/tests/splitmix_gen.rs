use ladon::splitmix::{rand_b32, SplitMix64};

#[test]
fn splitmix64_known_outputs() {
    let mut g = SplitMix64(0);
    assert_eq!(g.next_u64(), 0xE220_A839_7B1D_CDAF);
    assert_eq!(g.next_u64(), 0x6E78_9E6A_A1B9_65F4);
    assert_eq!(g.next_u64(), 0x06C4_5D18_8009_454F);
}

#[test]
fn fill_writes_little_endian_outputs() {
    let mut a = SplitMix64(12345);
    let mut b = SplitMix64(12345);
    let mut out = [0u8; 13];
    a.fill(&mut out);
    let w0 = b.next_u64().to_le_bytes();
    let w1 = b.next_u64().to_le_bytes();
    assert_eq!(&out[..8], &w0[..]);
    assert_eq!(&out[8..], &w1[..5]);
    assert_eq!(a.0, b.0);
    let mut c = SplitMix64(7);
    let mut d = SplitMix64(7);
    let r = rand_b32(&mut c);
    let mut e = [0u8; 32];
    d.fill(&mut e);
    assert_eq!(r, e);
}
