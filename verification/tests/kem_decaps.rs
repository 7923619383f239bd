use ladon::crypt::{fo_key_and_coins, h, j};
use ladon::dealer_spdz::DealerSpdz;
use ladon::kem::{message_ring, threshold_decaps};
use ladon::kpke::encrypt_2k;
use ladon::params::K_BITS;
use ladon::threshold_decrypt::assemble_parties;

const K: usize = 6;
const D_U: usize = 28;
const D_V: usize = 23;

fn ct_bytes(c: &ladon::kpke::Cyphertext<K, D_U, D_V>) -> Vec<u8> {
    let mut out = Vec::new();
    for r in c.0 .0.data.iter() {
        for x in r.data.iter() {
            out.extend_from_slice(&x.to_le_bytes());
        }
    }
    for x in c.1 .0.data.iter() {
        out.extend_from_slice(&x.to_le_bytes());
    }
    out
}

#[test]
fn threshold_decapsulation_recovers_the_key_and_rejects_a_tampered_ciphertext() {
    let dealer = DealerSpdz::new(3, K_BITS, 40, 2);
    let ks = dealer.generate_keypair::<K>(2);
    let dbl = dealer.generate_double_sharing(3);
    let parties = assemble_parties::<K>(&ks.sk_shares, &dbl, dealer.thr);
    let mut ek_enc = Vec::new();
    for r in ks.ek.0.data.iter() {
        for x in r.data.iter() {
            ek_enc.extend_from_slice(&x.to_le_bytes());
        }
    }
    ek_enc.extend_from_slice(&ks.ek.1);
    let ek_hash = h(&ek_enc);
    let z = [0x5au8; 32];
    let msg = [0x3cu8; 32];
    let (key_a, coins) = fo_key_and_coins(&msg, &ek_hash);
    let c = encrypt_2k::<K, D_U, D_V>(ks.ek, message_ring(&msg), coins, 2, 2);
    let key_b = threshold_decaps::<K, D_U, D_V>(&parties, &dealer.thr, ks.ek, &ek_hash, &z, c, &ct_bytes(&c), 2, 2);
    assert_eq!(key_a, key_b);

    // A changed ciphertext is rejected implicitly: the key is J(z || c).
    let mut bad = c;
    bad.1 .0.data[0] ^= 1;
    let key_bad = threshold_decaps::<K, D_U, D_V>(&parties, &dealer.thr, ks.ek, &ek_hash, &z, bad, &ct_bytes(&bad), 2, 2);
    let mut zc = z.to_vec();
    zc.extend_from_slice(&ct_bytes(&bad));
    assert_eq!(key_bad, j(zc));
}
