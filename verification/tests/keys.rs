//! Key derivation, the block cipher and the clock.
use oktz_signal::cipher::{aes_cbc_decrypt, aes_cbc_encrypt};
use oktz_signal::clock::timestamp;
use oktz_signal::kdf::derive_secrets_n;
use oktz_signal::x3dh::derive_secrets;

fn hex(s: &str) -> Vec<u8> {
    (0..s.len())
        .step_by(2)
        .map(|i| u8::from_str_radix(&s[i..i + 2], 16).unwrap())
        .collect()
}

#[test]
fn derivation_known_answer() {
    let input = vec![0x0bu8; 22];
    let salt = hex("000102030405060708090a0b0c");
    let info = hex("f0f1f2f3f4f5f6f7f8f9");
    let out = derive_secrets_n(&input, &salt, &info, 2).unwrap();
    assert_eq!(out.len(), 2);
    assert_eq!(
        out[0],
        hex("3cb25f25faacd57a90434f64d0362f2a2d2d0a90cf1a5a4c5db02d56ecc4c5bf")
    );
    assert_eq!(out[1][..10].to_vec(), hex("34007208d5b887185865"));
    let three = derive_secrets(&input, &salt, &info).unwrap();
    assert_eq!(three[0], out[0]);
    assert_eq!(three[1], out[1]);
    assert_eq!(three[2].len(), 32);
}

#[test]
fn derivation_of_nothing_is_empty() {
    assert_eq!(derive_secrets_n(b"a", b"b", b"c", 0).unwrap(), Vec::<Vec<u8>>::new());
}

#[test]
fn chunk_numbers_wrap() {
    let out = derive_secrets_n(b"a", b"b", b"c", 257).unwrap();
    assert_eq!(out.len(), 257);
    assert_ne!(out[0], out[256]);
}

fn cbc_key() -> Vec<u8> {
    hex("603deb1015ca71be2b73aef0857d77811f352c073b6108d72d9810a30914dff4")
}

fn cbc_iv() -> [u8; 16] {
    [0, 1, 2, 3, 4, 5, 6, 7, 8, 9, 10, 11, 12, 13, 14, 15]
}

#[test]
fn cbc_known_answer() {
    let text = hex("6bc1bee22e409f96e93d7e117393172aae2d8a571e03ac9c9eb76fac45af8e51");
    let out = aes_cbc_encrypt(&cbc_key(), &cbc_iv(), &text).unwrap();
    assert_eq!(out.len(), 48);
    assert_eq!(
        out[..32].to_vec(),
        hex("f58c4c04d6e5f1ba779eabfb5f7bfbd69cfc4e967edb808d679f777bc6702c7d")
    );
}

#[test]
fn cbc_round_trips() {
    for n in 0..50usize {
        let text: Vec<u8> = (0..n).map(|i| (i * 7) as u8).collect();
        let out = aes_cbc_encrypt(&cbc_key(), &cbc_iv(), &text).unwrap();
        assert_eq!(out.len() % 16, 0);
        assert!(out.len() > n);
        assert_eq!(aes_cbc_decrypt(&cbc_key(), &cbc_iv(), &out).unwrap(), text);
    }
}

#[test]
fn cbc_errors() {
    let iv = cbc_iv();
    assert_eq!(aes_cbc_encrypt(&[0; 31], &iv, b"x").unwrap_err(), "AES key: Invalid Length");
    assert_eq!(aes_cbc_decrypt(&cbc_key(), &iv, b"").unwrap_err(), "invalid ciphertext length");
    assert_eq!(aes_cbc_decrypt(&[0; 5], &iv, &[0; 17]).unwrap_err(), "invalid ciphertext length");
    assert_eq!(aes_cbc_decrypt(&[0; 33], &iv, &[0; 16]).unwrap_err(), "AES key: Invalid Length");
}

#[test]
fn cbc_padding_is_checked() {
    let iv = cbc_iv();
    let one = aes_cbc_encrypt(&cbc_key(), &iv, &[0x11; 15]).unwrap();
    assert_eq!(one.len(), 16);
    // The vector is added to the only block: it sets the last byte, which is 1.
    let mut zero = iv;
    zero[15] ^= 1;
    assert_eq!(aes_cbc_decrypt(&cbc_key(), &zero, &one).unwrap_err(), "invalid padding");
    let mut large = iv;
    large[15] ^= 1 ^ 17;
    assert_eq!(aes_cbc_decrypt(&cbc_key(), &large, &one).unwrap_err(), "invalid padding");
    let mut whole = iv;
    whole[15] ^= 1 ^ 16;
    assert_eq!(aes_cbc_decrypt(&cbc_key(), &whole, &one).unwrap(), Vec::<u8>::new());
}

#[test]
fn timestamps() {
    assert_eq!(timestamp(None), 0);
    assert_eq!(timestamp(Some(1788180594198)), 1788180594198);
    assert_eq!(timestamp(Some((1u128 << 64) + 5)), 5);
}
