//! Key agreement and signatures.
use curve25519_dalek::constants::ED25519_BASEPOINT_POINT;
use curve25519_dalek::scalar::Scalar;
use ed25519_dalek::{Signature, Verifier, VerifyingKey};
use oktz_signal::curve::{clamp_scalar, generate_keypair, scalar_multiply, sign, verify};

fn hex(s: &str) -> Vec<u8> {
    (0..s.len())
        .step_by(2)
        .map(|i| u8::from_str_radix(&s[i..i + 2], 16).unwrap())
        .collect()
}

#[test]
fn test_sign_verify_roundtrip() {
    let sk = [0xABu8; 32];
    let msg = b"hello signal";
    let sig = sign(&sk, msg, None).unwrap();
    assert_eq!(sig.len(), 64);
    let (pk, _) = generate_keypair(&sk).unwrap();
    assert!(verify(&pk, msg, &sig).unwrap());
}

#[test]
fn test_sign_verify_roundtrip_rnd() {
    let sk = [0xCDu8; 32];
    let rnd = [0xEFu8; 64];
    let msg = b"message with random";
    let sig = sign(&sk, msg, Some(&rnd)).unwrap();
    let (pk, _) = generate_keypair(&sk).unwrap();
    assert!(verify(&pk, msg, &sig).unwrap());
}

#[test]
fn test_verify_rejects_tampered() {
    let sk = [0x01u8; 32];
    let msg = b"integrity check";
    let sig = sign(&sk, msg, None).unwrap();
    let (pk, _) = generate_keypair(&sk).unwrap();
    assert!(!verify(&pk, b"tampered", &sig).unwrap());
}

#[test]
fn test_sign_deterministic() {
    let sk = [0x22u8; 32];
    let msg = b"same input same sig";
    let s1 = sign(&sk, msg, None).unwrap();
    let s2 = sign(&sk, msg, None).unwrap();
    assert_eq!(s1, s2);
}

#[test]
fn test_generate_keypair_roundtrip() {
    let seed = [0x33u8; 32];
    let (pk, sk) = generate_keypair(&seed).unwrap();
    assert_eq!(pk.len(), 32);
    assert_eq!(sk.len(), 32);
    let (pk2, sk2) = generate_keypair(&seed).unwrap();
    assert_eq!(pk, pk2);
    assert_eq!(sk, sk2);
}

#[test]
fn test_scalar_multiply_dh_agreement() {
    let (alice_pk, alice_sk) = generate_keypair(&[0xAAu8; 32]).unwrap();
    let (bob_pk, bob_sk) = generate_keypair(&[0xBBu8; 32]).unwrap();
    let s_alice = scalar_multiply(&alice_sk, &bob_pk).unwrap();
    let s_bob = scalar_multiply(&bob_sk, &alice_pk).unwrap();
    assert_eq!(s_alice, s_bob);
    assert_ne!(s_alice, [0u8; 32]);
}

#[test]
fn test_bad_lengths() {
    assert!(sign(&[0u8; 31], b"x", None).is_err());
    assert!(sign(&[0u8; 32], b"x", Some(&[0u8; 63])).is_err());
    assert!(verify(&[0u8; 31], b"x", &[0u8; 64]).is_err());
    assert!(verify(&[0u8; 32], b"x", &[0u8; 63]).is_err());
    assert!(generate_keypair(&[0u8; 31]).is_err());
    assert!(scalar_multiply(&[0u8; 31], &[0u8; 32]).is_err());
    assert!(scalar_multiply(&[0u8; 32], &[0u8; 31]).is_err());
}

#[test]
fn length_errors_name_what_is_wrong() {
    let e = |r: Result<[u8; 64], String>| r.unwrap_err();
    assert_eq!(
        e(sign(&[0u8; 31], b"x", Some(&[0u8; 63]))),
        "wrong secret key length: 31 (expected 32)"
    );
    assert_eq!(
        e(sign(&[0u8; 32], b"x", Some(&[0u8; 0]))),
        "wrong random data length: 0 (expected 64)"
    );
    assert_eq!(
        verify(&[0u8; 33], b"x", &[0u8; 63]).unwrap_err(),
        "wrong public key length: 33 (expected 32)"
    );
    assert_eq!(
        verify(&[0u8; 32], b"x", &[0u8; 100]).unwrap_err(),
        "wrong signature length: 100 (expected 64)"
    );
    assert_eq!(
        generate_keypair(&[0u8; 1]).unwrap_err(),
        "wrong seed length: 1 (expected 32)"
    );
    assert_eq!(
        scalar_multiply(&[0u8; 33], &[0u8; 33]).unwrap_err(),
        "wrong secret key length: 33 (expected 32)"
    );
    assert_eq!(
        scalar_multiply(&[0u8; 32], &[0u8; 33]).unwrap_err(),
        "wrong public key length: 33 (expected 32)"
    );
}

#[test]
fn agreement_known_answer() {
    let sk = hex("a546e36bf0527c9d3b16154b82465edd62144c0ac1fc5a18506a2244ba449ac4");
    let pk = hex("e6db6867583030db3594c1a424b15f7c726624ec26b3353b10a903a6d0ab1c4c");
    let shared = hex("c3da55379de9c6908e94ea4df28d084f32eccf03491c71f754b4075577a28552");
    assert_eq!(scalar_multiply(&sk, &pk).unwrap().to_vec(), shared);
}

#[test]
fn public_key_is_the_base_point_times_the_key() {
    let mut base = [0u8; 32];
    base[0] = 9;
    let sk = [0x5Au8; 32];
    let (pk, kept) = generate_keypair(&sk).unwrap();
    assert_eq!(kept, sk);
    assert_eq!(scalar_multiply(&sk, &base).unwrap(), pk);
}

#[test]
fn key_pairs_never_share_zero() {
    for a in [0x00u8, 0x01, 0x7F, 0xFF] {
        for b in [0x00u8, 0x08, 0xF0, 0xFF] {
            let (pa, sa) = generate_keypair(&[a; 32]).unwrap();
            let (pb, sb) = generate_keypair(&[b; 32]).unwrap();
            let shared = scalar_multiply(&sa, &pb).unwrap();
            assert_eq!(shared, scalar_multiply(&sb, &pa).unwrap());
            assert_ne!(shared, [0u8; 32]);
        }
    }
}

#[test]
fn a_clamped_key_is_the_same_key() {
    for byte in [0x00u8, 0x42, 0xFF] {
        let sk = [byte; 32];
        let mut once = sk;
        once[0] &= 248;
        once[31] = (once[31] & 127) | 64;
        assert_eq!(clamp_scalar(&sk), once);
        assert_eq!(clamp_scalar(&once), once);
        let (pk, secret) = generate_keypair(&sk).unwrap();
        assert_eq!(secret, sk);
        assert_eq!(generate_keypair(&once).unwrap().0, pk);
        let peer = generate_keypair(&[0x31u8; 32]).unwrap().0;
        assert_eq!(
            scalar_multiply(&sk, &peer).unwrap(),
            scalar_multiply(&once, &peer).unwrap()
        );
    }
}

/// The Edwards key behind a secret key, computed apart from the library.
fn edwards_key(sk: &[u8; 32]) -> [u8; 32] {
    let mut a = *sk;
    a[0] &= 248;
    a[31] &= 127;
    a[31] |= 64;
    (ED25519_BASEPOINT_POINT * Scalar::from_bytes_mod_order(a)).compress().to_bytes()
}

#[test]
fn signature_without_its_sign_bit_is_an_ed25519_signature() {
    for byte in [0x01u8, 0x42, 0x77, 0xAB, 0xFE] {
        let sk = [byte; 32];
        let key = edwards_key(&sk);
        let sig = sign(&sk, b"message", None).unwrap();
        assert_eq!(sig[63] & 128, key[31] & 128);
        let mut plain = sig;
        plain[63] &= 127;
        let vk = VerifyingKey::from_bytes(&key).unwrap();
        assert!(vk.verify(b"message", &Signature::from_bytes(&plain)).is_ok());
    }
}

#[test]
fn random_data_changes_the_signature_not_the_verdict() {
    let sk = [0x42u8; 32];
    let (pk, _) = generate_keypair(&sk).unwrap();
    let plain = sign(&sk, b"m", None).unwrap();
    let one = sign(&sk, b"m", Some(&[1u8; 64])).unwrap();
    let two = sign(&sk, b"m", Some(&[2u8; 64])).unwrap();
    assert_ne!(plain, one);
    assert_ne!(one, two);
    assert!(verify(&pk, b"m", &one).unwrap());
    assert!(verify(&pk, b"m", &two).unwrap());
}

#[test]
fn flipped_sign_bit_is_rejected() {
    let sk = [0x42u8; 32];
    let (pk, _) = generate_keypair(&sk).unwrap();
    let mut sig = sign(&sk, b"m", None).unwrap();
    sig[63] ^= 128;
    assert!(!verify(&pk, b"m", &sig).unwrap());
}

#[test]
fn a_key_without_an_edwards_point_verifies_nothing() {
    // u = -1 lies on the twist.
    let mut pk = [0xFFu8; 32];
    pk[0] = 0xEC;
    pk[31] = 0x7F;
    assert!(!verify(&pk, b"m", &[0u8; 64]).unwrap());
}
