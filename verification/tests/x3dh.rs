//! Building sessions.
use oktz_signal::curve::{generate_keypair, scalar_multiply, sign, verify};
use oktz_signal::session::{Chain, SessionEntry, SessionRecord};
use oktz_signal::util::b64;
use oktz_signal::x3dh::{
    build_initial_session, build_initial_session_at, build_initial_session_with_ephemeral,
    build_recipient_session, build_recipient_session_at, derive_secrets, X3dhParams,
};

fn test_params(reg_id: u32, sk_byte: u8, spk_byte: u8, sig: &[u8]) -> X3dhParams<'static> {
    let identity_sk = [sk_byte; 32];
    let (identity_pk_mont, _) = generate_keypair(&identity_sk).unwrap();
    let mut identity_pub = vec![0x05u8];
    identity_pub.extend_from_slice(&identity_pk_mont);
    let spk = [spk_byte; 32];
    X3dhParams {
        identity_priv: Box::leak(Box::new(identity_sk)),
        identity_pub: Box::leak(Box::new(identity_pub.clone())),
        signed_prekey_pub: Box::leak(Box::new(spk)),
        signed_prekey_sig: Box::leak(Box::new(sig.to_vec())),
        prekey_pub: None,
        prekey_id: None,
        recipient_pub: Box::leak(Box::new(identity_pub)),
        recipient_prekey: Box::leak(Box::new(spk)),
        registration_id: reg_id,
        signed_key_id: 0,
    }
}

fn first(record: &SessionRecord) -> &SessionEntry {
    record.sessions.value_at(0)
}

fn first_chain(entry: &SessionEntry) -> &Chain {
    entry.chains.value_at(0)
}

#[test]
fn test_build_initial_session_structure() {
    let sk = [0x42u8; 32];
    let spk = [0x43u8; 32];
    let sig = sign(&sk, &spk, None).unwrap();
    // sanity: signer identity must verify
    let (pk, _) = generate_keypair(&sk).unwrap();
    assert!(verify(&pk, &spk, &sig).unwrap());
    let params = test_params(42, 0x42, 0x43, &sig);

    let result = build_initial_session(&params);
    assert!(result.is_ok(), "build failed: {:?}", result.err());
    let record = result.unwrap();
    assert_eq!(record.sessions.len(), 1);
    let entry = first(&record);
    assert_eq!(entry.indexInfo.closed, -1);
    assert_eq!(entry.indexInfo.used, entry.indexInfo.created);
    assert!(!entry.currentRatchet.rootKey.is_empty());
    assert_eq!(entry.currentRatchet.previousCounter, 0);
    assert_eq!(entry.chains.len(), 1);
    let chain = first_chain(entry);
    assert_eq!(chain.chainType, 1);
    assert_eq!(chain.chainKey.counter, -1);
    assert!(!chain.chainKey.key.is_empty());
    assert!(chain.messageKeys.is_empty());
    assert!(entry.pendingPreKey.is_some());
}

#[test]
fn test_invalid_signature_rejected() {
    let bad_sig = [0x99u8; 64];
    let params = test_params(42, 0x42, 0x43, &bad_sig);
    let result = build_initial_session(&params);
    assert!(result.is_err());
    assert!(result.unwrap_err().contains("signature"));
}

#[test]
fn test_valid_signature_roundtrip() {
    let sk = [0xABu8; 32];
    let spk = [0xCDu8; 32];
    let sig = sign(&sk, &spk, None).unwrap();
    let params = test_params(99, 0xAB, 0xCD, &sig);

    let result = build_initial_session(&params);
    assert!(result.is_ok(), "build failed: {:?}", result.err());
    let record = result.unwrap();
    let entry = first(&record);
    assert_eq!(entry.registrationId, 99);
    assert_eq!(entry.indexInfo.closed, -1);
    assert_eq!(entry.chains.len(), 1);
    assert!(!entry.currentRatchet.rootKey.is_empty());
}

#[test]
fn test_recipient_builds_session() {
    let alice_sk = [0x42u8; 32];
    let bob_sk = [0x77u8; 32];
    let (alice_pk32, _) = generate_keypair(&alice_sk).unwrap();
    let (bob_pk32, bob_sk2) = generate_keypair(&bob_sk).unwrap();
    let mut alice_id = vec![0x05u8];
    alice_id.extend_from_slice(&alice_pk32);
    let mut bob_id = vec![0x05u8];
    bob_id.extend_from_slice(&bob_pk32);

    let spk_priv = [0x43u8; 32];
    let (spk_pub, _) = generate_keypair(&spk_priv).unwrap();
    let sig = sign(&bob_sk, &spk_pub, None).unwrap();

    let fixed_eph = [0x55u8; 32];
    let (eph_pub, _) = generate_keypair(&fixed_eph).unwrap();

    let params = X3dhParams {
        identity_priv: Box::leak(Box::new(alice_sk)),
        identity_pub: Box::leak(Box::new(alice_id.clone())),
        signed_prekey_pub: Box::leak(Box::new(spk_pub)),
        signed_prekey_sig: Box::leak(Box::new(sig)),
        prekey_pub: None,
        prekey_id: None,
        recipient_pub: Box::leak(Box::new(bob_id.clone())),
        recipient_prekey: Box::leak(Box::new(spk_pub)),
        registration_id: 42,
        signed_key_id: 1,
    };
    let alice = build_initial_session_with_ephemeral(&params, &fixed_eph).unwrap();
    assert_eq!(alice.sessions.len(), 1);

    let bob_record = build_recipient_session(
        &bob_sk2,
        &spk_priv,
        &spk_pub,
        None,
        &alice_id,
        &eph_pub,
        42,
    )
    .unwrap();
    let bob_entry = first(&bob_record);

    assert_eq!(bob_entry.indexInfo.baseKeyType, 0, "THEIRS");
    assert_eq!(bob_entry.indexInfo.baseKey, b64(&eph_pub));
    assert_eq!(bob_entry.currentRatchet.lastRemoteEphemeralKey, b64(&eph_pub));
    assert_eq!(bob_entry.indexInfo.closed, -1);
    assert_eq!(bob_entry.currentRatchet.previousCounter, 0);
    assert!(bob_entry.chains.is_empty(), "recipient starts with no chains");
    assert_eq!(bob_entry.currentRatchet.ephemeralKeyPair.privKey, b64(&spk_priv));
    assert_eq!(bob_entry.currentRatchet.ephemeralKeyPair.pubKey, b64(&spk_pub));
    assert_eq!(bob_entry.indexInfo.remoteIdentityKey, b64(&alice_id));
    assert_eq!(bob_entry.registrationId, 42);
    assert!(bob_entry.pendingPreKey.is_none());
}

#[test]
fn test_recipient_with_one_time_prekey() {
    let alice_sk = [0x42u8; 32];
    let bob_sk = [0x77u8; 32];
    let (alice_pk32, _) = generate_keypair(&alice_sk).unwrap();
    let (bob_pk32, bob_sk2) = generate_keypair(&bob_sk).unwrap();
    let mut alice_id = vec![0x05u8];
    alice_id.extend_from_slice(&alice_pk32);
    let mut bob_id = vec![0x05u8];
    bob_id.extend_from_slice(&bob_pk32);

    let spk_priv = [0x43u8; 32];
    let (spk_pub, _) = generate_keypair(&spk_priv).unwrap();
    let sig = sign(&bob_sk, &spk_pub, None).unwrap();

    // Bob's one-time prekey.
    let opk_priv = [0x99u8; 32];
    let (opk_pub, _) = generate_keypair(&opk_priv).unwrap();

    let fixed_eph = [0x55u8; 32];
    let (eph_pub, _) = generate_keypair(&fixed_eph).unwrap();

    // Initiator uses the one-time prekey too (proves DH4 alignment).
    let params = X3dhParams {
        identity_priv: Box::leak(Box::new(alice_sk)),
        identity_pub: Box::leak(Box::new(alice_id.clone())),
        signed_prekey_pub: Box::leak(Box::new(spk_pub)),
        signed_prekey_sig: Box::leak(Box::new(sig)),
        prekey_pub: Some(Box::leak(Box::new(opk_pub))),
        prekey_id: Some(7),
        recipient_pub: Box::leak(Box::new(bob_id.clone())),
        recipient_prekey: Box::leak(Box::new(spk_pub)),
        registration_id: 42,
        signed_key_id: 3,
    };
    let alice_record = build_initial_session_with_ephemeral(&params, &fixed_eph).unwrap();
    let alice_entry = first(&alice_record);
    // Initiator pendingPreKey records the one-time prekey id.
    assert_eq!(alice_entry.pendingPreKey.as_ref().unwrap().preKeyId, Some(7));

    let bob_record = build_recipient_session(
        &bob_sk2,
        &spk_priv,
        &spk_pub,
        Some(&opk_priv),
        &alice_id,
        &eph_pub,
        42,
    )
    .unwrap();
    let bob_entry = first(&bob_record);

    // OPK path: recipient session structure is correct (no chains yet).
    assert!(bob_entry.chains.is_empty());
    assert_eq!(bob_entry.indexInfo.baseKeyType, 0);
    assert_eq!(bob_entry.currentRatchet.ephemeralKeyPair.privKey, b64(&spk_priv));
}

#[test]
fn test_recipient_rejects_short_identity() {
    let sk = [0x42u8; 32];
    let spk = [0x43u8; 32];
    let result = build_recipient_session(&sk, &spk, &spk, None, &[0x05u8; 10], &[0x00u8; 32], 1);
    assert!(result.is_err());
    assert!(result.unwrap_err().contains("33 bytes"));
}

#[test]
fn test_keypair_roles_pinned() {
    let sk = [0x42u8; 32];
    let spk = [0x43u8; 32];
    let sig = sign(&sk, &spk, None).unwrap();
    let params = test_params(42, 0x42, 0x43, &sig);

    let fixed_priv = [0x55u8; 32];
    let (expected_pub, _) = generate_keypair(&fixed_priv).unwrap();

    let result = build_initial_session_with_ephemeral(&params, &fixed_priv);
    assert!(result.is_ok(), "build failed: {:?}", result.err());
    let record = result.unwrap();
    let entry = first(&record);

    let b64_priv = b64(&fixed_priv);
    let b64_pub = b64(&expected_pub);

    // privKey is the private key, pubKey is the public key — roles are NOT swapped.
    assert_eq!(entry.currentRatchet.ephemeralKeyPair.privKey, b64_priv);
    assert_eq!(entry.currentRatchet.ephemeralKeyPair.pubKey, b64_pub);
    assert_ne!(b64_priv, b64_pub, "priv and pub must differ");

    // baseKey / chain map key hold the public key, not the private.
    assert_eq!(entry.indexInfo.baseKey, b64_pub);
    assert!(record.sessions.contains_key(&b64_pub));

    // Cross-check chainKey derivation: re-compute the entire pipeline for
    // the sending ratchet chain key using fixed_priv.
    let recipient_pub_32 = params.recipient_pub.get(1..33).unwrap();
    let a1 = scalar_multiply(params.identity_priv, params.signed_prekey_pub).unwrap();
    let a2 = scalar_multiply(&fixed_priv, recipient_pub_32).unwrap();
    let a3 = scalar_multiply(&fixed_priv, params.signed_prekey_pub).unwrap();
    let mut shared = vec![0xffu8; 128];
    shared[32..64].copy_from_slice(&a1);
    shared[64..96].copy_from_slice(&a2);
    shared[96..128].copy_from_slice(&a3);
    let mk = derive_secrets(&shared, &[0u8; 32], b"WhisperText").unwrap();
    let root_key = &mk[0];
    let shared_ratchet = scalar_multiply(&fixed_priv, params.signed_prekey_pub).unwrap();
    let mk_ratchet = derive_secrets(&shared_ratchet, root_key, b"WhisperRatchet").unwrap();

    let chain = first_chain(entry);
    assert_eq!(chain.chainKey.key, b64(&mk_ratchet[1]));
    assert_eq!(entry.currentRatchet.rootKey, b64(&mk_ratchet[0]));
}

#[test]
fn initial_session_at_a_given_time() {
    let sig = sign(&[0x42u8; 32], &[0x43u8; 32], None).unwrap();
    let params = test_params(42, 0x42, 0x43, &sig);
    let record = build_initial_session_at(&params, &[0x55u8; 32], 1788180594198).unwrap();
    let entry = first(&record);
    assert_eq!(record.version, "v1");
    assert_eq!(entry.indexInfo.used, 1788180594198);
    assert_eq!(entry.indexInfo.created, 1788180594198);
    assert_eq!(entry.indexInfo.baseKeyType, 0);
    assert_eq!(entry.indexInfo.remoteIdentityKey, b64(params.recipient_pub));
    assert_eq!(entry.currentRatchet.lastRemoteEphemeralKey, b64(&[0x43u8; 32]));
    let again = build_initial_session_at(&params, &[0x55u8; 32], 1788180594198).unwrap();
    assert_eq!(again, record);
}

#[test]
fn sessions_are_stamped_with_the_clock() {
    let sig = sign(&[0x42u8; 32], &[0x43u8; 32], None).unwrap();
    let params = test_params(42, 0x42, 0x43, &sig);
    let record = build_initial_session(&params).unwrap();
    // After the year 2020.
    assert!(first(&record).indexInfo.created > 1577836800000);
}

#[test]
fn fresh_sessions_have_fresh_ephemeral_keys() {
    let sig = sign(&[0x42u8; 32], &[0x43u8; 32], None).unwrap();
    let params = test_params(42, 0x42, 0x43, &sig);
    let one = build_initial_session(&params).unwrap();
    let two = build_initial_session(&params).unwrap();
    assert_ne!(one.sessions.key_at(0), two.sessions.key_at(0));
}

#[test]
fn prefixed_prekeys_are_stripped_for_the_agreement() {
    let bob_sk = [0x77u8; 32];
    let (bob_pk, _) = generate_keypair(&bob_sk).unwrap();
    let mut bob_id = vec![0x05u8];
    bob_id.extend_from_slice(&bob_pk);
    let (spk, _) = generate_keypair(&[0x43u8; 32]).unwrap();
    let (opk, _) = generate_keypair(&[0x99u8; 32]).unwrap();
    let mut spk33 = vec![0x05u8];
    spk33.extend_from_slice(&spk);
    let mut opk33 = vec![0x05u8];
    opk33.extend_from_slice(&opk);
    // The signature covers the key as it was sent.
    let sig32 = sign(&bob_sk, &spk, None).unwrap();
    let sig33 = sign(&bob_sk, &spk33, None).unwrap();
    let alice_sk = [0x42u8; 32];
    let bare = X3dhParams {
        identity_priv: &alice_sk,
        identity_pub: &[],
        signed_prekey_pub: &spk,
        signed_prekey_sig: &sig32,
        prekey_pub: Some(&opk),
        prekey_id: Some(9),
        recipient_pub: &bob_id,
        recipient_prekey: &[],
        registration_id: 1,
        signed_key_id: 2,
    };
    let prefixed = X3dhParams {
        identity_priv: &alice_sk,
        identity_pub: &[],
        signed_prekey_pub: &spk33,
        signed_prekey_sig: &sig33,
        prekey_pub: Some(&opk33),
        prekey_id: Some(9),
        recipient_pub: &bob_id,
        recipient_prekey: &[],
        registration_id: 1,
        signed_key_id: 2,
    };
    let one = build_initial_session_at(&bare, &[0x55u8; 32], 5).unwrap();
    let two = build_initial_session_at(&prefixed, &[0x55u8; 32], 5).unwrap();
    assert_eq!(one, two);
    assert_eq!(first(&one).indexInfo.baseKeyType, 1);
    let pending = first(&one).pendingPreKey.as_ref().unwrap();
    assert_eq!(pending.signedKeyId, Some(2));
    assert_eq!(pending.preKeyId, Some(9));
}

#[test]
fn initial_session_errors() {
    let sig = sign(&[0x42u8; 32], &[0x43u8; 32], None).unwrap();
    let eph = [0x55u8; 32];
    let build = |p: &X3dhParams, e: &[u8]| build_initial_session_at(p, e, 0).unwrap_err();

    let mut p = test_params(42, 0x42, 0x43, &sig);
    p.recipient_pub = &[5u8; 32];
    assert_eq!(build(&p, &eph), "recipient_pub must be 33 bytes");

    let p = test_params(42, 0x42, 0x43, &sig[..63]);
    assert_eq!(build(&p, &eph), "wrong signature length: 63 (expected 64)");

    let p = test_params(42, 0x42, 0x44, &sig);
    assert_eq!(build(&p, &eph), "signed prekey signature verification failed");

    let p = test_params(42, 0x42, 0x43, &sig);
    assert_eq!(build(&p, &eph[..31]), "wrong seed length: 31 (expected 32)");

    let mut p = test_params(42, 0x42, 0x43, &sig);
    p.identity_priv = &[1u8; 3];
    assert_eq!(build(&p, &eph), "wrong secret key length: 3 (expected 32)");

    let short = [0x43u8; 31];
    let short_sig = sign(&[0x42u8; 32], &short, None).unwrap();
    let mut p = test_params(42, 0x42, 0x43, &short_sig);
    p.signed_prekey_pub = Box::leak(Box::new(short));
    assert_eq!(build(&p, &eph), "wrong public key length: 31 (expected 32)");

    let mut p = test_params(42, 0x42, 0x43, &sig);
    p.prekey_pub = Some(&[6u8; 33]);
    assert_eq!(build(&p, &eph), "wrong public key length: 33 (expected 32)");
}

#[test]
fn recipient_session_errors() {
    let build = |id: &[u8], spk: &[u8], opk: Option<&[u8]>, sender: &[u8], eph: &[u8]| {
        build_recipient_session_at(id, spk, spk, opk, sender, eph, 1, 0).unwrap_err()
    };
    let k = [7u8; 32];
    let s = [5u8; 33];
    assert_eq!(build(&k, &k, None, &s[..32], &k), "sender_identity must be 33 bytes");
    assert_eq!(build(&s, &k, None, &s, &k), "wrong secret key length: 33 (expected 32)");
    assert_eq!(build(&k, &k, None, &s, &s), "wrong public key length: 33 (expected 32)");
    assert_eq!(build(&k, &s, None, &s, &k), "wrong secret key length: 33 (expected 32)");
    assert_eq!(
        build(&k, &k, Some(&k[..8]), &s, &k),
        "wrong secret key length: 8 (expected 32)"
    );
}
