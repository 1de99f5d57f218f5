//! Conversations.
use oktz_signal::curve::{generate_keypair, sign};
use oktz_signal::map::StringMap;
use oktz_signal::proto::{decode_pkmsg, decode_whisper, encode_pkmsg, PreKeyWhisperMessage};
use oktz_signal::ratchet::{
    counter_is_left, decrypt_pkmsg, decrypt_pkmsg_with_seed, decrypt_whisper, decrypt_whisper_with_seed,
    encrypt, parse_frame, parse_pkmsg_frame, try_encrypt,
};
use oktz_signal::session::{
    default_version, Chain, ChainKey, IndexInfo, KeyPair, Ratchet, SessionEntry, SessionRecord,
};
use oktz_signal::util::b64;
use oktz_signal::x3dh::{
    build_initial_session_with_ephemeral, build_recipient_session, X3dhParams,
};
use std::collections::BTreeMap;

fn identity_keypair(seed: &[u8; 32]) -> Vec<u8> {
    let (mont, _) = generate_keypair(seed).unwrap();
    let mut pk = vec![0x05u8];
    pk.extend_from_slice(&mont);
    pk
}

fn empty_record() -> SessionRecord {
    SessionRecord { sessions: StringMap::new(), version: default_version() }
}

fn entry(record: &SessionRecord) -> &SessionEntry {
    record.sessions.value_at(0)
}

/// The record with its first session changed by `f`.
fn changed(record: &SessionRecord, f: fn(&mut SessionEntry)) -> SessionRecord {
    let mut out = record.clone();
    let name = out.sessions.key_at(0).clone();
    let mut e = out.sessions.remove(&name).unwrap();
    f(&mut e);
    out.sessions.insert(name, e);
    out
}

fn chain_of(e: &SessionEntry, kind: u32) -> Option<&Chain> {
    (0..e.chains.len())
        .map(|i| e.chains.value_at(i))
        .find(|c| c.chainType == kind)
}

/// Alice (sender) built by X3DH, Bob (receiver) as her mirror image, with
/// distinct identities.
fn build_pair() -> (SessionRecord, SessionRecord, Vec<u8>, Vec<u8>) {
    let alice_sk = [0x42u8; 32];
    let bob_sk = [0x77u8; 32];
    let alice_identity = identity_keypair(&alice_sk);
    let bob_identity = identity_keypair(&bob_sk);
    let spk = [0x43u8; 32];
    // Signed prekey must be signed by the recipient's (Bob's) identity.
    let sig = sign(&bob_sk, &spk, None).unwrap();
    let params = X3dhParams {
        identity_priv: &alice_sk,
        identity_pub: &alice_identity,
        signed_prekey_pub: &spk,
        signed_prekey_sig: &sig,
        prekey_pub: None,
        prekey_id: None,
        recipient_pub: &bob_identity,
        recipient_prekey: &spk,
        registration_id: 42,
        signed_key_id: 1,
    };
    let fixed_eph = [0x55u8; 32];
    let alice = build_initial_session_with_ephemeral(&params, &fixed_eph).unwrap();
    // Without a pending prekey messages go out bare.
    let alice = changed(&alice, |e| e.pendingPreKey = None);
    let bob = build_bob_session(&alice, &alice_identity);
    (alice, bob, alice_identity, bob_identity)
}

/// A receiver whose receiving chain is Alice's sending chain.
fn build_bob_session(alice: &SessionRecord, alice_identity: &[u8]) -> SessionRecord {
    let a_entry = entry(alice);
    let a_eph_pub = a_entry.currentRatchet.ephemeralKeyPair.pubKey.clone();
    let a_send_chain = chain_of(a_entry, 1).unwrap();
    let root_key = a_entry.currentRatchet.rootKey.clone();

    let bob_seed = [0x11u8; 32];
    let (bob_pub, bob_priv) = generate_keypair(&bob_seed).unwrap();

    let mut chains = StringMap::new();
    chains.insert(
        a_eph_pub.clone(),
        Chain {
            chainKey: ChainKey { counter: -1, key: a_send_chain.chainKey.key.clone() },
            chainType: 0,
            messageKeys: BTreeMap::new(),
        },
    );
    let entry = SessionEntry {
        registrationId: 42,
        currentRatchet: Ratchet {
            ephemeralKeyPair: KeyPair { pubKey: b64(&bob_pub), privKey: b64(&bob_priv) },
            lastRemoteEphemeralKey: a_eph_pub,
            previousCounter: 0,
            rootKey: root_key,
        },
        indexInfo: IndexInfo {
            baseKey: "bob-base".to_string(),
            baseKeyType: 0,
            closed: -1,
            used: 0,
            created: 0,
            remoteIdentityKey: b64(alice_identity),
        },
        chains,
        pendingPreKey: None,
    };
    let mut record = empty_record();
    record.sessions.insert("bob-session".to_string(), entry);
    record
}

/// Alice (initiator) and Bob (recipient), both built by X3DH.
fn build_handshake(
    opk_priv: Option<[u8; 32]>,
) -> (SessionRecord, SessionRecord, Vec<u8>, Vec<u8>) {
    let alice_sk = [0x42u8; 32];
    let bob_sk = [0x77u8; 32];
    let alice_id = identity_keypair(&alice_sk);
    let bob_id = identity_keypair(&bob_sk);

    let spk_priv = [0x43u8; 32];
    let (spk_pub, _) = generate_keypair(&spk_priv).unwrap();
    let sig = sign(&bob_sk, &spk_pub, None).unwrap();

    let fixed_eph = [0x55u8; 32];
    let (eph_pub, _) = generate_keypair(&fixed_eph).unwrap();

    // One-time prekey (optional).
    let opk_seed = [0x99u8; 32];
    let (opk_pub, _) = generate_keypair(&opk_seed).unwrap();
    let use_opk = opk_priv.is_some();

    let params = X3dhParams {
        identity_priv: &alice_sk,
        identity_pub: &alice_id,
        signed_prekey_pub: &spk_pub,
        signed_prekey_sig: &sig,
        prekey_pub: if use_opk { Some(&opk_pub) } else { None },
        prekey_id: if use_opk { Some(7) } else { None },
        recipient_pub: &bob_id,
        recipient_prekey: &spk_pub,
        registration_id: 42,
        signed_key_id: 4,
    };
    let alice = build_initial_session_with_ephemeral(&params, &fixed_eph).unwrap();

    let bob = build_recipient_session(
        &bob_sk,
        &spk_priv,
        &spk_pub,
        if use_opk { Some(&opk_seed) } else { None },
        &alice_id,
        &eph_pub,
        42,
    )
    .unwrap();
    (alice, bob, alice_id, bob_id)
}

#[test]
fn test_encrypt_decrypt_roundtrip() {
    let (alice, bob, alice_id, bob_id) = build_pair();
    let plaintext = b"hello signal";

    let enc = encrypt(&alice, plaintext, &alice_id, &bob_id, 42).unwrap();
    assert_eq!(enc.message_type, 1);
    assert_eq!(enc.ciphertext[0], 0x33, "version byte");
    assert!(enc.ciphertext.len() >= 1 + 8, "version + msgBuf + 8B mac");
    // Parsable as WhisperMessage between version byte and 8-byte MAC.
    decode_whisper(&enc.ciphertext[1..enc.ciphertext.len() - 8]).unwrap();

    let dec = decrypt_whisper(&bob, &enc.ciphertext, &bob_id).unwrap();
    assert_eq!(dec.plaintext, plaintext);
}

#[test]
fn test_multi_message_ratchet() {
    let (alice0, bob0, alice_id, bob_id) = build_pair();
    let mut alice = alice0;
    let mut bob = bob0;
    let msgs: Vec<Vec<u8>> = (0..5).map(|i| format!("msg {}", i).into_bytes()).collect();

    for (i, m) in msgs.iter().enumerate() {
        let enc = encrypt(&alice, m, &alice_id, &bob_id, 42).unwrap();
        alice = enc.session;
        let dec = decrypt_whisper(&bob, &enc.ciphertext, &bob_id).unwrap();
        bob = dec.session;
        assert_eq!(&dec.plaintext, m);

        // Verify counter increments
        let chain = chain_of(entry(&alice), 1).unwrap();
        assert_eq!(chain.chainKey.counter, i as i64);
    }
}

#[test]
fn test_tamper_fails() {
    let (alice, bob, alice_id, bob_id) = build_pair();
    let plaintext = b"integrity check";

    let enc = encrypt(&alice, plaintext, &alice_id, &bob_id, 42).unwrap();
    let mut tampered = enc.ciphertext.clone();
    let last = tampered.len() - 1;
    tampered[last] ^= 0x01;

    let result = decrypt_whisper(&bob, &tampered, &bob_id);
    match result {
        Ok(_) => panic!("tampered message must fail"),
        Err(err) => assert!(
            err.contains("MAC") || err.contains("ciphertext"),
            "expected MAC or ciphertext error, got: {}",
            err
        ),
    }
}

#[test]
fn test_chain_key_advances() {
    let (alice, _, alice_id, bob_id) = build_pair();

    let enc1 = encrypt(&alice, b"first", &alice_id, &bob_id, 42).unwrap();
    let c1 = chain_of(entry(&enc1.session), 1).unwrap();
    assert_eq!(c1.chainKey.counter, 0);

    let enc2 = encrypt(&enc1.session, b"second", &alice_id, &bob_id, 42).unwrap();
    let c2 = chain_of(entry(&enc2.session), 1).unwrap();
    assert_eq!(c2.chainKey.counter, 1);
}

#[test]
fn test_decrypt_pkmsg_with_session() {
    let (alice, bob, alice_id, bob_id) = build_pair();
    let plaintext = b"pkmsg payload";

    let enc = encrypt(&alice, plaintext, &alice_id, &bob_id, 42).unwrap();
    let pkmsg = PreKeyWhisperMessage {
        pre_key_id: Some(123),
        base_key: vec![0x01; 32],
        identity_key: alice_id.clone(),
        message: enc.ciphertext,
        registration_id: 42,
        signed_pre_key_id: Some(1),
    };
    let pk_bytes = encode_pkmsg(&pkmsg).unwrap();

    let mut wire = vec![0x33];
    wire.extend_from_slice(&pk_bytes);
    let dec = decrypt_pkmsg(&bob, &wire, &bob_id).unwrap();
    assert_eq!(dec.plaintext, plaintext);
}

#[test]
fn test_decrypt_pkmsg_no_session_fails() {
    let (alice, _, alice_id, bob_id) = build_pair();
    let plaintext = b"pkmsg payload";
    let enc = encrypt(&alice, plaintext, &alice_id, &bob_id, 42).unwrap();
    let pkmsg = PreKeyWhisperMessage {
        pre_key_id: Some(123),
        base_key: vec![0x01; 32],
        identity_key: alice_id,
        message: enc.ciphertext,
        registration_id: 42,
        signed_pre_key_id: Some(1),
    };
    let pk_bytes = encode_pkmsg(&pkmsg).unwrap();

    let mut wire = vec![0x33];
    wire.extend_from_slice(&pk_bytes);
    let result = decrypt_pkmsg(&empty_record(), &wire, &bob_id);
    assert!(result.is_err());
}

#[test]
fn test_encrypt_then_decrypt_as_self() {
    // Self-session: same identity as both sender and recipient. The record
    // keeps a sending chain (chainType 1) and a mirrored receiving chain
    // (chainType 0) so the SAME session can decrypt its own output.
    let sk = [0x42u8; 32];
    let identity = identity_keypair(&sk);
    let spk = [0x43u8; 32];
    let sig = sign(&sk, &spk, None).unwrap();
    let params = X3dhParams {
        identity_priv: &sk,
        identity_pub: &identity,
        signed_prekey_pub: &spk,
        signed_prekey_sig: &sig,
        prekey_pub: None,
        prekey_id: None,
        recipient_pub: &identity,
        recipient_prekey: &spk,
        registration_id: 42,
        signed_key_id: 1,
    };
    let fixed_eph = [0x55u8; 32];
    let alice = build_initial_session_with_ephemeral(&params, &fixed_eph).unwrap();

    let self_session = changed(&alice, |entry| {
        entry.pendingPreKey = None;
        let eph_pub = entry.currentRatchet.ephemeralKeyPair.pubKey.clone();
        let send_chain = entry.chains.remove(&eph_pub).unwrap();
        let recv_chain = Chain {
            chainKey: send_chain.chainKey.clone(),
            chainType: 0,
            messageKeys: BTreeMap::new(),
        };
        entry.chains.insert(eph_pub.clone() + ":send", send_chain);
        entry.chains.insert(eph_pub, recv_chain);
    });

    let plaintext = b"self roundtrip";
    let enc = encrypt(&self_session, plaintext, &identity, &identity, 42).unwrap();
    let dec = decrypt_whisper(&self_session, &enc.ciphertext, &identity).unwrap();
    assert_eq!(dec.plaintext, plaintext);
}

#[test]
fn test_full_x3dh_roundtrip_with_recipient_session() {
    // Alice initiates X3DH, Bob builds session as recipient from the wire
    // message. Alice's first message is type-3 (pendingPreKey set). Bob
    // decrypts it (sending chain created by ratchet step) and replies.
    let (alice, bob, alice_id, bob_id) = build_handshake(None);

    // Alice's first message → type 3 (PreKeyWhisperMessage).
    let enc1 = encrypt(&alice, b"first", &alice_id, &bob_id, 42).unwrap();
    assert_eq!(enc1.message_type, 3, "first message wraps as PKMsg");
    assert_eq!(enc1.ciphertext[0], 0x33);

    // Bob decrypts the PKMsg directly (enc1.ciphertext is [0x33] || pkmsg).
    let dec1 = decrypt_pkmsg(&bob, &enc1.ciphertext, &bob_id).unwrap();
    assert_eq!(dec1.plaintext, b"first");

    // Bob's session now has a sending chain (created by ratchet step).
    let bob_entry = entry(&dec1.session);
    assert!(
        chain_of(bob_entry, 1).is_some(),
        "recipient must have a sending chain after first decrypt"
    );
    // And a receiving chain.
    assert!(
        chain_of(bob_entry, 0).is_some(),
        "recipient must have a receiving chain after first decrypt"
    );

    // Bob replies → type 1 (no pendingPreKey on recipient).
    let enc2 = encrypt(&dec1.session, b"reply", &bob_id, &alice_id, 42).unwrap();
    assert_eq!(enc2.message_type, 1, "recipient reply is plain WhisperMessage");

    // Alice decrypts the reply — her pendingPreKey is now cleared.
    let dec2 = decrypt_whisper(&enc1.session, &enc2.ciphertext, &alice_id).unwrap();
    assert_eq!(dec2.plaintext, b"reply");
    let alice_entry = entry(&dec2.session);
    assert!(alice_entry.pendingPreKey.is_none(), "pendingPreKey cleared on decrypt");
}

#[test]
fn test_full_x3dh_roundtrip_with_one_time_prekey() {
    // Same as above, but Alice uses Bob's one-time prekey (DH4 in X3DH).
    let opk_priv = [0x99u8; 32];
    let (alice, bob, alice_id, bob_id) = build_handshake(Some(opk_priv));

    let enc1 = encrypt(&alice, b"opk first", &alice_id, &bob_id, 42).unwrap();
    assert_eq!(enc1.message_type, 3);
    let dec1 = decrypt_pkmsg(&bob, &enc1.ciphertext, &bob_id).unwrap();
    assert_eq!(dec1.plaintext, b"opk first");

    let enc2 = encrypt(&dec1.session, b"opk reply", &bob_id, &alice_id, 42).unwrap();
    let dec2 = decrypt_whisper(&enc1.session, &enc2.ciphertext, &alice_id).unwrap();
    assert_eq!(dec2.plaintext, b"opk reply");
}

#[test]
fn messages_arrive_in_any_order() {
    let (mut alice, mut bob, alice_id, bob_id) = build_pair();
    let mut wire = Vec::new();
    for i in 0..6u8 {
        let enc = encrypt(&alice, &[i; 20], &alice_id, &bob_id, 42).unwrap();
        alice = enc.session;
        wire.push(enc.ciphertext);
    }
    for i in [2usize, 5, 1, 0, 4, 3] {
        let dec = decrypt_whisper(&bob, &wire[i], &bob_id).unwrap();
        assert_eq!(dec.plaintext, vec![i as u8; 20]);
        bob = dec.session;
    }
    assert!(chain_of(entry(&bob), 0).unwrap().messageKeys.is_empty());
}

#[test]
fn skipped_keys_are_kept() {
    let (mut alice, bob, alice_id, bob_id) = build_pair();
    let mut last = Vec::new();
    for _ in 0..4 {
        let enc = encrypt(&alice, b"x", &alice_id, &bob_id, 42).unwrap();
        alice = enc.session;
        last = enc.ciphertext;
    }
    let dec = decrypt_whisper(&bob, &last, &bob_id).unwrap();
    let chain = chain_of(entry(&dec.session), 0).unwrap();
    assert_eq!(chain.chainKey.counter, 3);
    assert_eq!(chain.messageKeys.keys().copied().collect::<Vec<i64>>(), vec![0, 1, 2]);
}

#[test]
fn a_replay_is_rejected() {
    let (alice, bob, alice_id, bob_id) = build_pair();
    let enc = encrypt(&alice, b"once", &alice_id, &bob_id, 42).unwrap();
    let dec = decrypt_whisper(&bob, &enc.ciphertext, &bob_id).unwrap();
    assert_eq!(
        decrypt_whisper(&dec.session, &enc.ciphertext, &bob_id).unwrap_err(),
        "message key not found"
    );
}

#[test]
fn a_changed_code_is_rejected() {
    let (alice, bob, alice_id, bob_id) = build_pair();
    let enc = encrypt(&alice, b"code", &alice_id, &bob_id, 42).unwrap();
    let n = enc.ciphertext.len();
    for i in n - 8..n {
        let mut changed = enc.ciphertext.clone();
        changed[i] ^= 0x80;
        assert_eq!(
            decrypt_whisper(&bob, &changed, &bob_id).unwrap_err(),
            "MAC verification failed"
        );
    }
}

#[test]
fn the_wrong_identity_is_rejected() {
    let (alice, bob, alice_id, bob_id) = build_pair();
    let enc = encrypt(&alice, b"id", &alice_id, &bob_id, 42).unwrap();
    assert_eq!(
        decrypt_whisper(&bob, &enc.ciphertext, &alice_id).unwrap_err(),
        "MAC verification failed"
    );
}

#[test]
fn prekey_messages_until_the_answer() {
    let (alice, bob, alice_id, bob_id) = build_handshake(Some([0x99u8; 32]));
    let one = encrypt(&alice, b"one", &alice_id, &bob_id, 77).unwrap();
    let two = encrypt(&one.session, b"two", &alice_id, &bob_id, 77).unwrap();
    assert_eq!((one.message_type, two.message_type), (3, 3));
    let m = decode_pkmsg(&one.ciphertext[1..]).unwrap();
    assert_eq!(m.pre_key_id, Some(7));
    assert_eq!(m.signed_pre_key_id, Some(4));
    assert_eq!(m.registration_id, 77);
    assert_eq!(m.identity_key, alice_id);
    let (eph_pub, _) = generate_keypair(&[0x55u8; 32]).unwrap();
    assert_eq!(m.base_key[0], 0x05);
    assert_eq!(m.base_key[1..].to_vec(), eph_pub.to_vec());
    let w = parse_frame(&m.message).unwrap();
    assert_eq!(w.ephemeral_key, m.base_key);
    assert_eq!((w.counter, w.previous_counter), (0, 0));

    // The second message may come first.
    let dec = decrypt_pkmsg(&bob, &two.ciphertext, &bob_id).unwrap();
    assert_eq!(dec.plaintext, b"two");
    let dec = decrypt_pkmsg(&dec.session, &one.ciphertext, &bob_id).unwrap();
    assert_eq!(dec.plaintext, b"one");

    let answer = encrypt(&dec.session, b"answer", &bob_id, &alice_id, 78).unwrap();
    let got = decrypt_whisper(&two.session, &answer.ciphertext, &alice_id).unwrap();
    assert_eq!(got.plaintext, b"answer");
    let three = encrypt(&got.session, b"three", &alice_id, &bob_id, 77).unwrap();
    assert_eq!(three.message_type, 1);
    let w = parse_frame(&three.ciphertext).unwrap();
    assert_eq!((w.counter, w.previous_counter), (0, 1));
}

#[test]
fn a_long_conversation() {
    let (mut alice, mut bob, alice_id, bob_id) = build_handshake(None);
    for round in 0..4u8 {
        for i in 0..3u8 {
            let enc = encrypt(&alice, &[round, i], &alice_id, &bob_id, 42).unwrap();
            alice = enc.session;
            let dec = if enc.message_type == 3 {
                decrypt_pkmsg(&bob, &enc.ciphertext, &bob_id).unwrap()
            } else {
                decrypt_whisper(&bob, &enc.ciphertext, &bob_id).unwrap()
            };
            assert_eq!(dec.plaintext, vec![round, i]);
            bob = dec.session;
        }
        for i in 0..2u8 {
            let enc = encrypt(&bob, &[round, i, 9], &bob_id, &alice_id, 42).unwrap();
            bob = enc.session;
            let dec = decrypt_whisper(&alice, &enc.ciphertext, &alice_id).unwrap();
            assert_eq!(dec.plaintext, vec![round, i, 9]);
            alice = dec.session;
        }
    }
}

#[test]
fn messages_that_cross_are_both_heard() {
    let (alice, bob, alice_id, bob_id) = build_handshake(None);
    let m0 = encrypt(&alice, b"m0", &alice_id, &bob_id, 42).unwrap();
    let bob = decrypt_pkmsg(&bob, &m0.ciphertext, &bob_id).unwrap().session;
    // Both send before either receives.
    let m1 = encrypt(&m0.session, b"m1", &alice_id, &bob_id, 42).unwrap();
    let n0 = encrypt(&bob, b"n0", &bob_id, &alice_id, 42).unwrap();
    let at_alice = decrypt_whisper(&m1.session, &n0.ciphertext, &alice_id).unwrap();
    assert_eq!(at_alice.plaintext, b"n0");
    let at_bob = decrypt_pkmsg(&n0.session, &m1.ciphertext, &bob_id).unwrap();
    assert_eq!(at_bob.plaintext, b"m1");
    // Receiving without a turn leaves Bob's keys and his next counter.
    assert_eq!(entry(&at_bob.session).currentRatchet, entry(&n0.session).currentRatchet);
    let n1 = encrypt(&at_bob.session, b"n1", &bob_id, &alice_id, 42).unwrap();
    let w = parse_frame(&n1.ciphertext).unwrap();
    assert_eq!(w.counter, 1);
    assert_eq!(w.ephemeral_key, parse_frame(&n0.ciphertext).unwrap().ephemeral_key);
    let dec = decrypt_whisper(&at_alice.session, &n1.ciphertext, &alice_id).unwrap();
    assert_eq!(dec.plaintext, b"n1");
    // Each sends with one chain, that of its current key pair.
    for r in [&dec.session, &n1.session] {
        let e = entry(r);
        for i in 0..e.chains.len() {
            if e.chains.value_at(i).chainType == 1 {
                assert_eq!(e.chains.key_at(i), &e.currentRatchet.ephemeralKeyPair.pubKey);
            }
        }
    }
}

#[test]
fn late_messages_of_a_closed_chain_arrive() {
    let (alice, bob, alice_id, bob_id) = build_handshake(None);
    // Alice sends three messages; only the first arrives in time.
    let m0 = encrypt(&alice, b"m0", &alice_id, &bob_id, 42).unwrap();
    let m1 = encrypt(&m0.session, b"m1", &alice_id, &bob_id, 42).unwrap();
    let m2 = encrypt(&m1.session, b"m2", &alice_id, &bob_id, 42).unwrap();
    let bob = decrypt_pkmsg(&bob, &m0.ciphertext, &bob_id).unwrap().session;
    // Bob answers, Alice turns and sends under a new key.
    let answer = encrypt(&bob, b"answer", &bob_id, &alice_id, 42).unwrap();
    let bob = answer.session;
    let alice = decrypt_whisper(&m2.session, &answer.ciphertext, &alice_id).unwrap().session;
    let n0 = encrypt(&alice, b"n0", &alice_id, &bob_id, 42).unwrap();
    let w = parse_frame(&n0.ciphertext).unwrap();
    assert_eq!((w.counter, w.previous_counter), (0, 2));
    let dec = decrypt_whisper(&bob, &n0.ciphertext, &bob_id).unwrap();
    assert_eq!(dec.plaintext, b"n0");
    let bob = dec.session;
    // The late ones.
    let dec = decrypt_pkmsg(&bob, &m2.ciphertext, &bob_id).unwrap();
    assert_eq!(dec.plaintext, b"m2");
    assert_eq!(
        decrypt_pkmsg(&dec.session, &m2.ciphertext, &bob_id).unwrap_err(),
        "message key not found"
    );
    // They leave the other chains alone.
    let late = b64(&generate_keypair(&[0x55u8; 32]).unwrap().0);
    let (before, after) = (&entry(&bob).chains, &entry(&dec.session).chains);
    assert_eq!(before.len(), after.len());
    for i in 0..before.len() {
        if before.key_at(i) != &late {
            assert_eq!(after.get(before.key_at(i)), Some(before.value_at(i)));
        }
    }
    let dec = decrypt_pkmsg(&dec.session, &m1.ciphertext, &bob_id).unwrap();
    assert_eq!(dec.plaintext, b"m1");
}

#[test]
fn the_seed_of_a_turn() {
    let (alice, bob, alice_id, bob_id) = build_handshake(None);
    let enc = encrypt(&alice, b"turn", &alice_id, &bob_id, 42).unwrap();
    let seed = [0x31u8; 32];
    let one = decrypt_pkmsg_with_seed(&bob, &enc.ciphertext, &bob_id, &seed).unwrap();
    let two = decrypt_pkmsg_with_seed(&bob, &enc.ciphertext, &bob_id, &seed).unwrap();
    assert_eq!(one, two);
    let (public, _) = generate_keypair(&seed).unwrap();
    let e = entry(&one.session);
    assert_eq!(e.currentRatchet.ephemeralKeyPair.pubKey, b64(&public));
    assert_eq!(e.currentRatchet.ephemeralKeyPair.privKey, b64(&seed));
    assert_eq!(e.chains.get(&b64(&public)).unwrap().chainType, 1);
    // The plaintext does not depend on the seed, the session does.
    let other = decrypt_pkmsg_with_seed(&bob, &enc.ciphertext, &bob_id, &[0x32u8; 32]).unwrap();
    assert_eq!(other.plaintext, one.plaintext);
    assert_ne!(other.session, one.session);
    // Random seeds differ.
    let a = decrypt_pkmsg(&bob, &enc.ciphertext, &bob_id).unwrap();
    let b = decrypt_pkmsg(&bob, &enc.ciphertext, &bob_id).unwrap();
    assert_ne!(a.session, b.session);
    // No turn, no seed.
    let again = encrypt(&enc.session, b"again", &alice_id, &bob_id, 42).unwrap();
    let inner = decode_pkmsg(&again.ciphertext[1..]).unwrap().message;
    let x = decrypt_whisper_with_seed(&one.session, &inner, &bob_id, &[1u8; 32]).unwrap();
    let y = decrypt_whisper_with_seed(&one.session, &inner, &bob_id, &[2u8; 32]).unwrap();
    assert_eq!(x, y);
}

#[test]
fn two_thousand_messages_ahead_is_the_limit() {
    let (mut alice, bob, alice_id, bob_id) = build_pair();
    let mut wire = Vec::new();
    for i in 0..2001 {
        let enc = encrypt(&alice, b"far", &alice_id, &bob_id, 42).unwrap();
        alice = enc.session;
        if i >= 1999 {
            wire.push(enc.ciphertext);
        }
    }
    assert_eq!(decrypt_whisper(&bob, &wire[0], &bob_id).unwrap().plaintext, b"far");
    assert_eq!(
        decrypt_whisper(&bob, &wire[1], &bob_id).unwrap_err(),
        "Over 2000 messages into the future!"
    );
}

#[test]
fn encryption_errors() {
    let (alice, _, alice_id, bob_id) = build_pair();
    let e = |r: &SessionRecord| encrypt(r, b"x", &alice_id, &bob_id, 42).unwrap_err();
    assert_eq!(e(&empty_record()), "no session entry");
    assert_eq!(e(&changed(&alice, |e| e.chains = StringMap::new())), "no sending chain");
    let bad = changed(&alice, |e| e.currentRatchet.ephemeralKeyPair.pubKey = "*".to_string());
    assert_eq!(e(&bad), "Invalid symbol 42, offset 0.");
    let bad = changed(&alice, |e| {
        let k = e.chains.key_at(0).clone();
        let mut c = e.chains.remove(&k).unwrap();
        c.chainKey.key = "AAA".to_string();
        e.chains.insert(k, c);
    });
    assert_eq!(e(&bad), "Invalid padding");
}

#[test]
fn a_failed_encryption_of_a_prekey_message() {
    let (alice, _, alice_id, bob_id) = build_handshake(None);
    let bad = changed(&alice, |e| {
        let mut p = e.pendingPreKey.take().unwrap();
        p.baseKey = "?".to_string();
        e.pendingPreKey = Some(p);
    });
    assert!(encrypt(&bad, b"x", &alice_id, &bob_id, 42).is_err());
}

#[test]
fn decryption_errors() {
    let (alice, bob, alice_id, bob_id) = build_pair();
    let enc = encrypt(&alice, b"x", &alice_id, &bob_id, 42).unwrap();
    let e = |r: &SessionRecord, c: &[u8]| decrypt_whisper(r, c, &bob_id).unwrap_err();
    assert_eq!(e(&bob, b""), "bad version byte or truncated message");
    assert_eq!(e(&bob, &[0x33; 8]), "bad version byte or truncated message");
    let mut version = enc.ciphertext.clone();
    version[0] = 0x34;
    assert_eq!(e(&bob, &version), "bad version byte or truncated message");
    let mut body = vec![0x33, 0x10];
    body.extend_from_slice(&[0; 8]);
    assert_eq!(e(&bob, &body), "varint truncated at byte 1");
    assert_eq!(e(&empty_record(), &enc.ciphertext), "no session entry");
    let sending = changed(&bob, |e| {
        let k = e.chains.key_at(0).clone();
        let mut c = e.chains.remove(&k).unwrap();
        c.chainType = 1;
        e.chains.insert(k, c);
    });
    assert_eq!(e(&sending, &enc.ciphertext), "no receiving chain");
    let bad = changed(&bob, |e| e.indexInfo.remoteIdentityKey = "!".to_string());
    assert_eq!(e(&bad, &enc.ciphertext), "Invalid symbol 33, offset 0.");
    let turns = changed(&bob, |e| {
        e.chains = StringMap::new();
        e.currentRatchet.ephemeralKeyPair.privKey = b64(&[1, 2, 3]);
    });
    assert_eq!(e(&turns, &enc.ciphertext), "wrong secret key length: 3 (expected 32)");
    let turns = changed(&bob, |e| {
        e.chains = StringMap::new();
        e.currentRatchet.rootKey = "?".to_string();
    });
    assert_eq!(e(&turns, &enc.ciphertext), "Invalid symbol 63, offset 0.");
}

#[test]
fn counters_run_out() {
    let (alice, bob, alice_id, bob_id) = build_pair();
    assert!(counter_is_left(&alice));
    assert!(counter_is_left(&bob));
    assert!(counter_is_left(&empty_record()));
    let spent = changed(&alice, |e| {
        let k = e.chains.key_at(0).clone();
        let mut c = e.chains.remove(&k).unwrap();
        c.chainKey.counter = i64::MAX;
        e.chains.insert(k, c);
    });
    assert!(!counter_is_left(&spent));
    assert_eq!(try_encrypt(&spent, b"x", &alice_id, &bob_id, 42), None);
    assert_eq!(
        try_encrypt(&alice, b"x", &alice_id, &bob_id, 42),
        Some(encrypt(&alice, b"x", &alice_id, &bob_id, 42))
    );
    // The ephemeral key is decoded before the counter is looked at.
    let broken = changed(&spent, |e| {
        e.currentRatchet.ephemeralKeyPair.pubKey = "*".to_string();
    });
    assert!(counter_is_left(&broken));
    assert_eq!(
        encrypt(&broken, b"x", &alice_id, &bob_id, 42).unwrap_err(),
        "Invalid symbol 42, offset 0."
    );
}

#[test]
fn counters_wrap_on_the_wire() {
    let (alice, _, alice_id, bob_id) = build_pair();
    let far = changed(&alice, |e| {
        let k = e.chains.key_at(0).clone();
        let mut c = e.chains.remove(&k).unwrap();
        c.chainKey.counter = (1 << 32) + 4;
        e.chains.insert(k, c);
    });
    let enc = encrypt(&far, b"x", &alice_id, &bob_id, 42).unwrap();
    assert_eq!(parse_frame(&enc.ciphertext).unwrap().counter, 5);
    assert_eq!(chain_of(entry(&enc.session), 1).unwrap().chainKey.counter, (1 << 32) + 5);
}

#[test]
fn prekey_decryption_errors() {
    let (_, bob, _, bob_id) = build_pair();
    let e = |r: &SessionRecord, c: &[u8]| decrypt_pkmsg(r, c, &bob_id).unwrap_err();
    assert_eq!(e(&bob, b""), "bad version byte");
    assert_eq!(e(&bob, &[0x32]), "bad version byte");
    assert_eq!(parse_pkmsg_frame(&[0x32]).unwrap_err(), "bad version byte");
    assert_eq!(parse_pkmsg_frame(&[0x33, 0x28, 0x07]).unwrap().registration_id, 7);
    assert_eq!(e(&bob, &[0x33, 0x00]), "invalid field number 0");
    assert_eq!(e(&bob, &[0x33]), "bad version byte or truncated message");
    let closed = changed(&bob, |e| e.indexInfo.closed = 1);
    assert_eq!(
        e(&closed, &[0x33]),
        "no open session — X3DH recipient init deferred to JS wrapper"
    );
}

#[test]
fn other_sessions_and_the_input_are_left_alone() {
    let (alice, _, alice_id, bob_id) = build_pair();
    let mut two = alice.clone();
    let other = changed(&alice, |e| e.registrationId = 7);
    two.sessions.insert("zzz".to_string(), entry(&other).clone());
    let before = two.clone();
    let enc = encrypt(&two, b"x", &alice_id, &bob_id, 42).unwrap();
    assert_eq!(two, before);
    assert_eq!(enc.session.sessions.len(), 2);
    assert_eq!(enc.session.sessions.get("zzz"), before.sessions.get("zzz"));
    assert_ne!(enc.session, before);
}
