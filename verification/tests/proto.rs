//! The message wire format.
use oktz_signal::proto::{
    decode_pkmsg, decode_whisper, encode_pkmsg, encode_whisper, PreKeyWhisperMessage,
    WhisperMessage,
};

fn hex(s: &str) -> Vec<u8> {
    (0..s.len())
        .step_by(2)
        .map(|i| u8::from_str_radix(&s[i..i + 2], 16).unwrap())
        .collect()
}

#[test]
fn test_whisper_roundtrip() {
    let msg = WhisperMessage {
        ephemeral_key: vec![0xAB; 32],
        counter: 42,
        previous_counter: 7,
        ciphertext: vec![0xCD; 64],
    };
    let encoded = encode_whisper(&msg).unwrap();
    let decoded = decode_whisper(&encoded).unwrap();
    assert_eq!(decoded.ephemeral_key, msg.ephemeral_key);
    assert_eq!(decoded.counter, 42);
    assert_eq!(decoded.previous_counter, 7);
    assert_eq!(decoded.ciphertext, msg.ciphertext);
}

#[test]
fn test_pkmsg_roundtrip_with_optionals() {
    let msg = PreKeyWhisperMessage {
        pre_key_id: Some(1234),
        base_key: vec![0x11; 33],
        identity_key: vec![0x22; 33],
        message: vec![0x33; 50],
        registration_id: 555,
        signed_pre_key_id: Some(9),
    };
    let encoded = encode_pkmsg(&msg).unwrap();
    let decoded = decode_pkmsg(&encoded).unwrap();
    assert_eq!(decoded.pre_key_id, Some(1234));
    assert_eq!(decoded.base_key, msg.base_key);
    assert_eq!(decoded.identity_key, msg.identity_key);
    assert_eq!(decoded.message, msg.message);
    assert_eq!(decoded.registration_id, 555);
    assert_eq!(decoded.signed_pre_key_id, Some(9));
}

#[test]
fn test_pkmsg_roundtrip_no_optionals() {
    let msg = PreKeyWhisperMessage {
        pre_key_id: None,
        base_key: vec![0xAA; 33],
        identity_key: vec![0xBB; 33],
        message: vec![0xCC; 20],
        registration_id: 1,
        signed_pre_key_id: None,
    };
    let encoded = encode_pkmsg(&msg).unwrap();
    let decoded = decode_pkmsg(&encoded).unwrap();
    assert_eq!(decoded.pre_key_id, None);
    assert_eq!(decoded.signed_pre_key_id, None);
    assert_eq!(decoded.base_key, msg.base_key);
    assert_eq!(decoded.identity_key, msg.identity_key);
    assert_eq!(decoded.message, msg.message);
    assert_eq!(decoded.registration_id, 1);
}

#[test]
fn test_whisper_skips_unknown_field() {
    let msg = WhisperMessage {
        ephemeral_key: vec![0x01; 8],
        counter: 100,
        previous_counter: 0,
        ciphertext: vec![0x02; 12],
    };
    let encoded = encode_whisper(&msg).unwrap();
    // Append unknown field 7 (varint): tag = (7<<3)|0 = 0x38, value 123.
    let mut with_unknown = encoded.clone();
    with_unknown.extend_from_slice(&[0x38, 123]);
    let decoded = decode_whisper(&with_unknown).unwrap();
    assert_eq!(decoded.ephemeral_key, msg.ephemeral_key);
    assert_eq!(decoded.counter, 100);
    assert_eq!(decoded.previous_counter, 0);
    assert_eq!(decoded.ciphertext, msg.ciphertext);
}

#[test]
fn test_whisper_known_answer_bytes() {
    let msg = WhisperMessage {
        ephemeral_key: b"abc".to_vec(),
        counter: 300, // varint multi-byte: 0xAC 0x02
        previous_counter: 0,
        ciphertext: b"xyz".to_vec(),
    };
    let encoded = encode_whisper(&msg).unwrap();
    let expected = hex("0a0361626310ac021800220378797a");
    assert_eq!(encoded, expected);
}

#[test]
fn test_pkmsg_known_answer_bytes() {
    // pre_key_id=1, base_key=[0xEE], identity_key=[0xFF], message=[0x10],
    // registration_id=0, signed_pre_key_id=NONE
    let msg = PreKeyWhisperMessage {
        pre_key_id: Some(1),
        base_key: vec![0xEE],
        identity_key: vec![0xFF],
        message: vec![0x10],
        registration_id: 0,
        signed_pre_key_id: None,
    };
    let encoded = encode_pkmsg(&msg).unwrap();
    // field1 varint: 0x08 01; field2 bytes: 0x12 01 ee;
    // field3 bytes: 0x1a 01 ff; field4 bytes: 0x22 01 10;
    // field5 varint: 0x28 00; field6 absent.
    let expected = hex("08011201ee1a01ff2201102800");
    assert_eq!(encoded, expected);
}

#[test]
fn unknown_fields_are_skipped_wherever_they_stand() {
    // varint 7, fixed64 8, bytes 9, fixed32 10, and known numbers with other
    // wire types: counter as bytes, ephemeral key as a varint.
    let mut bytes = hex("387b");
    bytes.extend_from_slice(&hex("410001020304050607"));
    bytes.extend_from_slice(&hex("0a0161"));
    bytes.extend_from_slice(&hex("4a022020"));
    bytes.extend_from_slice(&hex("5500010203"));
    bytes.extend_from_slice(&hex("1005"));
    bytes.extend_from_slice(&hex("120199"));
    bytes.extend_from_slice(&hex("0863"));
    bytes.extend_from_slice(&hex("220162"));
    let m = decode_whisper(&bytes).unwrap();
    assert_eq!(m.ephemeral_key, b"a".to_vec());
    assert_eq!(m.counter, 5);
    assert_eq!(m.previous_counter, 0);
    assert_eq!(m.ciphertext, b"b".to_vec());
}

#[test]
fn the_last_of_a_repeated_field_counts() {
    let m = decode_whisper(&hex("0a01611001100210030a0162")).unwrap();
    assert_eq!(m.ephemeral_key, b"b".to_vec());
    assert_eq!(m.counter, 3);
    let p = decode_pkmsg(&hex("0801080228053006")).unwrap();
    assert_eq!(p.pre_key_id, Some(2));
    assert_eq!(p.registration_id, 5);
    assert_eq!(p.signed_pre_key_id, Some(6));
}

#[test]
fn empty_input_is_the_empty_message() {
    let m = decode_whisper(&[]).unwrap();
    assert_eq!(m.ephemeral_key, Vec::<u8>::new());
    assert_eq!(m.counter, 0);
    assert_eq!(m.ciphertext, Vec::<u8>::new());
    let p = decode_pkmsg(&[]).unwrap();
    assert_eq!(p.pre_key_id, None);
    assert_eq!(p.signed_pre_key_id, None);
    assert_eq!(p.registration_id, 0);
}

#[test]
fn messages_concatenate() {
    let first = WhisperMessage {
        ephemeral_key: vec![1; 33],
        counter: 1,
        previous_counter: 2,
        ciphertext: vec![3; 16],
    };
    let second = WhisperMessage {
        ephemeral_key: vec![4; 33],
        counter: 5,
        previous_counter: 6,
        ciphertext: vec![7; 300],
    };
    let mut bytes = encode_whisper(&first).unwrap();
    bytes.extend_from_slice(&encode_whisper(&second).unwrap());
    assert_eq!(decode_whisper(&bytes).unwrap(), second);
}

#[test]
fn decoding_errors() {
    let e = |s: &str| decode_whisper(&hex(s)).unwrap_err();
    assert_eq!(e("10"), "varint truncated at byte 1");
    assert_eq!(e("0a0561"), "bytes field truncated at byte 2");
    assert_eq!(e("10ffffffffffffffffffff"), "varint too long");
    assert_eq!(e("0001"), "invalid field number 0");
    assert_eq!(e("4100"), "fixed64 field truncated");
    assert_eq!(e("5500"), "fixed32 field truncated");
    assert_eq!(e("0b"), "unsupported wire type 3");
    assert_eq!(e("0f"), "unsupported wire type 7");
    assert_eq!(
        decode_pkmsg(&hex("1205ee")).unwrap_err(),
        "bytes field truncated at byte 2"
    );
}

#[test]
fn large_numbers_keep_their_low_32_bits() {
    // 2^32 + 1
    let m = decode_whisper(&hex("108180808010")).unwrap();
    assert_eq!(m.counter, 1);
    let msg = WhisperMessage {
        ephemeral_key: vec![],
        counter: u32::MAX,
        previous_counter: u32::MAX,
        ciphertext: vec![],
    };
    let m = decode_whisper(&encode_whisper(&msg).unwrap()).unwrap();
    assert_eq!(m, msg);
}
