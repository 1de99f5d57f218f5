//! What sending, receiving and turning the ratchet come to, in terms of the
//! primitives: which bytes are tagged, encrypted and agreed on, and with which
//! keys.
use crate::chain::{filled, key_taken, law_chain_steps, offers};
use crate::cipher::{cbc_decrypted, chained, padded};
use crate::curve::{wrong_length, x25519, x25519_base};
use crate::delivery::{hears, law_late_messages_heard, lemma_current_stays};
use crate::kdf::{hmac_tag, law_three_chunks};
use crate::map::{before, law_first_key, lemma_first_holds};
use crate::proto::{
    law_pkmsg_round_trip, law_whisper_round_trip, pkmsg_bytes, pkmsg_decoded, whisper_bytes, whisper_decoded, PreKeyWhisperView, WhisperView,
};
use crate::ratchet::{
    counter_left, current_session, decrypts, decrypts_pkmsg, encrypts, framed, message_of, prefixed, sending_chain, stripped,
    DecryptResult, EncryptResult,
};
use crate::session::{ChainKeyView, ChainView, EntryView, RecordView};
use crate::turn::stepped;
use crate::util::{base64_bytes, base64_text};
use vstd::prelude::*;
use vstd::utf8::encode_utf8;

verus! {

// ---------------------------------------------------------------- sending

/// A message on the wire. The sending chain's key gives the message key, the
/// tag of the byte 1, and is replaced by the tag of the byte 2. The message
/// key gives, under "WhisperMessageKeys" and a salt of 32 zeros, the AES key,
/// the MAC key and the vector. The frame is 0x33, the `WhisperMessage` and the
/// first eight bytes of the tag of sender's identity, receiver's identity,
/// 0x33 and the whole `WhisperMessage`. While nothing has been received, a
/// `PreKeyWhisperMessage` behind 0x33 goes around it.
#[verifier::rlimit(40)]
pub proof fn law_message_sent(
    result: Result<EncryptResult, String>,
    record: RecordView,
    plaintext: Seq<u8>,
    from: Seq<u8>,
    to: Seq<u8>,
    registration_id: u32,
)
    requires
        encrypts(result, record, plaintext, from, to, registration_id),
        counter_left(record),
        result is Ok,
    ensures
        ({
            let r = result->Ok_0;
            let at = current_session(record)->Some_0;
            let entry = record.sessions[at];
            let c = sending_chain(entry)->Some_0;
            let chain = entry.chains[c];
            let after = r.session@.sessions[at].chains[c];
            let chain_key = base64_bytes(chain.chainKey.key)->Ok_0;
            let message_key = hmac_tag(chain_key, seq![0x01u8]);
            let label = encode_utf8("WhisperMessageKeys"@);
            let extracted = hmac_tag(Seq::new(32, |i: int| 0u8), message_key);
            let aes_key = hmac_tag(extracted, label + seq![1u8]);
            let mac_key = hmac_tag(extracted, aes_key + label + seq![2u8]);
            let vector = hmac_tag(extracted, mac_key + label + seq![3u8]).take(16);
            let ephemeral = base64_bytes(entry.currentRatchet.ephemeralKeyPair.pubKey)->Ok_0;
            let sealed = chained(aes_key, vector, padded(plaintext));
            let number = (chain.chainKey.counter + 1) % 0x1_0000_0000;
            let m = WhisperView {
                ephemeral_key: if ephemeral.len() == 32 {
                    seq![0x05u8] + ephemeral
                } else {
                    ephemeral
                },
                counter: number as u32,
                previous_counter: entry.currentRatchet.previousCounter,
                ciphertext: sealed,
            };
            let body = whisper_bytes(m);
            let code = hmac_tag(mac_key, from + to + seq![0x33u8] + body).take(8);
            let frame = seq![0x33u8] + body + code;
            &&& base64_bytes(chain.chainKey.key) is Ok
            &&& base64_bytes(entry.currentRatchet.ephemeralKeyPair.pubKey) is Ok
            &&& after.chainKey.counter == chain.chainKey.counter + 1
            &&& base64_bytes(after.chainKey.key) == Ok::<Seq<u8>, Seq<char>>(
                hmac_tag(chain_key, seq![0x02u8]),
            )
            &&& after.chainType == 1
            &&& after.messageKeys =~= chain.messageKeys.remove(after.chainKey.counter)
            &&& cbc_decrypted(aes_key, vector, sealed) == Ok::<Seq<u8>, Seq<char>>(plaintext)
            &&& code.len() == 8
            &&& whisper_decoded(body) == Ok::<WhisperView, Seq<char>>(m)
            &&& match entry.pendingPreKey {
                None => r.message_type == 1 && r.ciphertext@ == frame,
                Some(pending) => {
                    let base = base64_bytes(pending.baseKey)->Ok_0;
                    let around = PreKeyWhisperView {
                        pre_key_id: pending.preKeyId,
                        base_key: if base.len() == 32 {
                            seq![0x05u8] + base
                        } else {
                            base
                        },
                        identity_key: from,
                        message: frame,
                        registration_id,
                        signed_pre_key_id: pending.signedKeyId,
                    };
                    &&& base64_bytes(pending.baseKey) is Ok
                    &&& r.message_type == 3
                    &&& r.ciphertext@ == seq![0x33u8] + pkmsg_bytes(around)
                    &&& pkmsg_decoded(pkmsg_bytes(around)) == Ok::<PreKeyWhisperView, Seq<char>>(
                        around,
                    )
                },
            }
        }),
{
    let at = current_session(record)->Some_0;
    let entry = record.sessions[at];
    let c = sending_chain(entry)->Some_0;
    let chain = entry.chains[c];
    lemma_first_holds(entry.chains, |x: ChainView| x.chainType == 1);
    let chain_key = base64_bytes(chain.chainKey.key)->Ok_0;
    law_chain_steps(
        chain,
        (chain.chainKey.counter + 1) as i64,
        seq![chain_key, hmac_tag(chain_key, seq![0x02u8])],
    );
    law_three_chunks(
        hmac_tag(chain_key, seq![0x01u8]),
        Seq::new(32, |i: int| 0u8),
        encode_utf8("WhisperMessageKeys"@),
    );
    let ephemeral = base64_bytes(entry.currentRatchet.ephemeralKeyPair.pubKey)->Ok_0;
    let counter = (chain.chainKey.counter + 1) as i64;
    let key = key_taken(chain, counter)->Ok_0.1;
    let m = message_of(entry, ephemeral, counter, key, plaintext);
    law_whisper_round_trip(m);
    if let Some(pending) = entry.pendingPreKey {
        law_pkmsg_round_trip(
            PreKeyWhisperView {
                pre_key_id: pending.preKeyId,
                base_key: prefixed(base64_bytes(pending.baseKey)->Ok_0),
                identity_key: from,
                message: framed(key, from, to, m),
                registration_id,
                signed_pre_key_id: pending.signedKeyId,
            },
        );
    }
}

/// When a message is sent, and what is said where it is not. The first session
/// and the first sending chain in the order of their names are used; there must
/// be both, and the ephemeral key, the chain key and, where one is pending, the
/// base key must decode.
#[verifier::rlimit(40)]
pub proof fn law_sending_conditions(
    result: Result<EncryptResult, String>,
    record: RecordView,
    plaintext: Seq<u8>,
    from: Seq<u8>,
    to: Seq<u8>,
    registration_id: u32,
)
    requires
        encrypts(result, record, plaintext, from, to, registration_id),
        record.sessions.dom().finite(),
    ensures
        match current_session(record) {
            None => (forall|k: Seq<char>| !#[trigger] record.sessions.contains_key(k)) && (
            result matches Err(e) && e@ == "no session entry"@),
            Some(at) => {
                let entry = record.sessions[at];
                &&& record.sessions.contains_key(at)
                &&& forall|k: Seq<char>| #[trigger]
                    record.sessions.contains_key(k) ==> k == at || before(at, k)
                &&& match base64_bytes(entry.currentRatchet.ephemeralKeyPair.pubKey) {
                    Err(m) => result matches Err(e) && e@ == m,
                    Ok(_) => entry.chains.dom().finite() ==> match sending_chain(entry) {
                        None => (forall|k: Seq<char>| #[trigger]
                            entry.chains.contains_key(k) ==> entry.chains[k].chainType != 1) && (
                        result matches Err(e) && e@ == "no sending chain"@),
                        Some(c) => {
                            &&& entry.chains.contains_key(c)
                            &&& entry.chains[c].chainType == 1
                            &&& forall|k: Seq<char>| #[trigger]
                                entry.chains.contains_key(k) && entry.chains[k].chainType == 1
                                    ==> k == c || before(c, k)
                            &&& entry.chains[c].chainKey.counter < i64::MAX ==> match (
                                base64_bytes(entry.chains[c].chainKey.key),
                                entry.pendingPreKey,
                            ) {
                                (Err(m), _) => result matches Err(e) && e@ == m,
                                (Ok(_), None) => result is Ok,
                                (Ok(_), Some(pending)) => match base64_bytes(pending.baseKey) {
                                    Err(m) => result matches Err(e) && e@ == m,
                                    Ok(_) => result is Ok,
                                },
                            }
                        },
                    },
                }
            },
        },
{
    law_first_key(record.sessions, |e: EntryView| true);
    if let Some(at) = current_session(record) {
        let chains = record.sessions[at].chains;
        if chains.dom().finite() {
            law_first_key(chains, |x: ChainView| x.chainType == 1);
        }
    }
}

/// A counter is left unless the first sending chain of the first session has
/// used the largest one there is; where no such chain is reached, nothing is
/// used up.
pub proof fn law_counters_run_out(record: RecordView)
    ensures
        !counter_left(record) <==> {
            let entry = record.sessions[current_session(record)->Some_0];
            let chain = entry.chains[sending_chain(entry)->Some_0];
            &&& current_session(record) is Some
            &&& base64_bytes(entry.currentRatchet.ephemeralKeyPair.pubKey) is Ok
            &&& sending_chain(entry) is Some
            &&& chain.chainKey.counter == i64::MAX
        },
{
}

// ---------------------------------------------------------------- receiving

/// A message is taken only under the code that is due. The last eight bytes of
/// the frame are the first eight of the tag of the other party's identity, our
/// identity, 0x33 and all bytes of the frame between the first one and the
/// code; and the plaintext is what AES makes of the ciphertext. The keys are
/// those of the message key that the chain for the message's ephemeral key
/// gives for its counter.
#[verifier::rlimit(40)]
pub proof fn law_message_received(
    result: Result<DecryptResult, String>,
    record: RecordView,
    data: Seq<u8>,
    our_identity: Seq<u8>,
    seed: Seq<u8>,
)
    requires
        decrypts(result, record, data, our_identity, seed),
        result is Ok,
    ensures
        ({
            let at = current_session(record)->Some_0;
            let entry = record.sessions[at];
            let body = data.subrange(1, data.len() - 8);
            let m = whisper_decoded(body)->Ok_0;
            let name = base64_text(
                if m.ephemeral_key.len() == 33 && m.ephemeral_key[0] == 0x05 {
                    m.ephemeral_key.subrange(1, 33)
                } else {
                    m.ephemeral_key
                },
            );
            let ready = stepped(entry, name, m.previous_counter, seed)->Ok_0;
            let chain = ready.chains[name];
            let message_key = key_taken(chain, m.counter as i64)->Ok_0.1;
            let label = encode_utf8("WhisperMessageKeys"@);
            let extracted = hmac_tag(Seq::new(32, |i: int| 0u8), message_key);
            let aes_key = hmac_tag(extracted, label + seq![1u8]);
            let mac_key = hmac_tag(extracted, aes_key + label + seq![2u8]);
            let vector = hmac_tag(extracted, mac_key + label + seq![3u8]).take(16);
            let remote_identity = base64_bytes(entry.indexInfo.remoteIdentityKey)->Ok_0;
            let after = result->Ok_0.session@.sessions[at];
            &&& data.len() >= 9
            &&& data[0] == 0x33
            &&& whisper_decoded(body) is Ok
            &&& name == name_of(data)
            &&& record.sessions.contains_key(at)
            &&& entry.chains.contains_key(name) ==> ready == entry
            &&& ready.chains.contains_key(name)
            &&& chain.chainType == 0
            &&& key_taken(chain, m.counter as i64) is Ok
            &&& base64_bytes(entry.indexInfo.remoteIdentityKey) is Ok
            &&& data.subrange(data.len() - 8, data.len() as int) == hmac_tag(
                mac_key,
                remote_identity + our_identity + seq![0x33u8] + body,
            ).take(8)
            &&& cbc_decrypted(aes_key, vector, m.ciphertext) == Ok::<Seq<u8>, Seq<char>>(
                result->Ok_0.plaintext@,
            )
            &&& after.pendingPreKey is None
            &&& after.chains == ready.chains.insert(
                name,
                key_taken(chain, m.counter as i64)->Ok_0.0,
            )
            &&& after.currentRatchet == ready.currentRatchet
        }),
{
    let at = current_session(record)->Some_0;
    let entry = record.sessions[at];
    let body = data.subrange(1, data.len() - 8);
    let m = whisper_decoded(body)->Ok_0;
    let key = m.ephemeral_key;
    if key.len() == 33 && key[0] == 0x05 {
        assert(key.subrange(1, 33) =~= key.skip(1));
    }
    let name = base64_text(
        if key.len() == 33 && key[0] == 0x05 {
            key.subrange(1, 33)
        } else {
            key
        },
    );
    let ready = stepped(entry, name, m.previous_counter, seed)->Ok_0;
    lemma_first_holds(record.sessions, |e: EntryView| true);
    law_three_chunks(
        key_taken(ready.chains[name], m.counter as i64)->Ok_0.1,
        Seq::new(32, |i: int| 0u8),
        encode_utf8("WhisperMessageKeys"@),
    );
    assert(data.subrange(data.len() - 8, data.len() as int) =~= data.skip(data.len() - 8));
}

/// What was altered on the way is refused, unless its code is the one that is
/// due for its own bytes. `altered` carries the ephemeral key and the counters
/// of `data`, which the record takes, so that the same key makes both codes:
/// two messages with one code are both taken only where the tags of their
/// bytes agree.
#[verifier::rlimit(40)]
pub proof fn law_altered_message_refused(
    result: Result<DecryptResult, String>,
    other: Result<DecryptResult, String>,
    record: RecordView,
    data: Seq<u8>,
    altered: Seq<u8>,
    our_identity: Seq<u8>,
    seed: Seq<u8>,
)
    requires
        decrypts(result, record, data, our_identity, seed),
        result is Ok,
        decrypts(other, record, altered, our_identity, seed),
        altered.len() >= 9,
        altered[0] == 0x33,
        whisper_decoded(altered.subrange(1, altered.len() - 8)) matches Ok(n) && {
            let m = whisper_decoded(data.subrange(1, data.len() - 8))->Ok_0;
            &&& n.ephemeral_key == m.ephemeral_key
            &&& n.counter == m.counter
            &&& n.previous_counter == m.previous_counter
        },
    ensures
        ({
            let at = current_session(record)->Some_0;
            let entry = record.sessions[at];
            let body = data.subrange(1, data.len() - 8);
            let other_body = altered.subrange(1, altered.len() - 8);
            let m = whisper_decoded(body)->Ok_0;
            let name = base64_text(
                if m.ephemeral_key.len() == 33 && m.ephemeral_key[0] == 0x05 {
                    m.ephemeral_key.subrange(1, 33)
                } else {
                    m.ephemeral_key
                },
            );
            let ready = stepped(entry, name, m.previous_counter, seed)->Ok_0;
            let message_key = key_taken(ready.chains[name], m.counter as i64)->Ok_0.1;
            let label = encode_utf8("WhisperMessageKeys"@);
            let extracted = hmac_tag(Seq::new(32, |i: int| 0u8), message_key);
            let aes_key = hmac_tag(extracted, label + seq![1u8]);
            let mac_key = hmac_tag(extracted, aes_key + label + seq![2u8]);
            let ids = base64_bytes(entry.indexInfo.remoteIdentityKey)->Ok_0 + our_identity;
            let code = data.subrange(data.len() - 8, data.len() as int);
            let other_code = altered.subrange(altered.len() - 8, altered.len() as int);
            let due = hmac_tag(mac_key, ids + seq![0x33u8] + other_body).take(8);
            &&& code == hmac_tag(mac_key, ids + seq![0x33u8] + body).take(8)
            &&& other_code != due ==> (other matches Err(e) && e@ == "MAC verification failed"@)
            &&& other is Ok ==> other_code == due
            &&& other is Ok && other_code == code ==> hmac_tag(
                mac_key,
                ids + seq![0x33u8] + body,
            ).take(8) == due
        }),
{
    law_message_received(result, record, data, our_identity, seed);
    let key = whisper_decoded(data.subrange(1, data.len() - 8))->Ok_0.ephemeral_key;
    if key.len() == 33 && key[0] == 0x05 {
        assert(key.subrange(1, 33) =~= key.skip(1));
    }
    let at = current_session(record)->Some_0;
    let entry = record.sessions[at];
    let m = whisper_decoded(data.subrange(1, data.len() - 8))->Ok_0;
    let name = base64_text(
        if key.len() == 33 && key[0] == 0x05 {
            key.subrange(1, 33)
        } else {
            key
        },
    );
    let ready = stepped(entry, name, m.previous_counter, seed)->Ok_0;
    law_three_chunks(
        key_taken(ready.chains[name], m.counter as i64)->Ok_0.1,
        Seq::new(32, |i: int| 0u8),
        encode_utf8("WhisperMessageKeys"@),
    );
    assert(altered.subrange(altered.len() - 8, altered.len() as int) =~= altered.skip(
        altered.len() - 8,
    ));
}

/// A `PreKeyWhisperMessage` is taken by a record with an open session only, and
/// then as the message inside it is: under the code that is due for that
/// message.
pub proof fn law_prekey_message_received(
    result: Result<DecryptResult, String>,
    record: RecordView,
    data: Seq<u8>,
    our_identity: Seq<u8>,
    seed: Seq<u8>,
)
    requires
        decrypts_pkmsg(result, record, data, our_identity, seed),
    ensures
        ({
            let inner = pkmsg_decoded(data.subrange(1, data.len() as int));
            let open = exists|k: Seq<char>| #[trigger]
                record.sessions.contains_key(k) && record.sessions[k].indexInfo.closed == -1;
            if data.len() == 0 || data[0] != 0x33 {
                result matches Err(e) && e@ == "bad version byte"@
            } else {
                match inner {
                    Err(m) => result matches Err(e) && e@ == m,
                    Ok(m) => if !open {
                        result matches Err(e) && e@
                            == "no open session — X3DH recipient init deferred to JS wrapper"@
                    } else {
                        decrypts(result, record, m.message, our_identity, seed)
                    },
                }
            }
        }),
{
    if data.len() > 0 {
        assert(data.subrange(1, data.len() as int) =~= data.skip(1));
    }
}

/// What receiving refuses before it comes to a key: a frame that is too short
/// or of another version, bytes that are no `WhisperMessage`, and a record
/// without sessions.
pub proof fn law_frames_refused(
    result: Result<DecryptResult, String>,
    record: RecordView,
    data: Seq<u8>,
    our_identity: Seq<u8>,
    seed: Seq<u8>,
)
    requires
        decrypts(result, record, data, our_identity, seed),
    ensures
        data.len() < 9 || data[0] != 0x33 ==> (result matches Err(e) && e@
            == "bad version byte or truncated message"@),
        data.len() >= 9 && data[0] == 0x33 ==> {
            match whisper_decoded(data.subrange(1, data.len() - 8)) {
                Err(m) => result matches Err(e) && e@ == m,
                Ok(_) => (forall|k: Seq<char>| !#[trigger] record.sessions.contains_key(k)) ==> (
                result matches Err(e) && e@ == "no session entry"@),
            }
        },
{
    if current_session(record) is Some {
        lemma_first_holds(record.sessions, |e: EntryView| true);
    }
}

/// When a message is taken, and what is said where it is not. `data` is framed,
/// and there is a session. The ratchet must turn where it has to; there must be
/// a receiving chain for the ephemeral key, which must have the key for the
/// counter; the other party's identity must decode; the code must be the one
/// that is due; and the ciphertext must decrypt.
#[verifier::rlimit(40)]
pub proof fn law_receiving_conditions(
    result: Result<DecryptResult, String>,
    record: RecordView,
    data: Seq<u8>,
    our_identity: Seq<u8>,
    seed: Seq<u8>,
)
    requires
        decrypts(result, record, data, our_identity, seed),
        data.len() >= 9,
        data[0] == 0x33,
        whisper_decoded(data.subrange(1, data.len() - 8)) is Ok,
        current_session(record) is Some,
    ensures
        ({
            let entry = record.sessions[current_session(record)->Some_0];
            let body = data.subrange(1, data.len() - 8);
            let code = data.subrange(data.len() - 8, data.len() as int);
            let m = whisper_decoded(body)->Ok_0;
            let name = name_of(data);
            match stepped(entry, name, m.previous_counter, seed) {
                Err(m) => result matches Err(e) && e@ == m,
                Ok(ready) => if !ready.chains.contains_key(name) || ready.chains[name].chainType
                    != 0 {
                    result matches Err(e) && e@ == "no receiving chain"@
                } else {
                    match (
                        key_taken(ready.chains[name], m.counter as i64),
                        base64_bytes(entry.indexInfo.remoteIdentityKey),
                    ) {
                        (Err(m), _) => result matches Err(e) && e@ == m,
                        (Ok(_), Err(m)) => result matches Err(e) && e@ == m,
                        (Ok((_, message_key)), Ok(remote_identity)) => {
                            let label = encode_utf8("WhisperMessageKeys"@);
                            let extracted = hmac_tag(Seq::new(32, |i: int| 0u8), message_key);
                            let aes_key = hmac_tag(extracted, label + seq![1u8]);
                            let mac_key = hmac_tag(extracted, aes_key + label + seq![2u8]);
                            let third = hmac_tag(extracted, mac_key + label + seq![3u8]);
                            let due = hmac_tag(
                                mac_key,
                                remote_identity + our_identity + seq![0x33u8] + body,
                            ).take(8);
                            if code != due {
                                result matches Err(e) && e@ == "MAC verification failed"@
                            } else {
                                match cbc_decrypted(aes_key, third.take(16), m.ciphertext) {
                                    Err(m) => result matches Err(e) && e@ == m,
                                    Ok(text) => result matches Ok(r) && r.plaintext@ == text,
                                }
                            }
                        },
                    }
                },
            }
        }),
{
    let entry = record.sessions[current_session(record)->Some_0];
    let m = whisper_decoded(data.subrange(1, data.len() - 8))->Ok_0;
    let ready = stepped(entry, name_of(data), m.previous_counter, seed)->Ok_0;
    law_three_chunks(
        key_taken(ready.chains[name_of(data)], m.counter as i64)->Ok_0.1,
        Seq::new(32, |i: int| 0u8),
        encode_utf8("WhisperMessageKeys"@),
    );
    assert(data.subrange(data.len() - 8, data.len() as int) =~= data.skip(data.len() - 8));
}

// ---------------------------------------------------------------- turning

/// The keys of a turn. A message under a new ephemeral key turns the ratchet
/// twice: what our secret key and the new key agree on turns the root key and
/// gives the receiving chain, what the new secret key and the new key agree on
/// turns it again and gives the sending chain. Each time the old root key is
/// the salt, the agreement the input, the label "WhisperRatchet", the first
/// chunk the new root key and the second the chain key.
#[verifier::rlimit(40)]
pub proof fn law_turn_keys(
    result: Result<DecryptResult, String>,
    record: RecordView,
    data: Seq<u8>,
    our_identity: Seq<u8>,
    seed: Seq<u8>,
)
    requires
        decrypts(result, record, data, our_identity, seed),
        result is Ok,
        !record.sessions[current_session(record)->Some_0].chains.contains_key(
            name_of(data),
        ),
    ensures
        ({
            let at = current_session(record)->Some_0;
            let entry = record.sessions[at];
            let after = result->Ok_0.session@.sessions[at];
            let m = whisper_decoded(data.subrange(1, data.len() - 8))->Ok_0;
            let name = name_of(data);
            let remote = base64_bytes(name)->Ok_0;
            let own = base64_bytes(entry.currentRatchet.ephemeralKeyPair.privKey)->Ok_0;
            let root = base64_bytes(entry.currentRatchet.rootKey)->Ok_0;
            let label = encode_utf8("WhisperRatchet"@);
            let first = hmac_tag(root, x25519(own, remote));
            let middle_root = hmac_tag(first, label + seq![1u8]);
            let receiving = hmac_tag(first, middle_root + label + seq![2u8]);
            let second = hmac_tag(middle_root, x25519(seed, remote));
            let new_root = hmac_tag(second, label + seq![1u8]);
            let sending = hmac_tag(second, new_root + label + seq![2u8]);
            let new_name = base64_text(x25519_base(seed));
            let fresh = ChainView {
                chainKey: ChainKeyView { counter: -1i64, key: base64_text(receiving) },
                chainType: 0,
                messageKeys: Map::empty(),
            };
            &&& base64_bytes(entry.currentRatchet.ephemeralKeyPair.privKey) is Ok
            &&& base64_bytes(entry.currentRatchet.rootKey) is Ok
            &&& own.len() == 32
            &&& remote.len() == 32
            &&& base64_bytes(after.currentRatchet.rootKey) == Ok::<Seq<u8>, Seq<char>>(new_root)
            &&& base64_bytes(after.currentRatchet.ephemeralKeyPair.privKey) == Ok::<
                Seq<u8>,
                Seq<char>,
            >(seed)
            &&& after.currentRatchet.ephemeralKeyPair.pubKey == new_name
            &&& after.currentRatchet.lastRemoteEphemeralKey == name
            &&& new_name != name
            &&& after.chains.contains_key(new_name)
            &&& after.chains[new_name].chainType == 1
            &&& after.chains[new_name].chainKey.counter == -1
            &&& base64_bytes(after.chains[new_name].chainKey.key) == Ok::<Seq<u8>, Seq<char>>(
                sending,
            )
            &&& after.chains[new_name].messageKeys == Map::<i64, Seq<char>>::empty()
            &&& base64_bytes(fresh.chainKey.key) == Ok::<Seq<u8>, Seq<char>>(receiving)
            &&& key_taken(fresh, m.counter as i64) is Ok
            &&& after.chains[name] == key_taken(fresh, m.counter as i64)->Ok_0.0
        }),
{
    law_message_received(result, record, data, our_identity, seed);
    let at = current_session(record)->Some_0;
    let entry = record.sessions[at];
    let m = whisper_decoded(data.subrange(1, data.len() - 8))->Ok_0;
    let key = m.ephemeral_key;
    if key.len() == 33 && key[0] == 0x05 {
        assert(key.subrange(1, 33) =~= key.skip(1));
    }
    let remote = base64_bytes(name_of(data))->Ok_0;
    let own = base64_bytes(entry.currentRatchet.ephemeralKeyPair.privKey)->Ok_0;
    let root = base64_bytes(entry.currentRatchet.rootKey)->Ok_0;
    let label = encode_utf8("WhisperRatchet"@);
    law_three_chunks(x25519(own, remote), root, label);
    let middle_root = hmac_tag(hmac_tag(root, x25519(own, remote)), label + seq![1u8]);
    law_three_chunks(x25519(seed, remote), middle_root, label);
}

/// The name of the chain for the ephemeral key that the frame `data` carries.
pub open spec fn name_of(data: Seq<u8>) -> Seq<char> {
    let key = whisper_decoded(data.subrange(1, data.len() - 8))->Ok_0.ephemeral_key;
    base64_text(stripped(key))
}

/// When the ratchet can turn to the chain `name`, and what is said where it
/// cannot: the name must decode, the receiving chain in use must reach the
/// last counter that was used on it, our secret key must decode, both keys must
/// have 32 bytes, and the root key must decode.
pub proof fn law_turn_conditions(
    entry: EntryView,
    name: Seq<char>,
    previous_counter: u32,
    seed: Seq<u8>,
)
    ensures
        ({
            let result = stepped(entry, name, previous_counter, seed);
            let last = entry.currentRatchet.lastRemoteEphemeralKey;
            let closing = if last.len() > 0 && entry.chains.contains_key(last)
                && entry.chains[last].chainType == 0 {
                filled(entry.chains[last], previous_counter as i64)
            } else {
                Ok(entry.chains[last])
            };
            let own = base64_bytes(entry.currentRatchet.ephemeralKeyPair.privKey);
            let root = base64_bytes(entry.currentRatchet.rootKey);
            if entry.chains.contains_key(name) {
                result == Ok::<EntryView, Seq<char>>(entry)
            } else {
                match (base64_bytes(name), closing, own) {
                    (Err(e), _, _) => result == Err::<EntryView, Seq<char>>(e),
                    (Ok(_), Err(e), _) => result == Err::<EntryView, Seq<char>>(e),
                    (Ok(_), Ok(_), Err(e)) => result == Err::<EntryView, Seq<char>>(e),
                    (Ok(remote), Ok(_), Ok(own)) => if own.len() != 32 {
                        result == Err::<EntryView, Seq<char>>(
                            wrong_length("secret key"@, own.len(), 32),
                        )
                    } else if remote.len() != 32 {
                        result == Err::<EntryView, Seq<char>>(
                            wrong_length("public key"@, remote.len(), 32),
                        )
                    } else {
                        match root {
                            Err(e) => result == Err::<EntryView, Seq<char>>(e),
                            Ok(_) => result is Ok,
                        }
                    },
                }
            }
        }),
{
}

/// A turn drops the sending chain of the old key pair and keeps the last
/// counter that was used on it, whatever was kept before; none where nothing
/// was sent. It closes the receiving chain in use: keys up to the last counter
/// that the message says was used on it are kept, and the chain key is
/// dropped.
#[verifier::rlimit(40)]
pub proof fn law_turn_keeps_the_last_counters(
    result: Result<DecryptResult, String>,
    record: RecordView,
    data: Seq<u8>,
    our_identity: Seq<u8>,
    seed: Seq<u8>,
)
    requires
        decrypts(result, record, data, our_identity, seed),
        result is Ok,
        !record.sessions[current_session(record)->Some_0].chains.contains_key(
            name_of(data),
        ),
    ensures
        ({
            let at = current_session(record)->Some_0;
            let entry = record.sessions[at];
            let after = result->Ok_0.session@.sessions[at];
            let m = whisper_decoded(data.subrange(1, data.len() - 8))->Ok_0;
            let old_name = entry.currentRatchet.ephemeralKeyPair.pubKey;
            let old_chain = entry.chains[old_name];
            let new_name = base64_text(x25519_base(seed));
            let last = entry.currentRatchet.lastRemoteEphemeralKey;
            let used = entry.chains[last];
            &&& if entry.chains.contains_key(old_name) && old_chain.chainType == 1 {
                after.currentRatchet.previousCounter == if old_chain.chainKey.counter >= 0 {
                    old_chain.chainKey.counter % 0x1_0000_0000
                } else {
                    0
                }
            } else {
                after.currentRatchet.previousCounter == entry.currentRatchet.previousCounter
            }
            &&& old_name != new_name ==> !after.chains.contains_key(old_name)
            &&& last.len() > 0 && entry.chains.contains_key(last) && used.chainType == 0 && last
                != old_name && last != new_name ==> {
                let kept = after.chains[last];
                let full = filled(used, m.previous_counter as i64)->Ok_0;
                &&& filled(used, m.previous_counter as i64) is Ok
                &&& after.chains.contains_key(last)
                &&& kept.chainType == 0
                &&& kept.chainKey.key == Seq::<char>::empty()
                &&& kept.chainKey.counter == if used.chainKey.counter >= m.previous_counter {
                    used.chainKey.counter as int
                } else {
                    m.previous_counter as int
                }
                &&& kept.messageKeys == full.messageKeys
            }
        }),
{
    law_message_received(result, record, data, our_identity, seed);
    law_turn_keys(result, record, data, our_identity, seed);
    let key = whisper_decoded(data.subrange(1, data.len() - 8))->Ok_0.ephemeral_key;
    if key.len() == 33 && key[0] == 0x05 {
        assert(key.subrange(1, 33) =~= key.skip(1));
    }
}

/// What is announced is what was used: after a turn the next message says
/// which counter was the last one on the old sending chain.
#[verifier::rlimit(40)]
pub proof fn law_next_message_announces(
    result: Result<DecryptResult, String>,
    record: RecordView,
    data: Seq<u8>,
    our_identity: Seq<u8>,
    seed: Seq<u8>,
    next: Result<EncryptResult, String>,
    plaintext: Seq<u8>,
    to: Seq<u8>,
    registration_id: u32,
)
    requires
        decrypts(result, record, data, our_identity, seed),
        result is Ok,
        encrypts(next, result->Ok_0.session@, plaintext, our_identity, to, registration_id),
        next is Ok,
        ({
            let entry = record.sessions[current_session(record)->Some_0];
            let old_name = entry.currentRatchet.ephemeralKeyPair.pubKey;
            &&& !entry.chains.contains_key(name_of(data))
            &&& entry.chains.contains_key(old_name)
            &&& entry.chains[old_name].chainType == 1
            &&& 0 <= entry.chains[old_name].chainKey.counter <= u32::MAX
        }),
    ensures
        next->Ok_0.message_type == 1,
        ({
            let entry = record.sessions[current_session(record)->Some_0];
            let counter =
                entry.chains[entry.currentRatchet.ephemeralKeyPair.pubKey].chainKey.counter;
            let sent = next->Ok_0.ciphertext@;
            whisper_decoded(sent.subrange(1, sent.len() - 8)) matches Ok(m) && m.previous_counter
                == counter
        }),
{
    let after = result->Ok_0.session@;
    law_turn_keeps_the_last_counters(result, record, data, our_identity, seed);
    law_message_received(result, record, data, our_identity, seed);
    let at = current_session(record)->Some_0;
    lemma_current_stays(record, after.sessions[at]);
    lemma_sent_previous_counter(next, after, plaintext, our_identity, to, registration_id);
}

/// A message that goes out by itself carries the last counter of the chain
/// before.
proof fn lemma_sent_previous_counter(
    result: Result<EncryptResult, String>,
    record: RecordView,
    plaintext: Seq<u8>,
    from: Seq<u8>,
    to: Seq<u8>,
    registration_id: u32,
)
    requires
        encrypts(result, record, plaintext, from, to, registration_id),
        result is Ok,
        record.sessions[current_session(record)->Some_0].pendingPreKey is None,
    ensures
        ({
            let sent = result->Ok_0.ciphertext@;
            let entry = record.sessions[current_session(record)->Some_0];
            &&& result->Ok_0.message_type == 1
            &&& whisper_decoded(sent.subrange(1, sent.len() - 8)) matches Ok(m)
                && m.previous_counter == entry.currentRatchet.previousCounter
        }),
{
    let entry = record.sessions[current_session(record)->Some_0];
    let ephemeral = base64_bytes(entry.currentRatchet.ephemeralKeyPair.pubKey)->Ok_0;
    let chain = entry.chains[sending_chain(entry)->Some_0];
    let counter = (chain.chainKey.counter + 1) as i64;
    let key = key_taken(chain, counter)->Ok_0.1;
    let m = message_of(entry, ephemeral, counter, key, plaintext);
    let sent = result->Ok_0.ciphertext@;
    assert(sent == framed(key, from, to, m));
    assert(sent.subrange(1, sent.len() - 8) =~= whisper_bytes(m));
    law_whisper_round_trip(m);
}

/// No message is lost to a turn. A sender turned its ratchet, having used
/// counters up to some last one on its old sending chain, and sent the first
/// message under its new key. A receiver that took that message, and had the
/// sender's old chain in use, still hears every message of the old chain up to
/// the last one that it could hear before. Left out is the coincidence that the
/// old chain stands under one of the receiver's own keys.
#[verifier::rlimit(40)]
pub proof fn law_turn_loses_no_message(
    result: Result<DecryptResult, String>,
    sender: RecordView,
    data: Seq<u8>,
    sender_identity: Seq<u8>,
    seed: Seq<u8>,
    next: Result<EncryptResult, String>,
    plaintext: Seq<u8>,
    registration_id: u32,
    taken: Result<DecryptResult, String>,
    receiver: RecordView,
    receiver_identity: Seq<u8>,
    receiver_seed: Seq<u8>,
    ephemeral: Seq<u8>,
    start: Seq<u8>,
    counter: u32,
    previous: u32,
    later_seed: Seq<u8>,
)
    requires
        decrypts(result, sender, data, sender_identity, seed),
        result is Ok,
        encrypts(
            next,
            result->Ok_0.session@,
            plaintext,
            sender_identity,
            receiver_identity,
            registration_id,
        ),
        next is Ok,
        decrypts(taken, receiver, next->Ok_0.ciphertext@, receiver_identity, receiver_seed),
        taken is Ok,
        ({
            let entry = sender.sessions[current_session(sender)->Some_0];
            let old_name = entry.currentRatchet.ephemeralKeyPair.pubKey;
            &&& !entry.chains.contains_key(name_of(data))
            &&& entry.chains.contains_key(old_name)
            &&& entry.chains[old_name].chainType == 1
            &&& counter <= entry.chains[old_name].chainKey.counter <= u32::MAX
        }),
        ({
            let entry = receiver.sessions[current_session(receiver)->Some_0];
            let last = entry.currentRatchet.lastRemoteEphemeralKey;
            &&& !entry.chains.contains_key(name_of(next->Ok_0.ciphertext@))
            &&& last == base64_text(ephemeral)
            &&& last.len() > 0
            &&& entry.chains.contains_key(last)
            &&& entry.chains[last].chainType == 0
            &&& offers(entry.chains[last], start, counter as i64)
            &&& last != entry.currentRatchet.ephemeralKeyPair.pubKey
            &&& last != base64_text(x25519_base(receiver_seed))
            &&& base64_bytes(entry.indexInfo.remoteIdentityKey) == Ok::<Seq<u8>, Seq<char>>(
                sender_identity,
            )
        }),
    ensures
        hears(
            taken->Ok_0.session@,
            sender_identity,
            ephemeral,
            previous,
            start,
            counter,
            later_seed,
        ),
{
    let sent = next->Ok_0.ciphertext@;
    law_next_message_announces(
        result,
        sender,
        data,
        sender_identity,
        seed,
        next,
        plaintext,
        receiver_identity,
        registration_id,
    );
    let key = whisper_decoded(sent.subrange(1, sent.len() - 8))->Ok_0.ephemeral_key;
    if key.len() == 33 && key[0] == 0x05 {
        assert(key.subrange(1, 33) =~= key.skip(1));
    }
    law_late_messages_heard(
        receiver,
        sent,
        receiver_identity,
        receiver_seed,
        sender_identity,
        ephemeral,
        start,
        counter,
        previous,
        later_seed,
    );
}

} // verus!
