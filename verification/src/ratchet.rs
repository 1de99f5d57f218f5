//! The double ratchet: messages under the keys of a session.
//!
//! A message is `0x33`, a `WhisperMessage` and the first eight bytes of an
//! HMAC over the identity keys of sender and receiver, `0x33` and the
//! `WhisperMessage`. Message key and label "WhisperMessageKeys" give the AES
//! key, the MAC key and the initialisation vector.
use crate::chain::{chain_key_after, key_taken, offers_the_rest, take_message_key};
use crate::cipher::{aes_cbc_decrypt, aes_cbc_encrypt, cbc_decrypted, chained, padded};
use crate::delivery::{
    delivers, keeps_hearing, lemma_keeps_hearing, lemma_sent_delivers, lemma_speaks_on, seals,
    speaks, turn_followed,
};
use crate::kdf::{derive_secrets_n, hmac_sha256, hmac_tag, secret};
use crate::map::{first_where, lemma_first_found, lemma_first_missing, lists, StringMap};
use crate::proto::{
    decode_pkmsg, decode_whisper, encode_pkmsg, encode_whisper, pkmsg_bytes, pkmsg_decoded,
    whisper_bytes, whisper_decoded, PreKeyWhisperMessage, PreKeyWhisperView, WhisperMessage,
    WhisperView,
};
use crate::session::{
    has_open_session, have_open_session, Chain, ChainView, EntryView, RecordView, SessionEntry,
    SessionRecord,
};
use crate::turn::{
    maybe_step_ratchet, seed_of, sent_counter, step_done, stepped, wrapped_counter,
};
use crate::util::{b64, base64_bytes, base64_text, decodes_to, unb64};
use crate::wire::two64;
use vstd::prelude::*;
use vstd::slice::slice_subrange;
use vstd::string::*;
use vstd::utf8::encode_utf8;

verus! {

// ---------------------------------------------------------------- messages

/// Key `i` of the ones that a message key gives: the AES key, the MAC key,
/// and, in its first sixteen bytes, the initialisation vector.
pub open spec fn derived_key(message_key: Seq<u8>, i: nat) -> Seq<u8> {
    secret(
        message_key,
        Seq::new(32, |j: int| 0u8),
        encode_utf8("WhisperMessageKeys"@),
        i,
    )
}

/// The code that authenticates the body of a message from the holder of one
/// identity key to the holder of another.
pub open spec fn mac(message_key: Seq<u8>, from: Seq<u8>, to: Seq<u8>, body: Seq<u8>) -> Seq<u8> {
    hmac_tag(derived_key(message_key, 1), from + to + seq![0x33u8] + body).take(8)
}

/// The AES-CBC encryption of a message.
pub open spec fn body_encrypted(message_key: Seq<u8>, plaintext: Seq<u8>) -> Seq<u8> {
    chained(
        derived_key(message_key, 0),
        derived_key(message_key, 2).take(16),
        padded(plaintext),
    )
}

/// A message on the wire: version, body, code.
pub open spec fn framed(message_key: Seq<u8>, from: Seq<u8>, to: Seq<u8>, m: WhisperView) -> Seq<
    u8,
> {
    let body = whisper_bytes(m);
    seq![0x33u8] + body + mac(message_key, from, to, body)
}

/// A key as it goes on the wire: 32 bytes get the prefix 0x05.
pub open spec fn prefixed(key: Seq<u8>) -> Seq<u8> {
    if key.len() == 32 {
        seq![0x05u8] + key
    } else {
        key
    }
}

/// The session that messages are sent and received with: the first one.
pub open spec fn current_session(record: RecordView) -> Option<Seq<char>> {
    first_where(record.sessions, |e: EntryView| true)
}

/// The chain that messages are sent with: the first sending chain.
pub open spec fn sending_chain(entry: EntryView) -> Option<Seq<char>> {
    first_where(entry.chains, |c: ChainView| c.chainType == 1)
}

/// The record with `entry` in place of a session.
pub open spec fn with_entry(record: RecordView, name: Seq<char>, entry: EntryView) -> RecordView {
    RecordView { sessions: record.sessions.insert(name, entry), ..record }
}

/// The session with `chain` in place of a chain.
pub open spec fn with_chain(entry: EntryView, name: Seq<char>, chain: ChainView) -> EntryView {
    EntryView { chains: entry.chains.insert(name, chain), ..entry }
}

/// What encryption gives.
pub struct Sent {
    pub session: RecordView,
    pub message_type: u8,
    pub ciphertext: Seq<u8>,
}

/// A message of `entry` under the message key for `counter`.
pub open spec fn message_of(
    entry: EntryView,
    ephemeral: Seq<u8>,
    counter: i64,
    message_key: Seq<u8>,
    plaintext: Seq<u8>,
) -> WhisperView {
    WhisperView {
        ephemeral_key: prefixed(ephemeral),
        counter: sent_counter(counter),
        previous_counter: entry.currentRatchet.previousCounter,
        ciphertext: body_encrypted(message_key, plaintext),
    }
}

/// What goes out for the framed message: the message itself, or, while the
/// other party has not answered, a `PreKeyWhisperMessage` around it.
pub open spec fn wrapped(
    entry: EntryView,
    message: Seq<u8>,
    our_identity: Seq<u8>,
    registration_id: u32,
) -> Result<(u8, Seq<u8>), Seq<char>> {
    match entry.pendingPreKey {
        None => Ok((1, message)),
        Some(pending) => match base64_bytes(pending.baseKey) {
            Err(e) => Err(e),
            Ok(base) => Ok(
                (
                    3,
                    seq![0x33u8] + pkmsg_bytes(
                        PreKeyWhisperView {
                            pre_key_id: pending.preKeyId,
                            base_key: prefixed(base),
                            identity_key: our_identity,
                            message,
                            registration_id,
                            signed_pre_key_id: pending.signedKeyId,
                        },
                    ),
                ),
            ),
        },
    }
}

/// What encrypting `plaintext` gives.
pub open spec fn encrypted(
    record: RecordView,
    plaintext: Seq<u8>,
    our_identity: Seq<u8>,
    remote_identity: Seq<u8>,
    registration_id: u32,
) -> Result<Sent, Seq<char>> {
    match current_session(record) {
        None => Err("no session entry"@),
        Some(name) => {
            let entry = record.sessions[name];
            match base64_bytes(entry.currentRatchet.ephemeralKeyPair.pubKey) {
                Err(e) => Err(e),
                Ok(ephemeral) => match sending_chain(entry) {
                    None => Err("no sending chain"@),
                    Some(at) => {
                        let counter = (entry.chains[at].chainKey.counter + 1) as i64;
                        match key_taken(entry.chains[at], counter) {
                            Err(e) => Err(e),
                            Ok((chain, key)) => {
                                let m = message_of(entry, ephemeral, counter, key, plaintext);
                                let message = framed(key, our_identity, remote_identity, m);
                                match wrapped(entry, message, our_identity, registration_id) {
                                    Err(e) => Err(e),
                                    Ok((message_type, ciphertext)) => Ok(
                                        Sent {
                                            session: with_entry(
                                                record,
                                                name,
                                                with_chain(entry, at, chain),
                                            ),
                                            message_type,
                                            ciphertext,
                                        },
                                    ),
                                }
                            },
                        }
                    },
                },
            }
        },
    }
}

/// The sending chain, where encryption comes to it, has a next counter. It
/// does not come to it where there is no session, where the ephemeral key does
/// not decode and where there is no sending chain.
pub open spec fn counter_left(record: RecordView) -> bool {
    match current_session(record) {
        None => true,
        Some(name) => {
            let entry = record.sessions[name];
            match base64_bytes(entry.currentRatchet.ephemeralKeyPair.pubKey) {
                Err(_) => true,
                Ok(_) => match sending_chain(entry) {
                    None => true,
                    Some(at) => entry.chains[at].chainKey.counter < i64::MAX,
                },
            }
        },
    }
}

#[derive(Debug, PartialEq)]
pub struct EncryptResult {
    pub session: SessionRecord,
    /// 1 for a `WhisperMessage`, 3 for a `PreKeyWhisperMessage`.
    pub message_type: u8,
    pub ciphertext: Vec<u8>,
}

#[derive(Debug, PartialEq)]
pub struct DecryptResult {
    pub session: SessionRecord,
    pub plaintext: Vec<u8>,
}

/// The place of the first sending chain, the number of chains when there is
/// none.
fn first_sending(chains: &StringMap<Chain>) -> (i: usize)
    ensures
        lists(chains.keys(), chains@),
        i <= chains.keys().len(),
        i < chains.keys().len() ==> {
            let k = chains.keys()[i as int];
            &&& chains@.contains_key(k)
            &&& chains@[k].chainType == 1
            &&& first_where(chains@, |c: ChainView| c.chainType == 1) == Some(k)
        },
        i == chains.keys().len() ==> first_where(chains@, |c: ChainView| c.chainType == 1) == None::<
            Seq<char>,
        >,
{
    let n: usize = chains.len();
    let mut i: usize = 0;
    let ghost p = |c: ChainView| c.chainType == 1;
    while i < n
        invariant
            i <= n,
            n == chains.keys().len(),
            lists(chains.keys(), chains@),
            p == (|c: ChainView| c.chainType == 1),
            forall|j: int| 0 <= j < i ==> !p(chains@[#[trigger] chains.keys()[j]]),
        decreases n - i,
    {
        if chains.value_at(i).chainType == 1 {
            proof {
                lemma_first_found(chains.keys(), chains@, p, i as int);
            }
            return i;
        }
        i += 1;
    }
    proof {
        lemma_first_missing(chains.keys(), chains@, p);
    }
    i
}

/// Whether there is a session; the first one is at place zero.
fn has_session(sessions: &StringMap<SessionEntry>) -> (r: bool)
    ensures
        lists(sessions.keys(), sessions@),
        r == (sessions.keys().len() > 0),
        r ==> first_where(sessions@, |e: EntryView| true) == Some(sessions.keys()[0]),
        !r ==> first_where(sessions@, |e: EntryView| true) == None::<Seq<char>>,
{
    let n: usize = sessions.len();
    proof {
        let p = |e: EntryView| true;
        if n > 0 {
            lemma_first_found(sessions.keys(), sessions@, p, 0);
        } else {
            lemma_first_missing(sessions.keys(), sessions@, p);
        }
    }
    n > 0
}

/// Whether encryption finds a next counter, as `encrypt` needs it.
pub fn counter_is_left(session: &SessionRecord) -> (r: bool)
    ensures
        r == counter_left(session@),
{
    if !has_session(&session.sessions) {
        return true;
    }
    let entry = session.sessions.value_at(0);
    if unb64(entry.currentRatchet.ephemeralKeyPair.pubKey.as_str()).is_err() {
        return true;
    }
    let chains = &entry.chains;
    let at: usize = first_sending(chains);
    at >= chains.len() || chains.value_at(at).chainKey.counter < i64::MAX
}

fn with_prefix(key: Vec<u8>) -> (out: Vec<u8>)
    ensures
        out@ == prefixed(key@),
{
    if key.len() == 32 {
        let mut out: Vec<u8> = vec![0x05];
        out.extend_from_slice(&key);
        assert(out@ =~= prefixed(key@));
        out
    } else {
        key
    }
}

/// The AES key, the MAC key and the initialisation vector.
fn derive_keys(message_key: &[u8]) -> (keys: (Vec<u8>, Vec<u8>, [u8; 16]))
    ensures
        keys.0@ == derived_key(message_key@, 0),
        keys.0@.len() == 32,
        keys.1@ == derived_key(message_key@, 1),
        keys.2@ == derived_key(message_key@, 2).take(16),
{
    let salt = [0u8; 32];
    assert(salt@ =~= Seq::new(32, |j: int| 0u8));
    let label = "WhisperMessageKeys";
    let mut keys = derive_secrets_n(message_key, &salt, label.as_bytes(), 3).unwrap();
    let ghost all = keys@;
    let third = keys.pop().unwrap();
    let second = keys.pop().unwrap();
    let first = keys.pop().unwrap();
    assert(third@ == all[2]@ && second@ == all[1]@ && first@ == all[0]@);
    let mut iv = [0u8; 16];
    let mut i: usize = 0;
    while i < 16
        invariant
            i <= 16,
            third@.len() == 32,
            forall|j: int| 0 <= j < i ==> iv@[j] == third@[j],
        decreases 16 - i,
    {
        iv[i] = third[i];
        i += 1;
    }
    assert(iv@ =~= third@.take(16));
    (first, second, iv)
}

/// The full code over a body, of which messages carry the first eight bytes.
fn authenticate(mac_key: &[u8], from: &[u8], to: &[u8], body: &[u8]) -> (tag: Vec<u8>)
    ensures
        tag@ == hmac_tag(mac_key@, from@ + to@ + seq![0x33u8] + body@),
        tag@.len() == 32,
{
    let mut input: Vec<u8> = Vec::new();
    input.extend_from_slice(from);
    input.extend_from_slice(to);
    input.push(0x33);
    input.extend_from_slice(body);
    assert(input@ =~= from@ + to@ + seq![0x33u8] + body@);
    hmac_sha256(mac_key, &input)
}

/// Encrypts and frames a message, leaving the wrapping to the caller.
fn seal(
    message_key: &[u8],
    ephemeral_key: Vec<u8>,
    counter: u32,
    previous_counter: u32,
    plaintext: &[u8],
    from: &[u8],
    to: &[u8],
) -> (out: Vec<u8>)
    ensures
        out@ == framed(
            message_key@,
            from@,
            to@,
            WhisperView {
                ephemeral_key: ephemeral_key@,
                counter,
                previous_counter,
                ciphertext: body_encrypted(message_key@, plaintext@),
            },
        ),
        seals(
            message_key@,
            from@,
            to@,
            WhisperView {
                ephemeral_key: ephemeral_key@,
                counter,
                previous_counter,
                ciphertext: body_encrypted(message_key@, plaintext@),
            },
            plaintext@,
        ),
{
    let (cipher_key, mac_key, iv) = derive_keys(message_key);
    let ciphertext = aes_cbc_encrypt(&cipher_key, &iv, plaintext).unwrap();
    assert(ciphertext.len() == ciphertext@.len());
    let message = WhisperMessage { ephemeral_key, counter, previous_counter, ciphertext };
    let body = encode_whisper(&message).unwrap();
    let tag = authenticate(&mac_key, from, to, &body);
    let mut out: Vec<u8> = vec![0x33];
    out.extend_from_slice(&body);
    out.extend_from_slice(slice_subrange(tag.as_slice(), 0, 8));
    assert(tag@.subrange(0, 8) =~= tag@.take(8));
    assert(out@ =~= seq![0x33u8] + body@ + tag@.take(8));
    out
}

/// The message that encryption frames is sealed with the key that was taken
/// for it, the text of the chain key behind it decodes, and no part of what
/// goes out is too long for the wire.
pub open spec fn sealed_and_moved(
    record: RecordView,
    plaintext: Seq<u8>,
    from: Seq<u8>,
    to: Seq<u8>,
    after: RecordView,
) -> bool {
    let at = current_session(record)->Some_0;
    let entry = record.sessions[at];
    let ephemeral = base64_bytes(entry.currentRatchet.ephemeralKeyPair.pubKey)->Ok_0;
    let c = sending_chain(entry)->Some_0;
    let chain = entry.chains[c];
    let counter = (chain.chainKey.counter + 1) as i64;
    let key = key_taken(chain, counter)->Ok_0.1;
    &&& seals(key, from, to, message_of(entry, ephemeral, counter, key, plaintext), plaintext)
    &&& decodes_to(
        after.sessions[at].chains[c].chainKey.key,
        chain_key_after(base64_bytes(chain.chainKey.key)->Ok_0, 1),
    )
    &&& prefixed(ephemeral).len() < two64()
    &&& from.len() < two64()
    &&& framed(
        key,
        from,
        to,
        message_of(entry, ephemeral, counter, key, plaintext),
    ).len() < two64()
    &&& entry.pendingPreKey matches Some(p) ==> prefixed(base64_bytes(p.baseKey)->Ok_0).len()
        < two64()
}

/// What encryption does. Besides the result: the message is sealed, it reaches
/// everyone who hears it, and the sender speaks on with the next one.
pub open spec fn encrypts(
    result: Result<EncryptResult, String>,
    record: RecordView,
    plaintext: Seq<u8>,
    our_identity: Seq<u8>,
    remote_identity: Seq<u8>,
    registration_id: u32,
) -> bool {
    &&& match (
        result,
        encrypted(record, plaintext, our_identity, remote_identity, registration_id),
    ) {
        (Ok(r), Ok(s)) => r.session@ == s.session && r.message_type == s.message_type
            && r.ciphertext@ == s.ciphertext,
        (Err(e), Err(m)) => e@ == m,
        _ => false,
    }
    &&& result matches Ok(r) ==> sealed_and_moved(
        record,
        plaintext,
        our_identity,
        remote_identity,
        r.session@,
    )
    &&& result matches Ok(r) ==> delivers(
        record,
        our_identity,
        remote_identity,
        plaintext,
        r.message_type,
        r.ciphertext@,
    )
    &&& result matches Ok(r) ==> forall|
        ephemeral: Seq<u8>,
        previous: u32,
        start: Seq<u8>,
        counter: int,
    | #[trigger]
        speaks(record, ephemeral, previous, start, counter) ==> speaks(
            r.session@,
            ephemeral,
            previous,
            start,
            counter + 1,
        )
}

/// Encrypts where a counter is left for the message; `None` where the sending
/// chain has used them up.
pub fn try_encrypt(
    session: &SessionRecord,
    plaintext: &[u8],
    our_identity_pub: &[u8],
    remote_identity_pub: &[u8],
    our_registration_id: u32,
) -> (result: Option<Result<EncryptResult, String>>)
    ensures
        match result {
            Some(r) => counter_left(session@) && encrypts(
                r,
                session@,
                plaintext@,
                our_identity_pub@,
                remote_identity_pub@,
                our_registration_id,
            ),
            None => !counter_left(session@),
        },
{
    if !counter_is_left(session) {
        return None;
    }
    Some(
        encrypt(
            session,
            plaintext,
            our_identity_pub,
            remote_identity_pub,
            our_registration_id,
        ),
    )
}

/// Encrypts for the other party and moves the sending chain one message on.
pub fn encrypt(
    session: &SessionRecord,
    plaintext: &[u8],
    our_identity_pub: &[u8],
    remote_identity_pub: &[u8],
    our_registration_id: u32,
) -> (result: Result<EncryptResult, String>)
    requires
        counter_left(session@),
    ensures
        encrypts(
            result,
            session@,
            plaintext@,
            our_identity_pub@,
            remote_identity_pub@,
            our_registration_id,
        ),
{
    if !has_session(&session.sessions) {
        return Err("no session entry".to_owned());
    }
    let entry = session.sessions.value_at(0);
    let eph_pub = unb64(entry.currentRatchet.ephemeralKeyPair.pubKey.as_str())?;
    let ephemeral_key = with_prefix(eph_pub);
    assert(ephemeral_key.len() == ephemeral_key@.len());
    let previous_counter: u32 = entry.currentRatchet.previousCounter;

    let at: usize = first_sending(&entry.chains);
    if at >= entry.chains.len() {
        return Err("no sending chain".to_owned());
    }
    let mut chain = entry.chains.value_at(at).clone();
    let target_counter: i64 = chain.chainKey.counter + 1;
    let message_key = take_message_key(&mut chain, target_counter)?;

    let message = seal(
        &message_key,
        ephemeral_key,
        wrapped_counter(target_counter),
        previous_counter,
        plaintext,
        our_identity_pub,
        remote_identity_pub,
    );

    let mut record = session.clone();
    let mut moved = entry.clone();
    moved.chains.insert(entry.chains.key_at(at).clone(), chain);
    record.sessions.insert(session.sessions.key_at(0).clone(), moved);
    assert(message.len() == message@.len());

    if let Some(pk) = &entry.pendingPreKey {
        let base = unb64(pk.baseKey.as_str())?;
        let mut identity_key: Vec<u8> = Vec::new();
        identity_key.extend_from_slice(our_identity_pub);
        assert(identity_key@ =~= our_identity_pub@);
        let base_key = with_prefix(base);
        assert(base_key.len() == base_key@.len());
        assert(identity_key.len() == identity_key@.len());
        let pkmsg = PreKeyWhisperMessage {
            pre_key_id: pk.preKeyId,
            base_key,
            identity_key,
            message,
            registration_id: our_registration_id,
            signed_pre_key_id: pk.signedKeyId,
        };
        let pk_bytes = encode_pkmsg(&pkmsg)?;
        let mut out: Vec<u8> = vec![0x33];
        out.extend_from_slice(&pk_bytes);
        assert(out@ =~= seq![0x33u8] + pk_bytes@);
        proof {
            lemma_sent_delivers(
                session@,
                plaintext@,
                our_identity_pub@,
                remote_identity_pub@,
                our_registration_id,
            );
            lemma_speaks_on(
                session@,
                plaintext@,
                our_identity_pub@,
                remote_identity_pub@,
                our_registration_id,
            );
        }
        return Ok(EncryptResult { session: record, message_type: 3, ciphertext: out });
    }
    proof {
        assert(our_identity_pub.len() == our_identity_pub@.len());
        lemma_sent_delivers(
            session@,
            plaintext@,
            our_identity_pub@,
            remote_identity_pub@,
            our_registration_id,
        );
        lemma_speaks_on(
            session@,
            plaintext@,
            our_identity_pub@,
            remote_identity_pub@,
            our_registration_id,
        );
    }
    Ok(EncryptResult { session: record, message_type: 1, ciphertext: message })
}

/// A wire key without its prefix.
pub open spec fn stripped(key: Seq<u8>) -> Seq<u8> {
    if key.len() == 33 && key[0] == 0x05 {
        key.skip(1)
    } else {
        key
    }
}

/// On the wire a key of 32 bytes stands behind the byte 5, and loses it again
/// when it is read; keys of other lengths are left as they are.
pub proof fn law_wire_keys(key: Seq<u8>)
    ensures
        prefixed(key) == if key.len() == 32 {
            seq![0x05u8] + key
        } else {
            key
        },
        stripped(key) == if key.len() == 33 && key[0] == 0x05 {
            key.subrange(1, 33)
        } else {
            key
        },
        key.len() == 32 ==> stripped(prefixed(key)) == key,
{
    if key.len() == 33 {
        assert(key.subrange(1, 33) =~= key.skip(1));
    }
    if key.len() == 32 {
        assert(stripped(prefixed(key)) =~= key);
    }
}

/// The body of a framed message: what is between the version and the code.
pub open spec fn frame_body(data: Seq<u8>) -> Seq<u8> {
    data.subrange(1, data.len() - 8)
}

/// The message inside a frame.
pub open spec fn unframed(data: Seq<u8>) -> Result<WhisperView, Seq<char>> {
    if data.len() < 9 || data[0] != 0x33 {
        Err("bad version byte or truncated message"@)
    } else {
        whisper_decoded(frame_body(data))
    }
}

/// What decryption gives.
pub struct Received {
    pub session: RecordView,
    pub plaintext: Seq<u8>,
}

/// What the message `m`, framed in `data`, decrypts to with the message key
/// `key`.
pub open spec fn opened(
    key: Seq<u8>,
    remote_identity: Seq<u8>,
    our_identity: Seq<u8>,
    data: Seq<u8>,
    m: WhisperView,
) -> Result<Seq<u8>, Seq<char>> {
    if mac(key, remote_identity, our_identity, frame_body(data)) != data.skip(data.len() - 8) {
        Err("MAC verification failed"@)
    } else {
        cbc_decrypted(derived_key(key, 0), derived_key(key, 2).take(16), m.ciphertext)
    }
}

/// What the message `m`, framed in `data`, does to a session that has a chain
/// for its ephemeral key under `name`.
pub open spec fn received_by(
    entry: EntryView,
    name: Seq<char>,
    data: Seq<u8>,
    m: WhisperView,
    our_identity: Seq<u8>,
) -> Result<(EntryView, Seq<u8>), Seq<char>> {
    if !entry.chains.contains_key(name) || entry.chains[name].chainType != 0 {
        Err("no receiving chain"@)
    } else {
        match key_taken(entry.chains[name], m.counter as i64) {
            Err(e) => Err(e),
            Ok((chain, key)) => match base64_bytes(entry.indexInfo.remoteIdentityKey) {
                Err(e) => Err(e),
                Ok(remote_identity) => match opened(key, remote_identity, our_identity, data, m) {
                    Err(e) => Err(e),
                    Ok(plaintext) => Ok(
                        (
                            EntryView { pendingPreKey: None, ..with_chain(entry, name, chain) },
                            plaintext,
                        ),
                    ),
                },
            },
        }
    }
}

/// What decrypting `data` gives when `seed` is the secret key that a turn of
/// the ratchet would bring.
pub open spec fn decrypted(
    record: RecordView,
    data: Seq<u8>,
    our_identity: Seq<u8>,
    seed: Seq<u8>,
) -> Result<Received, Seq<char>> {
    match unframed(data) {
        Err(e) => Err(e),
        Ok(m) => match current_session(record) {
            None => Err("no session entry"@),
            Some(at) => {
                let name = base64_text(stripped(m.ephemeral_key));
                match stepped(record.sessions[at], name, m.previous_counter, seed) {
                    Err(e) => Err(e),
                    Ok(entry) => match received_by(entry, name, data, m, our_identity) {
                        Err(e) => Err(e),
                        Ok((after, plaintext)) => Ok(
                            Received { session: with_entry(record, at, after), plaintext },
                        ),
                    },
                }
            },
        },
    }
}

/// The `PreKeyWhisperMessage` behind its version byte.
pub open spec fn pkmsg_unframed(data: Seq<u8>) -> Result<PreKeyWhisperView, Seq<char>> {
    if data.len() == 0 || data[0] != 0x33 {
        Err("bad version byte"@)
    } else {
        pkmsg_decoded(data.skip(1))
    }
}

/// What decrypting a framed `PreKeyWhisperMessage` gives.
pub open spec fn pkmsg_opened(
    record: RecordView,
    data: Seq<u8>,
    our_identity: Seq<u8>,
    seed: Seq<u8>,
) -> Result<Received, Seq<char>> {
    match pkmsg_unframed(data) {
        Err(e) => Err(e),
        Ok(m) => if !has_open_session(record) {
            Err("no open session — X3DH recipient init deferred to JS wrapper"@)
        } else {
            decrypted(record, m.message, our_identity, seed)
        },
    }
}

/// `result` is what `expected` says.
pub open spec fn gives(
    result: Result<DecryptResult, String>,
    expected: Result<Received, Seq<char>>,
) -> bool {
    match (result, expected) {
        (Ok(r), Ok(e)) => r.session@ == e.session && r.plaintext@ == e.plaintext,
        (Err(e), Err(m)) => e@ == m,
        _ => false,
    }
}

/// What decrypting `data` does when `seed` is the secret key that a turn of
/// the ratchet would bring. Besides the result: the receiver keeps hearing the
/// other messages of the sequence, and the other party can follow a turn.
pub open spec fn decrypts(
    result: Result<DecryptResult, String>,
    record: RecordView,
    data: Seq<u8>,
    our_identity: Seq<u8>,
    seed: Seq<u8>,
) -> bool {
    &&& gives(result, decrypted(record, data, our_identity, seed))
    &&& result matches Ok(r) ==> keeps_hearing(record, data, seed, r.session@) && turn_followed(
        record,
        data,
        seed,
    )
}

/// The same for a framed `PreKeyWhisperMessage`.
pub open spec fn decrypts_pkmsg(
    result: Result<DecryptResult, String>,
    record: RecordView,
    data: Seq<u8>,
    our_identity: Seq<u8>,
    seed: Seq<u8>,
) -> bool {
    &&& gives(result, pkmsg_opened(record, data, our_identity, seed))
    &&& result is Ok ==> decrypts(
        result,
        record,
        pkmsg_unframed(data)->Ok_0.message,
        our_identity,
        seed,
    )
}

fn same_bytes(a: &[u8], b: &[u8]) -> (r: bool)
    ensures
        r == (a@ == b@),
{
    if a.len() != b.len() {
        return false;
    }
    let mut i: usize = 0;
    while i < a.len()
        invariant
            a@.len() == b@.len(),
            i <= a@.len(),
            forall|j: int| 0 <= j < i ==> a@[j] == b@[j],
        decreases a@.len() - i,
    {
        if a[i] != b[i] {
            return false;
        }
        i += 1;
    }
    assert(a@ =~= b@);
    true
}

/// The message inside a frame.
pub fn parse_frame(data: &[u8]) -> (result: Result<WhisperMessage, String>)
    ensures
        match (result, unframed(data@)) {
            (Ok(m), Ok(w)) => m@ == w,
            (Err(e), Err(m)) => e@ == m,
            _ => false,
        },
        result is Ok ==> data@.len() >= 9,
{
    if data.len() < 9 || data[0] != 0x33 {
        return Err("bad version byte or truncated message".to_owned());
    }
    decode_whisper(slice_subrange(data, 1, data.len() - 8))
}

/// Decrypts the framed message `m` with a session that has a chain for it.
fn receive(
    entry: &mut SessionEntry,
    name: String,
    data: &[u8],
    m: &WhisperMessage,
    our_identity_pub: &[u8],
) -> (result: Result<Vec<u8>, String>)
    requires
        data@.len() >= 9,
    ensures
        match (result, received_by(old(entry)@, name@, data@, m@, our_identity_pub@)) {
            (Ok(p), Ok((e, q))) => p@ == q && final(entry)@ == e,
            (Err(e), Err(m)) => e@ == m && final(entry)@ == old(entry)@,
            _ => false,
        },
        result is Ok ==> offers_the_rest(
            old(entry)@.chains[name@],
            m.counter as i64,
            final(entry)@.chains[name@],
        ),
{
    let mut chain = match entry.chains.get(name.as_str()) {
        Some(c) => c.clone(),
        None => {
            return Err("no receiving chain".to_owned());
        },
    };
    if chain.chainType != 0 {
        return Err("no receiving chain".to_owned());
    }
    let message_key = take_message_key(&mut chain, m.counter as i64)?;
    let (cipher_key, mac_key, iv) = derive_keys(&message_key);
    let remote_identity = unb64(entry.indexInfo.remoteIdentityKey.as_str())?;
    let body = slice_subrange(data, 1, data.len() - 8);
    let tag = authenticate(&mac_key, &remote_identity, our_identity_pub, body);
    let expected = slice_subrange(tag.as_slice(), 0, 8);
    let carried = slice_subrange(data, data.len() - 8, data.len());
    assert(expected@ =~= tag@.take(8));
    assert(carried@ =~= data@.skip(data@.len() - 8));
    if !same_bytes(expected, carried) {
        return Err("MAC verification failed".to_owned());
    }
    let plaintext = aes_cbc_decrypt(&cipher_key, &iv, &m.ciphertext)?;
    entry.chains.insert(name, chain);
    entry.pendingPreKey = None;
    Ok(plaintext)
}

pub(crate) fn without_prefix(key: &[u8]) -> (out: &[u8])
    ensures
        out@ == stripped(key@),
{
    if key.len() == 33 && key[0] == 0x05 {
        let out = slice_subrange(key, 1, 33);
        assert(out@ =~= key@.skip(1));
        out
    } else {
        key
    }
}

/// Decrypts a message; a turn of the ratchet brings `seed`, or a random key.
fn decrypt(
    session: &SessionRecord,
    ciphertext: &[u8],
    our_identity_pub: &[u8],
    seed: Option<&[u8; 32]>,
) -> (result: Result<DecryptResult, String>)
    ensures
        exists|s: Seq<u8>| #[trigger]
            seed_of(seed, s) && decrypts(result, session@, ciphertext@, our_identity_pub@, s),
{
    let ghost any: Seq<u8> = match seed {
        Some(s) => s@,
        None => Seq::new(32, |i: int| 0u8),
    };
    assert(seed_of(seed, any));
    let msg = match parse_frame(ciphertext) {
        Ok(m) => m,
        Err(e) => {
            assert(decrypts(Err(e), session@, ciphertext@, our_identity_pub@, any));
            return Err(e);
        },
    };
    if !has_session(&session.sessions) {
        let result = Err("no session entry".to_owned());
        assert(decrypts(result, session@, ciphertext@, our_identity_pub@, any));
        return result;
    }
    let mut entry = session.sessions.value_at(0).clone();
    let ghost first = entry@;
    let chain_id = b64(without_prefix(&msg.ephemeral_key));
    let ghost name = chain_id@;
    let turn = maybe_step_ratchet(&mut entry, chain_id.as_str(), msg.previous_counter, seed);
    let ghost s = choose|s: Seq<u8>| #[trigger]
        seed_of(seed, s) && step_done(first, name, msg.previous_counter, s, turn, entry@);
    match turn {
        Ok(_) => {},
        Err(e) => {
            assert(decrypts(Err(e), session@, ciphertext@, our_identity_pub@, s));
            return Err(e);
        },
    }
    let plaintext = match receive(&mut entry, chain_id, ciphertext, &msg, our_identity_pub) {
        Ok(p) => p,
        Err(e) => {
            assert(decrypts(Err(e), session@, ciphertext@, our_identity_pub@, s));
            return Err(e);
        },
    };
    let mut record = session.clone();
    record.sessions.insert(session.sessions.key_at(0).clone(), entry);
    let result = Ok(DecryptResult { session: record, plaintext });
    proof {
        lemma_keeps_hearing(session@, ciphertext@, our_identity_pub@, s);
        assert(decrypts(result, session@, ciphertext@, our_identity_pub@, s));
    }
    result
}

/// Decrypts a framed `WhisperMessage`. When its ephemeral key is new, the
/// ratchet turns to a random new key.
pub fn decrypt_whisper(
    session: &SessionRecord,
    ciphertext: &[u8],
    our_identity_pub: &[u8],
) -> (result: Result<DecryptResult, String>)
    ensures
        exists|s: Seq<u8>|
            s.len() == 32 && #[trigger] decrypts(
                result,
                session@,
                ciphertext@,
                our_identity_pub@,
                s,
            ),
{
    decrypt(session, ciphertext, our_identity_pub, None)
}

/// The same with the new key given.
pub fn decrypt_whisper_with_seed(
    session: &SessionRecord,
    ciphertext: &[u8],
    our_identity_pub: &[u8],
    seed: &[u8; 32],
) -> (result: Result<DecryptResult, String>)
    ensures
        decrypts(result, session@, ciphertext@, our_identity_pub@, seed@),
{
    decrypt(session, ciphertext, our_identity_pub, Some(seed))
}

/// The `PreKeyWhisperMessage` behind its version byte.
pub fn parse_pkmsg_frame(data: &[u8]) -> (result: Result<PreKeyWhisperMessage, String>)
    ensures
        match (result, pkmsg_unframed(data@)) {
            (Ok(m), Ok(w)) => m@ == w,
            (Err(e), Err(m)) => e@ == m,
            _ => false,
        },
{
    if data.len() == 0 || data[0] != 0x33 {
        return Err("bad version byte".to_owned());
    }
    let inner = slice_subrange(data, 1, data.len());
    assert(inner@ =~= data@.skip(1));
    decode_pkmsg(inner)
}

/// The message inside a framed `PreKeyWhisperMessage`, for a record with an
/// open session.
fn unwrap_pkmsg(session: &SessionRecord, ciphertext: &[u8]) -> (result: Result<Vec<u8>, String>)
    ensures
        match result {
            Ok(message) => has_open_session(session@) && (pkmsg_unframed(ciphertext@) matches Ok(m)
                && m.message == message@),
            Err(e) => forall|id: Seq<u8>, s: Seq<u8>|
                pkmsg_opened(session@, ciphertext@, id, s) == Err::<Received, Seq<char>>(e@),
        },
{
    let pkmsg = parse_pkmsg_frame(ciphertext)?;
    if !have_open_session(session) {
        return Err("no open session — X3DH recipient init deferred to JS wrapper".to_owned());
    }
    Ok(pkmsg.message)
}

/// Decrypts a framed `PreKeyWhisperMessage` for which there is a session.
pub fn decrypt_pkmsg(
    session: &SessionRecord,
    ciphertext: &[u8],
    our_identity_pub: &[u8],
) -> (result: Result<DecryptResult, String>)
    ensures
        exists|s: Seq<u8>|
            s.len() == 32 && #[trigger] decrypts_pkmsg(
                result,
                session@,
                ciphertext@,
                our_identity_pub@,
                s,
            ),
{
    match unwrap_pkmsg(session, ciphertext) {
        Ok(message) => {
            let result = decrypt_whisper(session, &message, our_identity_pub);
            proof {
                let s = choose|s: Seq<u8>|
                    s.len() == 32 && #[trigger] decrypts(
                        result,
                        session@,
                        message@,
                        our_identity_pub@,
                        s,
                    );
                assert(decrypts_pkmsg(result, session@, ciphertext@, our_identity_pub@, s));
            }
            result
        },
        Err(e) => {
            proof {
                let s = Seq::new(32, |i: int| 0u8);
                assert(decrypts_pkmsg(Err(e), session@, ciphertext@, our_identity_pub@, s));
            }
            Err(e)
        },
    }
}

/// The same with the new key given.
pub fn decrypt_pkmsg_with_seed(
    session: &SessionRecord,
    ciphertext: &[u8],
    our_identity_pub: &[u8],
    seed: &[u8; 32],
) -> (result: Result<DecryptResult, String>)
    ensures
        decrypts_pkmsg(result, session@, ciphertext@, our_identity_pub@, seed@),
{
    let message = unwrap_pkmsg(session, ciphertext)?;
    decrypt_whisper_with_seed(session, &message, our_identity_pub, seed)
}

} // verus!
