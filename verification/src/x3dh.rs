//! X3DH: the first keys of a session.
//!
//! The shared secret is thirty-two times 0xff and the agreements of the
//! initiator's identity key with the recipient's signed prekey, of the
//! initiator's ephemeral key with the recipient's identity key and with its
//! signed prekey, and, where there is one, with its one-time prekey. The label
//! "WhisperText" gives the root key.
use crate::chain::chain_key_after;
use crate::clock::now_ms;
use crate::curve::{
    agreed, generate_keypair, random_seed, scalar_multiply, verify, wrong_length, x25519,
    x25519_base, xeddsa_accepts,
};
use crate::delivery::{
    delivers, hears, law_turn_is_heard, sends_with_current_key, speaks, turn_followed,
};
use crate::kdf::{derive_secrets_n, hmac_tag, law_three_chunks, secret};
use crate::map::{lemma_first_only, StringMap};
use crate::ratchet::{
    current_session, decrypted, pkmsg_opened, stripped, unframed, without_prefix,
};
use crate::session::{
    default_version, has_open_session, Chain, ChainView, EntryView, IndexInfo, IndexView, KeyPair,
    KeyPairView, PendingPreKey, PendingView, Ratchet, RatchetView, RecordView, SessionEntry,
    SessionRecord,
};
use crate::turn::{
    empty_chain, fresh_chain, next_chain, next_root, receiving_keys, stands_at,
    stepped,
};
use crate::util::{b64, base64_bytes, base64_text, decodes_to, text_len};
use vstd::prelude::*;
use vstd::slice::slice_subrange;
use vstd::string::*;
use vstd::utf8::encode_utf8;

verus! {

pub struct X3dhParams<'a> {
    /// Our secret identity key, 32 bytes.
    pub identity_priv: &'a [u8],
    /// Our identity key, 0x05 and 32 bytes.
    pub identity_pub: &'a [u8],
    /// The recipient's signed prekey, 32 bytes, or 33 with the prefix 0x05.
    pub signed_prekey_pub: &'a [u8],
    /// Its signature by the recipient's identity key, 64 bytes.
    pub signed_prekey_sig: &'a [u8],
    /// The recipient's one-time prekey, 32 bytes, or 33 with the prefix 0x05.
    pub prekey_pub: Option<&'a [u8]>,
    pub prekey_id: Option<u32>,
    /// The recipient's identity key, 0x05 and 32 bytes.
    pub recipient_pub: &'a [u8],
    pub recipient_prekey: &'a [u8],
    pub registration_id: u32,
    /// The id of the signed prekey.
    pub signed_key_id: u32,
}

/// The parameters that a session depends on.
pub struct ParamsView {
    pub identity_priv: Seq<u8>,
    pub signed_prekey_pub: Seq<u8>,
    pub signed_prekey_sig: Seq<u8>,
    pub prekey_pub: Option<Seq<u8>>,
    pub prekey_id: Option<u32>,
    pub recipient_pub: Seq<u8>,
    pub registration_id: u32,
    pub signed_key_id: u32,
}

impl<'a> View for X3dhParams<'a> {
    type V = ParamsView;

    open spec fn view(&self) -> ParamsView {
        ParamsView {
            identity_priv: self.identity_priv@,
            signed_prekey_pub: self.signed_prekey_pub@,
            signed_prekey_sig: self.signed_prekey_sig@,
            prekey_pub: match self.prekey_pub {
                Some(key) => Some(key@),
                None => None,
            },
            prekey_id: self.prekey_id,
            recipient_pub: self.recipient_pub@,
            registration_id: self.registration_id,
            signed_key_id: self.signed_key_id,
        }
    }
}

/// The contents of the parameters are the keys and ids as they are given; a
/// one-time prekey counts where there is one.
pub proof fn law_parameter_contents(params: X3dhParams, key: Option<&[u8]>)
    ensures
        params@.identity_priv == params.identity_priv@,
        params@.signed_prekey_pub == params.signed_prekey_pub@,
        params@.signed_prekey_sig == params.signed_prekey_sig@,
        params@.prekey_id == params.prekey_id,
        params@.recipient_pub == params.recipient_pub@,
        params@.registration_id == params.registration_id,
        params@.signed_key_id == params.signed_key_id,
        match (params.prekey_pub, params@.prekey_pub) {
            (Some(a), Some(b)) => a@ == b,
            (None, None) => true,
            _ => false,
        },
        match (key, bytes_of(key)) {
            (Some(a), Some(b)) => a@ == b,
            (None, None) => true,
            _ => false,
        },
{
}

// ---------------------------------------------------------------- secrets

/// The shared secret of three or four agreements.
pub open spec fn joined(a: Seq<u8>, b: Seq<u8>, c: Seq<u8>, d: Option<Seq<u8>>) -> Seq<u8> {
    let three = Seq::new(32, |i: int| 0xffu8) + a + b + c;
    match d {
        Some(d) => three + d,
        None => three,
    }
}

/// The root key that a shared secret gives.
pub open spec fn root_of(shared: Seq<u8>) -> Seq<u8> {
    secret(shared, Seq::new(32, |i: int| 0u8), encode_utf8("WhisperText"@), 0)
}

/// The identity key without its first byte.
pub open spec fn bare_identity(key: Seq<u8>) -> Seq<u8> {
    key.subrange(1, 33)
}

/// The fourth agreement, where there is a one-time prekey.
pub open spec fn agreed_once(sk: Seq<u8>, pk: Option<Seq<u8>>) -> Result<
    Option<Seq<u8>>,
    Seq<char>,
> {
    match pk {
        None => Ok(None),
        Some(pk) => match agreed(sk, pk) {
            Err(e) => Err(e),
            Ok(s) => Ok(Some(s)),
        },
    }
}

/// The shared secret of an initiator with the ephemeral secret key
/// `ephemeral`.
pub open spec fn initiator_secret(params: ParamsView, ephemeral: Seq<u8>) -> Result<
    Seq<u8>,
    Seq<char>,
> {
    let signed = stripped(params.signed_prekey_pub);
    let once = match params.prekey_pub {
        Some(key) => Some(stripped(key)),
        None => None,
    };
    match agreed(params.identity_priv, signed) {
        Err(e) => Err(e),
        Ok(a) => match agreed(ephemeral, bare_identity(params.recipient_pub)) {
            Err(e) => Err(e),
            Ok(b) => match agreed(ephemeral, signed) {
                Err(e) => Err(e),
                Ok(c) => match agreed_once(ephemeral, once) {
                    Err(e) => Err(e),
                    Ok(d) => Ok(joined(a, b, c, d)),
                },
            },
        },
    }
}

/// The shared secret of a recipient.
pub open spec fn recipient_secret(
    identity: Seq<u8>,
    signed: Seq<u8>,
    once: Option<Seq<u8>>,
    sender_identity: Seq<u8>,
    sender_ephemeral: Seq<u8>,
) -> Result<Seq<u8>, Seq<char>> {
    match agreed(identity, sender_ephemeral) {
        Err(e) => Err(e),
        Ok(b) => match agreed(signed, bare_identity(sender_identity)) {
            Err(e) => Err(e),
            Ok(a) => match agreed(signed, sender_ephemeral) {
                Err(e) => Err(e),
                Ok(c) => match once {
                    None => Ok(joined(a, b, c, None)),
                    Some(key) => match agreed(key, sender_ephemeral) {
                        Err(e) => Err(e),
                        Ok(d) => Ok(joined(a, b, c, Some(d))),
                    },
                },
            },
        },
    }
}

/// The root key of an initiator before it sends.
pub open spec fn initiator_root(params: ParamsView, ephemeral: Seq<u8>) -> Seq<u8> {
    root_of(initiator_secret(params, ephemeral)->Ok_0)
}

/// The secret between the initiator's ephemeral key and the signed prekey.
pub open spec fn first_agreement(params: ParamsView, ephemeral: Seq<u8>) -> Seq<u8> {
    x25519(ephemeral, stripped(params.signed_prekey_pub))
}

/// The first chain key of the initiator.
pub open spec fn first_chain(params: ParamsView, ephemeral: Seq<u8>) -> Seq<u8> {
    next_chain(initiator_root(params, ephemeral), first_agreement(params, ephemeral))
}

// ---------------------------------------------------------------- sessions

/// A record with one session.
pub open spec fn record_of(name: Seq<char>, entry: EntryView) -> RecordView {
    RecordView {
        sessions: Map::<Seq<char>, EntryView>::empty().insert(name, entry),
        version: "v1"@,
    }
}

/// The session of an initiator, built at the time `now`.
pub open spec fn initial_entry(params: ParamsView, ephemeral: Seq<u8>, now: i64) -> EntryView {
    let name = base64_text(x25519_base(ephemeral));
    let root = initiator_root(params, ephemeral);
    let shared = first_agreement(params, ephemeral);
    EntryView {
        registrationId: params.registration_id,
        currentRatchet: RatchetView {
            ephemeralKeyPair: KeyPairView { pubKey: name, privKey: base64_text(ephemeral) },
            lastRemoteEphemeralKey: base64_text(stripped(params.signed_prekey_pub)),
            previousCounter: 0,
            rootKey: base64_text(next_root(root, shared)),
        },
        indexInfo: IndexView {
            baseKey: name,
            baseKeyType: if params.prekey_pub is Some {
                1
            } else {
                0
            },
            closed: -1i64,
            used: now,
            created: now,
            remoteIdentityKey: base64_text(params.recipient_pub),
        },
        chains: Map::<Seq<char>, ChainView>::empty().insert(
            name,
            fresh_chain(1, next_chain(root, shared)),
        ),
        pendingPreKey: Some(
            PendingView {
                baseKey: name,
                signedKeyId: Some(params.signed_key_id),
                preKeyId: params.prekey_id,
            },
        ),
    }
}

/// What building the session of an initiator gives.
pub open spec fn initial_session(params: ParamsView, ephemeral: Seq<u8>, now: i64) -> Result<
    RecordView,
    Seq<char>,
> {
    if params.recipient_pub.len() < 33 {
        Err("recipient_pub must be 33 bytes"@)
    } else if params.signed_prekey_sig.len() != 64 {
        Err(wrong_length("signature"@, params.signed_prekey_sig.len(), 64))
    } else if !xeddsa_accepts(
        bare_identity(params.recipient_pub),
        params.signed_prekey_pub,
        params.signed_prekey_sig,
    ) {
        Err("signed prekey signature verification failed"@)
    } else if ephemeral.len() != 32 {
        Err(wrong_length("seed"@, ephemeral.len(), 32))
    } else {
        match initiator_secret(params, ephemeral) {
            Err(e) => Err(e),
            Ok(_) => Ok(
                record_of(
                    base64_text(x25519_base(ephemeral)),
                    initial_entry(params, ephemeral, now),
                ),
            ),
        }
    }
}

/// `result` is what `expected` says.
pub open spec fn builds(
    result: Result<SessionRecord, String>,
    expected: Result<RecordView, Seq<char>>,
) -> bool {
    match (result, expected) {
        (Ok(r), Ok(e)) => r@ == e,
        (Err(e), Err(m)) => e@ == m,
        _ => false,
    }
}

/// What the initiator agrees on with each key of the recipient is 32 bytes.
pub open spec fn initiator_agreements_whole(params: ParamsView, ephemeral: Seq<u8>) -> bool {
    let signed = stripped(params.signed_prekey_pub);
    &&& x25519(params.identity_priv, signed).len() == 32
    &&& x25519(ephemeral, bare_identity(params.recipient_pub)).len() == 32
    &&& x25519(ephemeral, signed).len() == 32
    &&& params.prekey_pub matches Some(key) ==> x25519(ephemeral, stripped(key)).len() == 32
}

/// What the recipient agrees on with each key of the sender is 32 bytes, and
/// the texts of its root key and of its secret key decode to them.
pub open spec fn recipient_keys_whole(
    record: RecordView,
    identity: Seq<u8>,
    signed: Seq<u8>,
    once: Option<Seq<u8>>,
    sender_identity: Seq<u8>,
    sender_ephemeral: Seq<u8>,
) -> bool {
    let shared = recipient_secret(identity, signed, once, sender_identity, sender_ephemeral)->Ok_0;
    &&& x25519(signed, bare_identity(sender_identity)).len() == 32
    &&& x25519(identity, sender_ephemeral).len() == 32
    &&& x25519(signed, sender_ephemeral).len() == 32
    &&& once matches Some(key) ==> x25519(key, sender_ephemeral).len() == 32
    &&& current_session(record) matches Some(at) && stands_at(
        record.sessions[at],
        signed,
        root_of(shared),
    )
}

/// A new initiator speaks with its first chain key under its ephemeral key and
/// with no other chain, and stands at the root key that comes with it. The
/// texts of both keys are whole, and that of the chain key decodes to it.
pub open spec fn ready_to_send(record: RecordView, params: ParamsView, ephemeral: Seq<u8>) -> bool {
    let start = first_chain(params, ephemeral);
    let root = initiator_root(params, ephemeral);
    &&& initiator_agreements_whole(params, ephemeral)
    &&& x25519_base(ephemeral).len() == 32
    &&& decodes_to(base64_text(start), start)
    &&& base64_text(start).len() == text_len(32)
    &&& speaks(record, x25519_base(ephemeral), 0, start, 0)
    &&& current_session(record) matches Some(at) && stands_at(
        record.sessions[at],
        ephemeral,
        next_root(root, first_agreement(params, ephemeral)),
    ) && decodes_to(record.sessions[at].indexInfo.remoteIdentityKey, params.recipient_pub)
        && sends_with_current_key(record.sessions[at])
        && record.sessions[at].currentRatchet.rootKey.len() == text_len(32)
}

/// The three chunks derived from `input`.
pub fn derive_secrets(input: &[u8], salt: &[u8], info: &[u8]) -> (result: Result<
    [Vec<u8>; 3],
    String,
>)
    ensures
        result matches Ok(out) && forall|i: int|
            0 <= i < 3 ==> (#[trigger] out@[i])@ == secret(input@, salt@, info@, i as nat)
                && out@[i]@.len() == 32,
{
    let mut all = derive_secrets_n(input, salt, info, 3)?;
    let ghost chunks = all@;
    let c = all.pop().unwrap();
    let b = all.pop().unwrap();
    let a = all.pop().unwrap();
    assert(a == chunks[0] && b == chunks[1] && c == chunks[2]);
    let out = [a, b, c];
    assert(out@ =~= chunks);
    Ok(out)
}

fn join(a: &[u8; 32], b: &[u8; 32], c: &[u8; 32], d: Option<[u8; 32]>) -> (shared: Vec<u8>)
    ensures
        shared@ == joined(
            a@,
            b@,
            c@,
            match d {
                Some(d) => Some(d@),
                None => None,
            },
        ),
{
    let ones = [0xffu8; 32];
    assert(ones@ =~= Seq::new(32, |i: int| 0xffu8));
    let mut shared: Vec<u8> = Vec::new();
    shared.extend_from_slice(&ones);
    shared.extend_from_slice(a);
    shared.extend_from_slice(b);
    shared.extend_from_slice(c);
    if let Some(d) = d {
        shared.extend_from_slice(&d);
    }
    shared
}

/// The root key of a shared secret.
fn derive_root(shared: &[u8]) -> (root: Vec<u8>)
    ensures
        root@ == root_of(shared@),
        root@.len() == 32,
{
    let salt = [0u8; 32];
    assert(salt@ =~= Seq::new(32, |i: int| 0u8));
    let label = "WhisperText";
    let keys = derive_secrets(shared, &salt, label.as_bytes()).unwrap();
    let root = keys[0].clone();
    assert(root@ =~= keys@[0]@);
    root
}

/// The session of a recipient, built at the time `now`.
pub open spec fn recipient_entry(
    root: Seq<u8>,
    signed_priv: Seq<u8>,
    signed_pub: Seq<u8>,
    sender_identity: Seq<u8>,
    sender_ephemeral: Seq<u8>,
    registration_id: u32,
    now: i64,
) -> EntryView {
    EntryView {
        registrationId: registration_id,
        currentRatchet: RatchetView {
            ephemeralKeyPair: KeyPairView {
                pubKey: base64_text(signed_pub),
                privKey: base64_text(signed_priv),
            },
            lastRemoteEphemeralKey: base64_text(sender_ephemeral),
            previousCounter: 0,
            rootKey: base64_text(root),
        },
        indexInfo: IndexView {
            baseKey: base64_text(sender_ephemeral),
            baseKeyType: 0,
            closed: -1i64,
            used: now,
            created: now,
            remoteIdentityKey: base64_text(sender_identity),
        },
        chains: Map::empty(),
        pendingPreKey: None,
    }
}

/// What building the session of a recipient gives.
pub open spec fn recipient_session(
    identity: Seq<u8>,
    signed_priv: Seq<u8>,
    signed_pub: Seq<u8>,
    once: Option<Seq<u8>>,
    sender_identity: Seq<u8>,
    sender_ephemeral: Seq<u8>,
    registration_id: u32,
    now: i64,
) -> Result<RecordView, Seq<char>> {
    if sender_identity.len() < 33 {
        Err("sender_identity must be 33 bytes"@)
    } else {
        match recipient_secret(identity, signed_priv, once, sender_identity, sender_ephemeral) {
            Err(e) => Err(e),
            Ok(shared) => Ok(
                record_of(
                    base64_text(sender_ephemeral),
                    recipient_entry(
                        root_of(shared),
                        signed_priv,
                        signed_pub,
                        sender_identity,
                        sender_ephemeral,
                        registration_id,
                        now,
                    ),
                ),
            ),
        }
    }
}

/// The root key and the remote ephemeral key of the current session are texts
/// of 32 bytes.
pub open spec fn key_texts_whole(record: RecordView) -> bool {
    current_session(record) matches Some(at) && {
        let ratchet = record.sessions[at].currentRatchet;
        &&& ratchet.rootKey.len() == text_len(32)
        &&& ratchet.lastRemoteEphemeralKey.len() == text_len(32)
    }
}

/// An initiator with `params` and the secret key `ephemeral`, and a recipient
/// with these keys, mean each other: each holds the secret keys of the public
/// keys that the other uses.
pub open spec fn meet(
    params: ParamsView,
    ephemeral: Seq<u8>,
    identity: Seq<u8>,
    signed: Seq<u8>,
    once: Option<Seq<u8>>,
    sender_identity: Seq<u8>,
    sender_ephemeral: Seq<u8>,
) -> bool {
    &&& params.identity_priv.len() == 32
    &&& ephemeral.len() == 32
    &&& bare_identity(params.recipient_pub) == x25519_base(identity)
    &&& stripped(params.signed_prekey_pub) == x25519_base(signed)
    &&& match (params.prekey_pub, once) {
        (Some(pk), Some(sk)) => stripped(pk) == x25519_base(sk),
        (None, None) => true,
        _ => false,
    }
    &&& bare_identity(sender_identity) == x25519_base(params.identity_priv)
    &&& sender_ephemeral == x25519_base(ephemeral)
}

/// A new recipient comes to the initiator's root key and chain key, and hears
/// the first 2000 messages of the initiator, whatever new key a turn of the
/// ratchet brings; left out are a signed prekey or a new key that is the
/// initiator's ephemeral key.
pub open spec fn ready_to_receive(
    record: RecordView,
    params: ParamsView,
    ephemeral: Seq<u8>,
    signed_pub: Seq<u8>,
    sender_identity: Seq<u8>,
    sender_ephemeral: Seq<u8>,
) -> bool {
    let start = first_chain(params, ephemeral);
    let root = next_root(
        initiator_root(params, ephemeral),
        first_agreement(params, ephemeral),
    );
    &&& current_session(record) matches Some(at) && {
        &&& !record.sessions[at].chains.contains_key(base64_text(sender_ephemeral))
        &&& sends_with_current_key(record.sessions[at])
        &&& receiving_keys(record.sessions[at], sender_ephemeral) == Ok::<
            (Seq<u8>, Seq<u8>),
            Seq<char>,
        >((root, start))
    }
    &&& decodes_to(base64_text(start), start) && signed_pub != sender_ephemeral ==> forall|
        previous: u32,
        counter: u32,
        seed: Seq<u8>,
    |
        counter < 2000 && base64_text(x25519_base(seed)) != base64_text(sender_ephemeral)
            ==> #[trigger] hears(
            record,
            sender_identity,
            sender_ephemeral,
            previous,
            start,
            counter,
            seed,
        )
}

/// A session is alone in its record.
proof fn lemma_only_session(record: RecordView, name: Seq<char>, entry: EntryView)
    requires
        record == record_of(name, entry),
    ensures
        current_session(record) == Some(name),
        record.sessions[name] == entry,
{
    lemma_first_only(record.sessions, |e: EntryView| true, name);
}

proof fn lemma_ready_to_send(params: ParamsView, ephemeral: Seq<u8>, now: i64)
    requires
        ({
            let name = base64_text(x25519_base(ephemeral));
            let root = initiator_root(params, ephemeral);
            let shared = first_agreement(params, ephemeral);
            let start = next_chain(root, shared);
            &&& initiator_agreements_whole(params, ephemeral)
            &&& x25519_base(ephemeral).len() == 32
            &&& decodes_to(name, x25519_base(ephemeral))
            &&& decodes_to(base64_text(ephemeral), ephemeral)
            &&& decodes_to(base64_text(start), start)
            &&& base64_text(start).len() == text_len(32)
            &&& decodes_to(base64_text(next_root(root, shared)), next_root(root, shared))
            &&& base64_text(next_root(root, shared)).len() == text_len(32)
            &&& decodes_to(base64_text(params.recipient_pub), params.recipient_pub)
        }),
    ensures
        ready_to_send(
            record_of(
                base64_text(x25519_base(ephemeral)),
                initial_entry(params, ephemeral, now),
            ),
            params,
            ephemeral,
        ),
{
    let name = base64_text(x25519_base(ephemeral));
    let entry = initial_entry(params, ephemeral, now);
    let start = first_chain(params, ephemeral);
    lemma_only_session(record_of(name, entry), name, entry);
    lemma_first_only(entry.chains, |c: ChainView| c.chainType == 1, name);
    assert(chain_key_after(start, 0) == start);
}

/// Builds the session of an initiator: the ephemeral secret key and the time
/// are given.
pub fn build_initial_session_at(params: &X3dhParams, ephemeral_priv: &[u8], now: i64) -> (result:
    Result<SessionRecord, String>)
    ensures
        builds(result, initial_session(params@, ephemeral_priv@, now)),
        result matches Ok(r) ==> ready_to_send(r@, params@, ephemeral_priv@),
{
    if params.recipient_pub.len() < 33 {
        return Err("recipient_pub must be 33 bytes".to_owned());
    }
    let recipient_pub_32 = slice_subrange(params.recipient_pub, 1, 33);
    let spk = without_prefix(params.signed_prekey_pub);
    if !verify(recipient_pub_32, params.signed_prekey_pub, params.signed_prekey_sig)? {
        return Err("signed prekey signature verification failed".to_owned());
    }
    let (ephemeral_pub, _) = generate_keypair(ephemeral_priv)?;

    let a1 = scalar_multiply(params.identity_priv, spk)?;
    let a2 = scalar_multiply(ephemeral_priv, recipient_pub_32)?;
    let a3 = scalar_multiply(ephemeral_priv, spk)?;
    let a4 = match params.prekey_pub {
        Some(opk) => Some(scalar_multiply(ephemeral_priv, without_prefix(opk))?),
        None => None,
    };
    let root_key = derive_root(&join(&a1, &a2, &a3, a4));

    let label = "WhisperRatchet";
    let turned = derive_secrets(&a3, &root_key, label.as_bytes())?;

    let mut chains: StringMap<Chain> = StringMap::new();
    chains.insert(b64(&ephemeral_pub), empty_chain(1, &turned[1]));
    let entry = SessionEntry {
        registrationId: params.registration_id,
        currentRatchet: Ratchet {
            ephemeralKeyPair: KeyPair {
                privKey: b64(ephemeral_priv),
                pubKey: b64(&ephemeral_pub),
            },
            lastRemoteEphemeralKey: b64(spk),
            previousCounter: 0,
            rootKey: b64(&turned[0]),
        },
        indexInfo: IndexInfo {
            baseKey: b64(&ephemeral_pub),
            baseKeyType: if params.prekey_pub.is_some() {
                1
            } else {
                0
            },
            closed: -1,
            used: now,
            created: now,
            remoteIdentityKey: b64(params.recipient_pub),
        },
        chains,
        pendingPreKey: Some(
            PendingPreKey {
                baseKey: b64(&ephemeral_pub),
                signedKeyId: Some(params.signed_key_id),
                preKeyId: params.prekey_id,
            },
        ),
    };
    let mut record = SessionRecord { sessions: StringMap::new(), version: default_version() };
    let ghost built = entry@;
    record.sessions.insert(b64(&ephemeral_pub), entry);
    proof {
        let ephemeral = ephemeral_priv@;
        assert(root_key@ == initiator_root(params@, ephemeral));
        assert(turned@[0]@ == next_root(root_key@, a3@));
        assert(turned@[1]@ == next_chain(root_key@, a3@));
        assert(built =~= initial_entry(params@, ephemeral, now));
        lemma_ready_to_send(params@, ephemeral, now);
    }
    Ok(record)
}

/// Builds the session of an initiator with the given ephemeral secret key.
pub fn build_initial_session_with_ephemeral(params: &X3dhParams, ephemeral_priv: &[u8]) -> (result:
    Result<SessionRecord, String>)
    ensures
        exists|now: i64|
            builds(result, #[trigger] initial_session(params@, ephemeral_priv@, now)),
        result matches Ok(r) ==> ready_to_send(r@, params@, ephemeral_priv@),
{
    let now: i64 = now_ms();
    let result = build_initial_session_at(params, ephemeral_priv, now);
    assert(builds(result, initial_session(params@, ephemeral_priv@, now)));
    result
}

/// Builds the session of an initiator with a fresh random ephemeral key.
pub fn build_initial_session(params: &X3dhParams) -> (result: Result<SessionRecord, String>)
    ensures
        exists|ephemeral: Seq<u8>, now: i64|
            ephemeral.len() == 32 && builds(
                result,
                #[trigger] initial_session(params@, ephemeral, now),
            ) && (result matches Ok(r) ==> ready_to_send(r@, params@, ephemeral)),
{
    let seed = random_seed();
    let now: i64 = now_ms();
    let result = build_initial_session_at(params, &seed, now);
    assert(builds(result, initial_session(params@, seed@, now)));
    result
}

proof fn lemma_ready_to_receive(
    record: RecordView,
    params: ParamsView,
    ephemeral: Seq<u8>,
    signed_priv: Seq<u8>,
    signed_pub: Seq<u8>,
    sender_identity: Seq<u8>,
    sender_ephemeral: Seq<u8>,
    registration_id: u32,
    now: i64,
)
    requires
        signed_priv.len() == 32,
        sender_ephemeral.len() == 32,
        x25519(signed_priv, sender_ephemeral) == first_agreement(params, ephemeral),
        decodes_to(base64_text(signed_priv), signed_priv),
        decodes_to(base64_text(signed_pub), signed_pub),
        decodes_to(base64_text(sender_identity), sender_identity),
        decodes_to(base64_text(sender_ephemeral), sender_ephemeral),
        decodes_to(
            base64_text(initiator_root(params, ephemeral)),
            initiator_root(params, ephemeral),
        ),
        record == record_of(
            base64_text(sender_ephemeral),
            recipient_entry(
                initiator_root(params, ephemeral),
                signed_priv,
                signed_pub,
                sender_identity,
                sender_ephemeral,
                registration_id,
                now,
            ),
        ),
    ensures
        ready_to_receive(
            record,
            params,
            ephemeral,
            signed_pub,
            sender_identity,
            sender_ephemeral,
        ),
{
    let name = base64_text(sender_ephemeral);
    let entry = recipient_entry(
        initiator_root(params, ephemeral),
        signed_priv,
        signed_pub,
        sender_identity,
        sender_ephemeral,
        registration_id,
        now,
    );
    let start = first_chain(params, ephemeral);
    lemma_only_session(record, name, entry);
    assert(chain_key_after(start, 0) == start);
    if decodes_to(base64_text(start), start) && signed_pub != sender_ephemeral {
        assert forall|previous: u32, counter: u32, seed: Seq<u8>|
            counter < 2000 && base64_text(x25519_base(seed)) != name implies #[trigger] hears(
            record,
            sender_identity,
            sender_ephemeral,
            previous,
            start,
            counter,
            seed,
        ) by {
            let after = stepped(entry, name, previous, seed)->Ok_0;
            assert(after.chains[name] == fresh_chain(0, start));
        }
    }
}

/// Builds the session of a recipient at a given time. The keys are our secret
/// identity key, our signed prekey (secret and public), our secret one-time
/// prekey where the first message names one, and, out of that message, the
/// sender's identity key with its prefix and the sender's ephemeral key. The
/// recipient that an initiator means is ready to receive from it.
pub fn build_recipient_session_at(
    our_identity_priv: &[u8],
    our_signed_prekey_priv: &[u8],
    our_signed_prekey_pub: &[u8],
    our_prekey_priv: Option<&[u8]>,
    sender_identity: &[u8],
    sender_ephemeral: &[u8],
    registration_id: u32,
    now: i64,
) -> (result: Result<SessionRecord, String>)
    ensures
        builds(
            result,
            recipient_session(
                our_identity_priv@,
                our_signed_prekey_priv@,
                our_signed_prekey_pub@,
                bytes_of(our_prekey_priv),
                sender_identity@,
                sender_ephemeral@,
                registration_id,
                now,
            ),
        ),
        result matches Ok(r) ==> key_texts_whole(r@) && recipient_keys_whole(
            r@,
            our_identity_priv@,
            our_signed_prekey_priv@,
            bytes_of(our_prekey_priv),
            sender_identity@,
            sender_ephemeral@,
        ),
        result matches Ok(r) ==> forall|params: ParamsView, ephemeral: Seq<u8>| #[trigger]
            meet(
                params,
                ephemeral,
                our_identity_priv@,
                our_signed_prekey_priv@,
                bytes_of(our_prekey_priv),
                sender_identity@,
                sender_ephemeral@,
            ) && initiator_secret(params, ephemeral) is Ok ==> ready_to_receive(
                r@,
                params,
                ephemeral,
                our_signed_prekey_pub@,
                sender_identity@,
                sender_ephemeral@,
            ),
{
    if sender_identity.len() < 33 {
        return Err("sender_identity must be 33 bytes".to_owned());
    }
    let sender_identity_x = slice_subrange(sender_identity, 1, 33);
    let a1 = scalar_multiply(our_identity_priv, sender_ephemeral)?;
    let a2 = scalar_multiply(our_signed_prekey_priv, sender_identity_x)?;
    let a3 = scalar_multiply(our_signed_prekey_priv, sender_ephemeral)?;
    let a4 = match our_prekey_priv {
        Some(opk_priv) => Some(scalar_multiply(opk_priv, sender_ephemeral)?),
        None => None,
    };
    let shared = join(&a2, &a1, &a3, a4);
    let root_key = derive_root(&shared);

    let chains: StringMap<Chain> = StringMap::new();
    let entry = SessionEntry {
        registrationId: registration_id,
        currentRatchet: Ratchet {
            ephemeralKeyPair: KeyPair {
                privKey: b64(our_signed_prekey_priv),
                pubKey: b64(our_signed_prekey_pub),
            },
            lastRemoteEphemeralKey: b64(sender_ephemeral),
            previousCounter: 0,
            rootKey: b64(&root_key),
        },
        indexInfo: IndexInfo {
            baseKey: b64(sender_ephemeral),
            baseKeyType: 0,
            closed: -1,
            used: now,
            created: now,
            remoteIdentityKey: b64(sender_identity),
        },
        chains,
        pendingPreKey: None,
    };
    let ghost built = entry@;
    let mut record = SessionRecord { sessions: StringMap::new(), version: default_version() };
    record.sessions.insert(b64(sender_ephemeral), entry);
    proof {
        assert(built =~= recipient_entry(
            root_key@,
            our_signed_prekey_priv@,
            our_signed_prekey_pub@,
            sender_identity@,
            sender_ephemeral@,
            registration_id,
            now,
        ));
        lemma_only_session(record@, base64_text(sender_ephemeral@), built);
        assert forall|params: ParamsView, ephemeral: Seq<u8>| #[trigger]
            meet(
                params,
                ephemeral,
                our_identity_priv@,
                our_signed_prekey_priv@,
                bytes_of(our_prekey_priv),
                sender_identity@,
                sender_ephemeral@,
            ) && initiator_secret(params, ephemeral) is Ok implies ready_to_receive(
            record@,
            params,
            ephemeral,
            our_signed_prekey_pub@,
            sender_identity@,
            sender_ephemeral@,
        ) by {
            assert(initiator_secret(params, ephemeral)->Ok_0 == shared@);
            lemma_ready_to_receive(
                record@,
                params,
                ephemeral,
                our_signed_prekey_priv@,
                our_signed_prekey_pub@,
                sender_identity@,
                sender_ephemeral@,
                registration_id,
                now,
            );
        }
    }
    Ok(record)
}

/// The contents of an optional slice.
pub open spec fn bytes_of(key: Option<&[u8]>) -> Option<Seq<u8>> {
    match key {
        Some(key) => Some(key@),
        None => None,
    }
}

/// Builds the session of a recipient from the keys of the first message.
pub fn build_recipient_session(
    our_identity_priv: &[u8],
    our_signed_prekey_priv: &[u8],
    our_signed_prekey_pub: &[u8],
    our_prekey_priv: Option<&[u8]>,
    sender_identity: &[u8],
    sender_ephemeral: &[u8],
    registration_id: u32,
) -> (result: Result<SessionRecord, String>)
    ensures
        exists|now: i64|
            builds(
                result,
                #[trigger] recipient_session(
                    our_identity_priv@,
                    our_signed_prekey_priv@,
                    our_signed_prekey_pub@,
                    bytes_of(our_prekey_priv),
                    sender_identity@,
                    sender_ephemeral@,
                    registration_id,
                    now,
                ),
            ),
        result matches Ok(r) ==> key_texts_whole(r@) && recipient_keys_whole(
            r@,
            our_identity_priv@,
            our_signed_prekey_priv@,
            bytes_of(our_prekey_priv),
            sender_identity@,
            sender_ephemeral@,
        ),
        result matches Ok(r) ==> forall|params: ParamsView, ephemeral: Seq<u8>| #[trigger]
            meet(
                params,
                ephemeral,
                our_identity_priv@,
                our_signed_prekey_priv@,
                bytes_of(our_prekey_priv),
                sender_identity@,
                sender_ephemeral@,
            ) && initiator_secret(params, ephemeral) is Ok ==> ready_to_receive(
                r@,
                params,
                ephemeral,
                our_signed_prekey_pub@,
                sender_identity@,
                sender_ephemeral@,
            ),
{
    let now: i64 = now_ms();
    let result = build_recipient_session_at(
        our_identity_priv,
        our_signed_prekey_priv,
        our_signed_prekey_pub,
        our_prekey_priv,
        sender_identity,
        sender_ephemeral,
        registration_id,
        now,
    );
    assert(builds(
        result,
        recipient_session(
            our_identity_priv@,
            our_signed_prekey_priv@,
            our_signed_prekey_pub@,
            bytes_of(our_prekey_priv),
            sender_identity@,
            sender_ephemeral@,
            registration_id,
            now,
        ),
    ));
    result
}

/// The keys of an initiator. The secret is 128 bytes, or 160 where there is a
/// one-time prekey: 32 times 0xff and then, 32 bytes each, what our identity
/// key agrees on with the signed prekey, what our ephemeral key agrees on with
/// the recipient's identity key, with the signed prekey and with the one-time
/// prekey. Under a salt of zeros and "WhisperText" it gives a root key, which
/// the third agreement turns under "WhisperRatchet".
pub proof fn law_initiator_keys(
    result: Result<SessionRecord, String>,
    params: ParamsView,
    ephemeral: Seq<u8>,
    now: i64,
)
    requires
        builds(result, initial_session(params, ephemeral, now)),
        result matches Ok(r) && ready_to_send(r@, params, ephemeral),
    ensures
        exists|shared: Seq<u8>|
            {
                let signed = stripped(params.signed_prekey_pub);
                let zeros = Seq::new(32, |i: int| 0u8);
                let text = encode_utf8("WhisperText"@);
                let label = encode_utf8("WhisperRatchet"@);
                let root = hmac_tag(hmac_tag(zeros, shared), text + seq![1u8]);
                let extracted = hmac_tag(root, x25519(ephemeral, signed));
                let new_root = hmac_tag(extracted, label + seq![1u8]);
                let chain_key = hmac_tag(extracted, new_root + label + seq![2u8]);
                let name = base64_text(x25519_base(ephemeral));
                let entry = result->Ok_0@.sessions[name];
                &&& forall|i: int| 0 <= i < 32 ==> #[trigger] shared[i] == 0xff
                &&& #[trigger] shared.subrange(32, 64) == x25519(params.identity_priv, signed)
                &&& shared.subrange(64, 96) == x25519(
                    ephemeral,
                    params.recipient_pub.subrange(1, 33),
                )
                &&& shared.subrange(96, 128) == x25519(ephemeral, signed)
                &&& match params.prekey_pub {
                    Some(key) => shared.len() == 160 && shared.subrange(128, 160) == x25519(
                        ephemeral,
                        stripped(key),
                    ),
                    None => shared.len() == 128,
                }
                &&& result->Ok_0@.sessions.dom() == set![name]
                &&& base64_bytes(entry.currentRatchet.rootKey) == Ok::<Seq<u8>, Seq<char>>(
                    new_root,
                )
                &&& entry.chains.dom() == set![name]
                &&& base64_bytes(entry.chains[name].chainKey.key) == Ok::<Seq<u8>, Seq<char>>(
                    chain_key,
                )
            },
{
    let signed = stripped(params.signed_prekey_pub);
    let (a, b, c) = (
        x25519(params.identity_priv, signed),
        x25519(ephemeral, bare_identity(params.recipient_pub)),
        x25519(ephemeral, signed),
    );
    let d = match params.prekey_pub {
        Some(key) => Some(x25519(ephemeral, stripped(key))),
        None => None,
    };
    let shared = joined(a, b, c, d);
    lemma_joined_places(a, b, c, d);
    let zeros = Seq::new(32, |i: int| 0u8);
    law_three_chunks(shared, zeros, encode_utf8("WhisperText"@));
    let root = root_of(shared);
    law_three_chunks(c, root, encode_utf8("WhisperRatchet"@));
    let name = base64_text(x25519_base(ephemeral));
    let entry = initial_entry(params, ephemeral, now);
    lemma_only_session(record_of(name, entry), name, entry);
    assert(result->Ok_0@.sessions.dom() =~= set![name]);
    assert(entry.chains.dom() =~= set![name]);
    assert(shared.subrange(32, 64) == a);
}

/// The keys of a recipient: the same secret from the other side, with the
/// first and the second agreement in the places that the initiator gives
/// them, and the root key before any turn.
pub proof fn law_recipient_keys(
    result: Result<SessionRecord, String>,
    identity: Seq<u8>,
    signed_priv: Seq<u8>,
    signed_pub: Seq<u8>,
    once: Option<Seq<u8>>,
    sender_identity: Seq<u8>,
    sender_ephemeral: Seq<u8>,
    registration_id: u32,
    now: i64,
)
    requires
        builds(
            result,
            recipient_session(
                identity,
                signed_priv,
                signed_pub,
                once,
                sender_identity,
                sender_ephemeral,
                registration_id,
                now,
            ),
        ),
        result matches Ok(r) && recipient_keys_whole(
            r@,
            identity,
            signed_priv,
            once,
            sender_identity,
            sender_ephemeral,
        ),
    ensures
        exists|shared: Seq<u8>|
            {
                let zeros = Seq::new(32, |i: int| 0u8);
                let text = encode_utf8("WhisperText"@);
                let root = hmac_tag(hmac_tag(zeros, shared), text + seq![1u8]);
                let name = base64_text(sender_ephemeral);
                let entry = result->Ok_0@.sessions[name];
                &&& forall|i: int| 0 <= i < 32 ==> #[trigger] shared[i] == 0xff
                &&& #[trigger] shared.subrange(32, 64) == x25519(
                    signed_priv,
                    sender_identity.subrange(1, 33),
                )
                &&& shared.subrange(64, 96) == x25519(identity, sender_ephemeral)
                &&& shared.subrange(96, 128) == x25519(signed_priv, sender_ephemeral)
                &&& match once {
                    Some(key) => shared.len() == 160 && shared.subrange(128, 160) == x25519(
                        key,
                        sender_ephemeral,
                    ),
                    None => shared.len() == 128,
                }
                &&& result->Ok_0@.sessions.dom() == set![name]
                &&& base64_bytes(entry.currentRatchet.rootKey) == Ok::<Seq<u8>, Seq<char>>(root)
                &&& base64_bytes(entry.currentRatchet.ephemeralKeyPair.privKey) == Ok::<
                    Seq<u8>,
                    Seq<char>,
                >(signed_priv)
                &&& entry.chains == Map::<Seq<char>, ChainView>::empty()
            },
{
    let (a, b, c) = (
        x25519(signed_priv, bare_identity(sender_identity)),
        x25519(identity, sender_ephemeral),
        x25519(signed_priv, sender_ephemeral),
    );
    let d = match once {
        Some(key) => Some(x25519(key, sender_ephemeral)),
        None => None,
    };
    let shared = joined(a, b, c, d);
    lemma_joined_places(a, b, c, d);
    let zeros = Seq::new(32, |i: int| 0u8);
    law_three_chunks(shared, zeros, encode_utf8("WhisperText"@));
    let name = base64_text(sender_ephemeral);
    let entry = recipient_entry(
        root_of(shared),
        signed_priv,
        signed_pub,
        sender_identity,
        sender_ephemeral,
        registration_id,
        now,
    );
    lemma_only_session(record_of(name, entry), name, entry);
    assert(result->Ok_0@.sessions.dom() =~= set![name]);
    assert(shared.subrange(32, 64) == a);
}

proof fn lemma_joined_places(a: Seq<u8>, b: Seq<u8>, c: Seq<u8>, d: Option<Seq<u8>>)
    requires
        a.len() == 32,
        b.len() == 32,
        c.len() == 32,
        d matches Some(d) ==> d.len() == 32,
    ensures
        ({
            let shared = joined(a, b, c, d);
            &&& forall|i: int| 0 <= i < 32 ==> #[trigger] shared[i] == 0xff
            &&& shared.subrange(32, 64) == a
            &&& shared.subrange(64, 96) == b
            &&& shared.subrange(96, 128) == c
            &&& match d {
                Some(d) => shared.len() == 160 && shared.subrange(128, 160) == d,
                None => shared.len() == 128,
            }
        }),
{
    let shared = joined(a, b, c, d);
    assert(shared.subrange(32, 64) =~= a);
    assert(shared.subrange(64, 96) =~= b);
    assert(shared.subrange(96, 128) =~= c);
    if let Some(d) = d {
        assert(shared.subrange(128, 160) =~= d);
    }
}

/// What else stands in the session of an initiator: nothing sent, nothing
/// received, the ids that the first messages carry, and the recipient's keys.
pub proof fn law_initiator_session(
    result: Result<SessionRecord, String>,
    params: ParamsView,
    ephemeral: Seq<u8>,
    now: i64,
)
    requires
        builds(result, initial_session(params, ephemeral, now)),
        result is Ok,
    ensures
        ({
            let name = base64_text(x25519_base(ephemeral));
            let entry = result->Ok_0@.sessions[name];
            let chain = entry.chains[name];
            &&& result->Ok_0@.version == "v1"@
            &&& entry.registrationId == params.registration_id
            &&& entry.currentRatchet.ephemeralKeyPair.pubKey == name
            &&& entry.currentRatchet.ephemeralKeyPair.privKey == base64_text(ephemeral)
            &&& entry.currentRatchet.lastRemoteEphemeralKey == base64_text(
                stripped(params.signed_prekey_pub),
            )
            &&& entry.currentRatchet.previousCounter == 0
            &&& entry.indexInfo.baseKey == name
            &&& entry.indexInfo.baseKeyType == if params.prekey_pub is Some {
                1u32
            } else {
                0u32
            }
            &&& entry.indexInfo.closed == -1
            &&& entry.indexInfo.used == now
            &&& entry.indexInfo.created == now
            &&& entry.indexInfo.remoteIdentityKey == base64_text(params.recipient_pub)
            &&& entry.pendingPreKey matches Some(pending) && pending.baseKey == name
                && pending.signedKeyId == Some(params.signed_key_id) && pending.preKeyId
                == params.prekey_id
            &&& chain.chainType == 1
            &&& chain.chainKey.counter == -1
            &&& chain.messageKeys == Map::<i64, Seq<char>>::empty()
        }),
{
}

/// What else stands in the session of a recipient.
pub proof fn law_recipient_session(
    result: Result<SessionRecord, String>,
    identity: Seq<u8>,
    signed_priv: Seq<u8>,
    signed_pub: Seq<u8>,
    once: Option<Seq<u8>>,
    sender_identity: Seq<u8>,
    sender_ephemeral: Seq<u8>,
    registration_id: u32,
    now: i64,
)
    requires
        builds(
            result,
            recipient_session(
                identity,
                signed_priv,
                signed_pub,
                once,
                sender_identity,
                sender_ephemeral,
                registration_id,
                now,
            ),
        ),
        result is Ok,
    ensures
        ({
            let name = base64_text(sender_ephemeral);
            let entry = result->Ok_0@.sessions[name];
            &&& result->Ok_0@.version == "v1"@
            &&& entry.registrationId == registration_id
            &&& entry.currentRatchet.ephemeralKeyPair.pubKey == base64_text(signed_pub)
            &&& entry.currentRatchet.ephemeralKeyPair.privKey == base64_text(signed_priv)
            &&& entry.currentRatchet.lastRemoteEphemeralKey == name
            &&& entry.currentRatchet.previousCounter == 0
            &&& entry.indexInfo.baseKey == name
            &&& entry.indexInfo.baseKeyType == 0
            &&& entry.indexInfo.closed == -1
            &&& entry.indexInfo.used == now
            &&& entry.indexInfo.created == now
            &&& entry.indexInfo.remoteIdentityKey == base64_text(sender_identity)
            &&& entry.pendingPreKey is None
        }),
{
}

/// When a session is built, and what is said where it is not: each condition
/// in turn, the signature over the signed prekey as it was given among them.
pub proof fn law_initiator_conditions(
    result: Result<SessionRecord, String>,
    params: ParamsView,
    ephemeral: Seq<u8>,
    now: i64,
)
    requires
        builds(result, initial_session(params, ephemeral, now)),
    ensures
        ({
            let signed = stripped(params.signed_prekey_pub);
            if params.recipient_pub.len() < 33 {
                result matches Err(e) && e@ == "recipient_pub must be 33 bytes"@
            } else if params.signed_prekey_sig.len() != 64 {
                result matches Err(e) && e@ == wrong_length(
                    "signature"@,
                    params.signed_prekey_sig.len(),
                    64,
                )
            } else if !xeddsa_accepts(
                params.recipient_pub.subrange(1, 33),
                params.signed_prekey_pub,
                params.signed_prekey_sig,
            ) {
                result matches Err(e) && e@ == "signed prekey signature verification failed"@
            } else if ephemeral.len() != 32 {
                result matches Err(e) && e@ == wrong_length("seed"@, ephemeral.len(), 32)
            } else if params.identity_priv.len() != 32 {
                result matches Err(e) && e@ == wrong_length(
                    "secret key"@,
                    params.identity_priv.len(),
                    32,
                )
            } else if signed.len() != 32 {
                result matches Err(e) && e@ == wrong_length("public key"@, signed.len(), 32)
            } else {
                match params.prekey_pub {
                    Some(key) if stripped(key).len() != 32 => result matches Err(e) && e@
                        == wrong_length("public key"@, stripped(key).len(), 32),
                    _ => result is Ok,
                }
            }
        }),
{
}

/// The same for a recipient: the keys are looked at in the order in which they
/// are agreed with.
pub proof fn law_recipient_conditions(
    result: Result<SessionRecord, String>,
    identity: Seq<u8>,
    signed_priv: Seq<u8>,
    signed_pub: Seq<u8>,
    once: Option<Seq<u8>>,
    sender_identity: Seq<u8>,
    sender_ephemeral: Seq<u8>,
    registration_id: u32,
    now: i64,
)
    requires
        builds(
            result,
            recipient_session(
                identity,
                signed_priv,
                signed_pub,
                once,
                sender_identity,
                sender_ephemeral,
                registration_id,
                now,
            ),
        ),
    ensures
        if sender_identity.len() < 33 {
            result matches Err(e) && e@ == "sender_identity must be 33 bytes"@
        } else if identity.len() != 32 {
            result matches Err(e) && e@ == wrong_length("secret key"@, identity.len(), 32)
        } else if sender_ephemeral.len() != 32 {
            result matches Err(e) && e@ == wrong_length("public key"@, sender_ephemeral.len(), 32)
        } else if signed_priv.len() != 32 {
            result matches Err(e) && e@ == wrong_length("secret key"@, signed_priv.len(), 32)
        } else {
            match once {
                Some(key) if key.len() != 32 => result matches Err(e) && e@ == wrong_length(
                    "secret key"@,
                    key.len(),
                    32,
                ),
                _ => result is Ok,
            }
        },
{
}

/// X3DH and the ratchet together: the messages of an initiator, from its first
/// on, decrypt at the recipient that it means, before the recipient has
/// received anything. `sender` is the initiator once it has sent `counter`
/// messages, `receiver` the new recipient.
pub proof fn law_first_messages_arrive(
    params: ParamsView,
    ephemeral: Seq<u8>,
    signed_pub: Seq<u8>,
    sender: RecordView,
    receiver: RecordView,
    from: Seq<u8>,
    to: Seq<u8>,
    plaintext: Seq<u8>,
    message_type: u8,
    sent: Seq<u8>,
    counter: u32,
    seed: Seq<u8>,
)
    requires
        x25519_base(ephemeral).len() == 32,
        decodes_to(
            base64_text(first_chain(params, ephemeral)),
            first_chain(params, ephemeral),
        ),
        speaks(
            sender,
            x25519_base(ephemeral),
            0,
            first_chain(params, ephemeral),
            counter as int,
        ),
        ready_to_receive(
            receiver,
            params,
            ephemeral,
            signed_pub,
            from,
            x25519_base(ephemeral),
        ),
        delivers(sender, from, to, plaintext, message_type, sent),
        message_type == 3 ==> has_open_session(receiver),
        counter < 2000,
        signed_pub != x25519_base(ephemeral),
        base64_text(x25519_base(seed)) != base64_text(x25519_base(ephemeral)),
    ensures
        ({
            let got = if message_type == 3 {
                pkmsg_opened(receiver, sent, to, seed)
            } else {
                decrypted(receiver, sent, to, seed)
            };
            got matches Ok(r) && r.plaintext == plaintext
        }),
{
    let start = first_chain(params, ephemeral);
    assert(hears(receiver, from, x25519_base(ephemeral), 0, start, counter, seed));
}

/// The session is that of an initiator that has sent and not yet received:
/// the one that was built, but for the state of its sending chain.
pub open spec fn only_sent(
    entry: EntryView,
    params: ParamsView,
    ephemeral: Seq<u8>,
    now: i64,
) -> bool {
    let built = initial_entry(params, ephemeral, now);
    let name = base64_text(x25519_base(ephemeral));
    &&& entry == EntryView { chains: entry.chains, ..built }
    &&& forall|k: Seq<char>| #[trigger] entry.chains.contains_key(k) ==> k == name
    &&& entry.chains.contains_key(name) ==> entry.chains[name].chainType == 1
}

/// The way back: once the recipient has received a first message `data`, its
/// answers, the first 2000 of them, are heard by the initiator, however many
/// messages the initiator has sent meanwhile. Left out are new key pairs that
/// are each other's, or the initiator's.
pub proof fn law_first_answers_are_heard(
    params: ParamsView,
    ephemeral: Seq<u8>,
    now: i64,
    signed_pub: Seq<u8>,
    initiator: RecordView,
    recipient: RecordView,
    initiator_identity: Seq<u8>,
    data: Seq<u8>,
    seed: Seq<u8>,
    counter: u32,
    next_seed: Seq<u8>,
)
    requires
        ephemeral.len() == 32,
        current_session(initiator) matches Some(at) && only_sent(
            initiator.sessions[at],
            params,
            ephemeral,
            now,
        ) && stands_at(
            initiator.sessions[at],
            ephemeral,
            next_root(
                initiator_root(params, ephemeral),
                first_agreement(params, ephemeral),
            ),
        ) && decodes_to(initiator.sessions[at].indexInfo.remoteIdentityKey, params.recipient_pub),
        ready_to_receive(
            recipient,
            params,
            ephemeral,
            signed_pub,
            initiator_identity,
            x25519_base(ephemeral),
        ),
        decrypted(recipient, data, params.recipient_pub, seed) is Ok,
        turn_followed(recipient, data, seed),
        stripped(unframed(data)->Ok_0.ephemeral_key) == x25519_base(ephemeral),
        base64_text(x25519_base(seed)) != base64_text(x25519_base(ephemeral)),
        base64_text(x25519_base(next_seed)) != base64_text(x25519_base(seed)),
        counter < 2000,
    ensures
        ({
            let after = decrypted(recipient, data, params.recipient_pub, seed)->Ok_0.session;
            let previous =
                after.sessions[current_session(recipient)->Some_0].currentRatchet.previousCounter;
            let root = next_root(
                initiator_root(params, ephemeral),
                first_agreement(params, ephemeral),
            );
            let start = next_chain(root, x25519(seed, x25519_base(ephemeral)));
            &&& speaks(after, x25519_base(seed), previous, start, 0)
            &&& hears(
                initiator,
                params.recipient_pub,
                x25519_base(seed),
                previous,
                start,
                counter,
                next_seed,
            )
        }),
{
    law_turn_is_heard(
        recipient,
        data,
        params.recipient_pub,
        seed,
        initiator,
        ephemeral,
        counter,
        next_seed,
    );
}

} // verus!
