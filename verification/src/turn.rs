//! Turning the ratchet.
//!
//! Every new ephemeral key of the other party turns the ratchet: two key
//! agreements give two new root keys, a receiving chain and a sending chain.
use crate::chain::{fill_message_keys, filled, fills};
use crate::curve::{agreed, generate_keypair, random_seed, scalar_multiply, x25519, x25519_base};
use crate::kdf::{derive_secrets_n, secret};
use crate::session::{
    Chain, ChainKey, ChainKeyView, ChainView, EntryView, KeyPair, KeyPairView, RatchetView,
    SessionEntry,
};
use crate::util::{b64, base64_bytes, base64_text, decodes_to, text_len, unb64};
use std::collections::BTreeMap;
use vstd::prelude::*;
use vstd::string::*;
use vstd::utf8::encode_utf8;

verus! {

// ---------------------------------------------------------------- turning

/// The label of the keys that a turn of the ratchet gives.
pub open spec fn ratchet_label() -> Seq<u8> {
    encode_utf8("WhisperRatchet"@)
}

/// The root key that the secret `shared` turns `root` into.
pub open spec fn next_root(root: Seq<u8>, shared: Seq<u8>) -> Seq<u8> {
    secret(shared, root, ratchet_label(), 0)
}

/// The first chain key of the chain that comes with that root key.
pub open spec fn next_chain(root: Seq<u8>, shared: Seq<u8>) -> Seq<u8> {
    secret(shared, root, ratchet_label(), 1)
}

/// A chain that has given no key yet.
pub open spec fn fresh_chain(kind: u32, key: Seq<u8>) -> ChainView {
    ChainView {
        chainKey: ChainKeyView { counter: -1i64, key: base64_text(key) },
        chainType: kind,
        messageKeys: Map::empty(),
    }
}

/// The root key and the receiving chain key for the remote ephemeral key
/// `remote`.
pub open spec fn receiving_keys(entry: EntryView, remote: Seq<u8>) -> Result<
    (Seq<u8>, Seq<u8>),
    Seq<char>,
> {
    match base64_bytes(entry.currentRatchet.ephemeralKeyPair.privKey) {
        Err(e) => Err(e),
        Ok(own) => match agreed(own, remote) {
            Err(e) => Err(e),
            Ok(shared) => match base64_bytes(entry.currentRatchet.rootKey) {
                Err(e) => Err(e),
                Ok(root) => Ok((next_root(root, shared), next_chain(root, shared))),
            },
        },
    }
}

/// The receiving chain in use.
pub open spec fn last_chain(entry: EntryView) -> Option<ChainView> {
    let last = entry.currentRatchet.lastRemoteEphemeralKey;
    if last.len() > 0 && entry.chains.contains_key(last) && entry.chains[last].chainType == 0 {
        Some(entry.chains[last])
    } else {
        None
    }
}

/// The chains once the last receiving chain is closed: filled up to the last
/// counter that the other party used, and without its key.
pub open spec fn closed_chains(entry: EntryView, previous_counter: u32) -> Result<
    Map<Seq<char>, ChainView>,
    Seq<char>,
> {
    match last_chain(entry) {
        None => Ok(entry.chains),
        Some(chain) => match filled(chain, previous_counter as i64) {
            Err(e) => Err(e),
            Ok(full) => Ok(
                entry.chains.insert(
                    entry.currentRatchet.lastRemoteEphemeralKey,
                    ChainView {
                        chainKey: ChainKeyView { key: Seq::empty(), ..full.chainKey },
                        ..full
                    },
                ),
            ),
        },
    }
}

/// The counter of a chain as a message carries it.
pub open spec fn sent_counter(counter: i64) -> u32 {
    (counter % 0x1_0000_0000) as u32
}

/// The session with a receiving chain `key` for the remote key `name` of
/// bytes `remote`, and with a new key pair, that of `seed`, and its sending
/// chain. The sending chain of the old key pair is gone; its counter is kept.
pub open spec fn turned(
    entry: EntryView,
    name: Seq<char>,
    remote: Seq<u8>,
    root: Seq<u8>,
    key: Seq<u8>,
    seed: Seq<u8>,
) -> EntryView {
    let received = entry.chains.insert(name, fresh_chain(0, key));
    let old_name = entry.currentRatchet.ephemeralKeyPair.pubKey;
    let new_name = base64_text(x25519_base(seed));
    let shared = x25519(seed, remote);
    EntryView {
        currentRatchet: RatchetView {
            ephemeralKeyPair: KeyPairView { pubKey: new_name, privKey: base64_text(seed) },
            lastRemoteEphemeralKey: name,
            previousCounter: if received.contains_key(old_name) && received[old_name].chainType
                == 1 {
                let counter = received[old_name].chainKey.counter;
                if counter > 0 {
                    sent_counter(counter)
                } else {
                    0
                }
            } else {
                entry.currentRatchet.previousCounter
            },
            rootKey: base64_text(next_root(root, shared)),
        },
        chains: received.remove(old_name).insert(new_name, fresh_chain(1, next_chain(root, shared))),
        ..entry
    }
}

/// The session once it has a chain for the remote ephemeral key `name`: as it
/// is when it has one, else turned, with `seed` as the new secret key.
pub open spec fn stepped(
    entry: EntryView,
    name: Seq<char>,
    previous_counter: u32,
    seed: Seq<u8>,
) -> Result<EntryView, Seq<char>> {
    if entry.chains.contains_key(name) {
        Ok(entry)
    } else {
        match base64_bytes(name) {
            Err(e) => Err(e),
            Ok(remote) => match closed_chains(entry, previous_counter) {
                Err(e) => Err(e),
                Ok(chains) => match receiving_keys(entry, remote) {
                    Err(e) => Err(e),
                    Ok((root, key)) => Ok(
                        turned(EntryView { chains, ..entry }, name, remote, root, key, seed),
                    ),
                },
            },
        }
    }
}

pub(crate) fn empty_chain(kind: u32, key: &[u8]) -> (chain: Chain)
    ensures
        chain@ == fresh_chain(kind, key@),
        decodes_to(chain.chainKey.key@, key@),
        chain.chainKey.key@.len() == text_len(key@.len()),
{
    let chain = Chain {
        chainKey: ChainKey { counter: -1, key: b64(key) },
        chainType: kind,
        messageKeys: BTreeMap::new(),
    };
    assert(chain@.messageKeys =~= Map::empty());
    chain
}

pub(crate) fn wrapped_counter(counter: i64) -> (c: u32)
    ensures
        c == sent_counter(counter),
{
    assert(counter as u32 == counter % 0x1_0000_0000) by (bit_vector);
    counter as u32
}

/// The session holds the secret ephemeral key `own` and the root key `root`.
pub open spec fn stands_at(entry: EntryView, own: Seq<u8>, root: Seq<u8>) -> bool {
    &&& decodes_to(entry.currentRatchet.ephemeralKeyPair.privKey, own)
    &&& decodes_to(entry.currentRatchet.rootKey, root)
}

/// What a turn brings, beyond the session itself. Its texts decode to their
/// keys, those of the chain that is closed included, and the new root key and
/// chain keys are texts of 32 bytes. And the other party
/// follows: one that stands at our new receiving root key, with the secret key
/// of `remote`, receives what we send under the new key pair with the chain
/// key that we send with, and comes to our new root key.
pub open spec fn turn_is_followed(
    entry: EntryView,
    name: Seq<char>,
    previous_counter: u32,
    seed: Seq<u8>,
    after: EntryView,
) -> bool {
    let remote = base64_bytes(name)->Ok_0;
    let (root, key) = receiving_keys(entry, remote)->Ok_0;
    let shared = x25519(seed, remote);
    let public = x25519_base(seed);
    &&& last_chain(entry) matches Some(chain) ==> fills(
        chain,
        previous_counter as i64,
        filled(chain, previous_counter as i64)->Ok_0,
    )
    &&& decodes_to(base64_text(key), key)
    &&& decodes_to(base64_text(public), public)
    &&& decodes_to(base64_text(next_chain(root, shared)), next_chain(root, shared))
    &&& stands_at(after, seed, next_root(root, shared))
    &&& after.currentRatchet.rootKey.len() == text_len(32)
    &&& base64_text(key).len() == text_len(32)
    &&& base64_text(next_chain(root, shared)).len() == text_len(32)
    &&& forall|peer: EntryView, own: Seq<u8>|
        own.len() == 32 && #[trigger] stands_at(peer, own, root) && remote == x25519_base(own)
            ==> receiving_keys(peer, public) == Ok::<(Seq<u8>, Seq<u8>), Seq<char>>(
            (next_root(root, shared), next_chain(root, shared)),
        )
}

/// What a step that fails leaves: where the remote key decodes and the
/// receiving chain in use can be closed, it is closed by then.
pub open spec fn left_by_failure(
    entry: EntryView,
    name: Seq<char>,
    previous_counter: u32,
) -> EntryView {
    match (base64_bytes(name), closed_chains(entry, previous_counter)) {
        (Ok(_), Ok(chains)) => EntryView { chains, ..entry },
        _ => entry,
    }
}

/// What `maybe_step_ratchet` does when `seed` is the new secret key.
pub open spec fn step_done(
    entry: EntryView,
    name: Seq<char>,
    previous_counter: u32,
    seed: Seq<u8>,
    result: Result<(), String>,
    after: EntryView,
) -> bool {
    match (result, stepped(entry, name, previous_counter, seed)) {
        (Ok(_), Ok(e)) => after == e && (!entry.chains.contains_key(name) ==> turn_is_followed(
            entry,
            name,
            previous_counter,
            seed,
            after,
        )),
        (Err(e), Err(m)) => e@ == m && after == left_by_failure(entry, name, previous_counter),
        _ => false,
    }
}

/// `drawn` is the given seed, or any seed when none is given.
pub open spec fn seed_of(given: Option<&[u8; 32]>, drawn: Seq<u8>) -> bool {
    drawn.len() == 32 && (given matches Some(s) ==> drawn == s@)
}

fn draw_seed(given: Option<&[u8; 32]>) -> (seed: [u8; 32])
    ensures
        seed_of(given, seed@),
{
    match given {
        Some(s) => *s,
        None => random_seed(),
    }
}

/// Turns the ratchet when there is no chain for the remote ephemeral key. The
/// new secret key is `seed`, or random.
pub(crate) fn maybe_step_ratchet(
    entry: &mut SessionEntry,
    remote_key_b64: &str,
    previous_counter: u32,
    seed: Option<&[u8; 32]>,
) -> (result: Result<(), String>)
    ensures
        exists|s: Seq<u8>| #[trigger]
            seed_of(seed, s) && step_done(
                old(entry)@,
                remote_key_b64@,
                previous_counter,
                s,
                result,
                final(entry)@,
            ),
{
    let ghost was = entry@;
    let ghost any: Seq<u8> = match seed {
        Some(s) => s@,
        None => Seq::new(32, |i: int| 0u8),
    };
    assert(seed_of(seed, any));
    if entry.chains.contains_key(remote_key_b64) {
        assert(step_done(was, remote_key_b64@, previous_counter, any, Ok(()), was));
        return Ok(());
    }
    let remote_key = match unb64(remote_key_b64) {
        Ok(k) => k,
        Err(e) => {
            assert(step_done(was, remote_key_b64@, previous_counter, any, Err(e), was));
            return Err(e);
        },
    };

    // The receiving chain in use is closed.
    if !entry.currentRatchet.lastRemoteEphemeralKey.as_str().is_empty() {
        let last = entry.currentRatchet.lastRemoteEphemeralKey.clone();
        if let Some(prev) = entry.chains.get(last.as_str()) {
            if prev.chainType == 0 {
                let mut chain = prev.clone();
                match fill_message_keys(&mut chain, previous_counter as i64) {
                    Ok(_) => {},
                    Err(e) => {
                        assert(step_done(was, remote_key_b64@, previous_counter, any, Err(e), was));
                        return Err(e);
                    },
                }
                chain.chainKey.key = String::new();
                entry.chains.insert(last, chain);
            }
        }
    }
    let ghost closed = entry@;
    assert(closed == left_by_failure(was, remote_key_b64@, previous_counter));

    // A receiving chain for the remote key.
    let own = match unb64(entry.currentRatchet.ephemeralKeyPair.privKey.as_str()) {
        Ok(k) => k,
        Err(e) => {
            assert(step_done(was, remote_key_b64@, previous_counter, any, Err(e), closed));
            return Err(e);
        },
    };
    let shared = match scalar_multiply(&own, &remote_key) {
        Ok(k) => k,
        Err(e) => {
            assert(step_done(was, remote_key_b64@, previous_counter, any, Err(e), closed));
            return Err(e);
        },
    };
    let root = match unb64(entry.currentRatchet.rootKey.as_str()) {
        Ok(k) => k,
        Err(e) => {
            assert(step_done(was, remote_key_b64@, previous_counter, any, Err(e), closed));
            return Err(e);
        },
    };
    let label = "WhisperRatchet";
    let received = derive_secrets_n(&shared, &root, label.as_bytes(), 2)?;

    // A new key pair and its sending chain.
    let drawn = draw_seed(seed);
    let (new_pub, new_priv) = generate_keypair(&drawn)?;
    let shared_send = scalar_multiply(&new_priv, &remote_key)?;
    let sent = derive_secrets_n(&shared_send, &received[0], label.as_bytes(), 2)?;

    entry.chains.insert(remote_key_b64.to_owned(), empty_chain(0, &received[1]));
    if let Some(old_send) = entry.chains.remove(
        entry.currentRatchet.ephemeralKeyPair.pubKey.as_str(),
    ) {
        if old_send.chainType == 1 {
            let counter: i64 = old_send.chainKey.counter;
            entry.currentRatchet.previousCounter = if counter > 0 {
                wrapped_counter(counter)
            } else {
                0
            };
        }
    }
    entry.currentRatchet.ephemeralKeyPair = KeyPair {
        pubKey: b64(&new_pub),
        privKey: b64(&new_priv),
    };
    entry.currentRatchet.lastRemoteEphemeralKey = remote_key_b64.to_owned();
    entry.currentRatchet.rootKey = b64(&sent[0]);
    entry.chains.insert(b64(&new_pub), empty_chain(1, &sent[1]));
    proof {
        let remote = remote_key@;
        let (r, k) = receiving_keys(was, remote)->Ok_0;
        assert(r == received@[0]@ && k == received@[1]@);
        assert(sent@[0]@ == next_root(r, x25519(drawn@, remote)));
        assert(sent@[1]@ == next_chain(r, x25519(drawn@, remote)));
        assert(entry@ =~= stepped(was, remote_key_b64@, previous_counter, drawn@)->Ok_0);
        assert(turn_is_followed(was, remote_key_b64@, previous_counter, drawn@, entry@));
        assert(step_done(was, remote_key_b64@, previous_counter, drawn@, Ok(()), entry@));
    }
    Ok(())
}

} // verus!
