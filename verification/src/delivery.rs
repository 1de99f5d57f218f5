//! What the ratchet promises of messages on their way from one record to
//! another.
use crate::chain::{
    chain_key_after, filled, goes_on, key_taken, law_key_taken, law_key_taken_once,
    lemma_offers_on, message_key, offers, offers_the_rest,
};
use crate::cipher::cbc_decrypted;
use crate::curve::{x25519, x25519_base};
use crate::map::{
    lemma_first_holds, lemma_first_only, lemma_first_replaced, lemma_first_unaffected,
};
use crate::proto::{
    law_pkmsg_round_trip, law_whisper_round_trip, pkmsg_bytes, whisper_bytes, PreKeyWhisperView,
    WhisperView,
};
use crate::ratchet::{
    body_encrypted, current_session, decrypted, derived_key, encrypted, frame_body, framed, mac,
    message_of, pkmsg_opened, pkmsg_unframed, prefixed, received_by, sending_chain, stripped,
    unframed, with_chain, with_entry, Received,
};
use crate::session::{has_open_session, is_open, ChainView, EntryView, RecordView};
use crate::turn::{
    closed_chains, fresh_chain, last_chain, next_chain, next_root, receiving_keys, sent_counter,
    stands_at, stepped, turn_is_followed,
};
use crate::util::{base64_bytes, base64_text, decodes_to};
use crate::wire::two64;
use vstd::prelude::*;

verus! {

// ---------------------------------------------------------------- states

/// The next message of `sender` is number `counter` of the sequence of keys
/// that starts with the chain key `start`. It goes out under the ephemeral
/// key `ephemeral`, with `previous` as the last counter of the chain before.
pub open spec fn speaks(
    sender: RecordView,
    ephemeral: Seq<u8>,
    previous: u32,
    start: Seq<u8>,
    counter: int,
) -> bool {
    match current_session(sender) {
        None => false,
        Some(at) => {
            let entry = sender.sessions[at];
            &&& decodes_to(entry.currentRatchet.ephemeralKeyPair.pubKey, ephemeral)
            &&& entry.currentRatchet.previousCounter == previous
            &&& match sending_chain(entry) {
                None => false,
                Some(c) => goes_on(entry.chains[c], start) && entry.chains[c].chainKey.counter + 1
                    == counter,
            }
        },
    }
}

/// `receiver` has, once it has turned the ratchet where it must, a chain for
/// the ephemeral key `ephemeral` that offers key `counter` of the sequence
/// `start`; and it knows the identity key `from`.
pub open spec fn hears(
    receiver: RecordView,
    from: Seq<u8>,
    ephemeral: Seq<u8>,
    previous: u32,
    start: Seq<u8>,
    counter: u32,
    seed: Seq<u8>,
) -> bool {
    match current_session(receiver) {
        None => false,
        Some(at) => {
            let name = base64_text(ephemeral);
            match stepped(receiver.sessions[at], name, previous, seed) {
                Err(_) => false,
                Ok(entry) => {
                    &&& entry.chains.contains_key(name)
                    &&& entry.chains[name].chainType == 0
                    &&& offers(entry.chains[name], start, counter as i64)
                    &&& decodes_to(entry.indexInfo.remoteIdentityKey, from)
                },
            }
        },
    }
}

/// The framed `WhisperMessage` inside what was sent.
pub open spec fn inner_message(message_type: u8, sent: Seq<u8>) -> Seq<u8> {
    if message_type == 3 {
        pkmsg_unframed(sent)->Ok_0.message
    } else {
        sent
    }
}

/// `sent` reaches everyone who hears it: with the identity keys the other way
/// round, every receiver decrypts it to `plaintext`. For one that is wrapped in
/// a `PreKeyWhisperMessage` the receiver must have an open session. The
/// message inside carries the sender's ephemeral key and counters.
pub open spec fn delivers(
    sender: RecordView,
    from: Seq<u8>,
    to: Seq<u8>,
    plaintext: Seq<u8>,
    message_type: u8,
    sent: Seq<u8>,
) -> bool {
    forall|
        receiver: RecordView,
        ephemeral: Seq<u8>,
        previous: u32,
        start: Seq<u8>,
        counter: u32,
        seed: Seq<u8>,
    |
        ephemeral.len() == 32 && #[trigger] speaks(
            sender,
            ephemeral,
            previous,
            start,
            counter as int,
        ) && #[trigger] hears(receiver, from, ephemeral, previous, start, counter, seed) && (
        message_type == 3 ==> has_open_session(receiver)) ==> {
            let got = if message_type == 3 {
                pkmsg_opened(receiver, sent, to, seed)
            } else {
                decrypted(receiver, sent, to, seed)
            };
            let inner = unframed(inner_message(message_type, sent));
            &&& got matches Ok(r) && r.plaintext == plaintext
            &&& inner matches Ok(m) && stripped(m.ephemeral_key) == ephemeral && m.counter
                == counter && m.previous_counter == previous
        }
}

/// After it received `data`, the receiver still hears every other message of
/// the same sequence that it heard before, in whatever order they come.
pub open spec fn keeps_hearing(
    receiver: RecordView,
    data: Seq<u8>,
    seed: Seq<u8>,
    after: RecordView,
) -> bool {
    unframed(data) matches Ok(m) && {
        let ephemeral = stripped(m.ephemeral_key);
        forall|
            from: Seq<u8>,
            start: Seq<u8>,
            counter: u32,
            previous: u32,
            next_seed: Seq<u8>,
        |
            counter != m.counter && #[trigger] hears(
                receiver,
                from,
                ephemeral,
                m.previous_counter,
                start,
                counter,
                seed,
            ) ==> #[trigger] hears(
                after,
                from,
                ephemeral,
                previous,
                start,
                counter,
                next_seed,
            )
    }
}

/// The name of the chain for the ephemeral key of `data` decodes to that key;
/// and when `data` turned the ratchet of `receiver`, the other party can
/// follow the turn.
pub open spec fn turn_followed(receiver: RecordView, data: Seq<u8>, seed: Seq<u8>) -> bool {
    unframed(data) matches Ok(m) && current_session(receiver) matches Some(at) && {
        let entry = receiver.sessions[at];
        let name = base64_text(stripped(m.ephemeral_key));
        &&& decodes_to(name, stripped(m.ephemeral_key))
        &&& entry.chains.contains_key(name) || turn_is_followed(
            entry,
            name,
            m.previous_counter,
            seed,
            stepped(entry, name, m.previous_counter, seed)->Ok_0,
        )
    }
}

/// `key` seals: what it encrypted decrypts again, and the parts of the frame
/// have their lengths.
pub open spec fn seals(
    key: Seq<u8>,
    from: Seq<u8>,
    to: Seq<u8>,
    m: WhisperView,
    plaintext: Seq<u8>,
) -> bool {
    &&& m.ciphertext == body_encrypted(key, plaintext)
    &&& m.ciphertext.len() < two64()
    &&& mac(key, from, to, whisper_bytes(m)).len() == 8
    &&& cbc_decrypted(derived_key(key, 0), derived_key(key, 2).take(16), m.ciphertext) == Ok::<
        Seq<u8>,
        Seq<char>,
    >(plaintext)
}

/// A sealed message decrypts to its plaintext at every receiver that hears
/// it.
pub proof fn lemma_delivered(
    receiver: RecordView,
    from: Seq<u8>,
    to: Seq<u8>,
    ephemeral: Seq<u8>,
    start: Seq<u8>,
    seed: Seq<u8>,
    m: WhisperView,
    plaintext: Seq<u8>,
)
    requires
        ephemeral.len() == 32,
        hears(receiver, from, ephemeral, m.previous_counter, start, m.counter, seed),
        m.ephemeral_key == prefixed(ephemeral),
        seals(message_key(start, m.counter as nat), from, to, m, plaintext),
    ensures
        decrypted(
            receiver,
            framed(message_key(start, m.counter as nat), from, to, m),
            to,
            seed,
        ) matches Ok(r) && r.plaintext == plaintext,
        unframed(framed(message_key(start, m.counter as nat), from, to, m)) == Ok::<
            WhisperView,
            Seq<char>,
        >(m),
        stripped(m.ephemeral_key) == ephemeral,
{
    let key = message_key(start, m.counter as nat);
    let body = whisper_bytes(m);
    let code = mac(key, from, to, body);
    let data = framed(key, from, to, m);
    assert(frame_body(data) =~= body);
    assert(data.skip(data.len() - 8) =~= code);
    law_whisper_round_trip(m);
    assert(stripped(prefixed(ephemeral)) =~= ephemeral);
    let at = current_session(receiver)->Some_0;
    let name = base64_text(ephemeral);
    let entry = stepped(receiver.sessions[at], name, m.previous_counter, seed)->Ok_0;
    law_key_taken(entry.chains[name], start, m.counter as i64);
}

/// The same for a `PreKeyWhisperMessage` around the message.
pub proof fn lemma_pkmsg_delivered(
    receiver: RecordView,
    to: Seq<u8>,
    seed: Seq<u8>,
    m: PreKeyWhisperView,
)
    requires
        has_open_session(receiver),
        m.base_key.len() < two64(),
        m.identity_key.len() < two64(),
        m.message.len() < two64(),
    ensures
        pkmsg_opened(receiver, seq![0x33u8] + pkmsg_bytes(m), to, seed) == decrypted(
            receiver,
            m.message,
            to,
            seed,
        ),
        inner_message(3, seq![0x33u8] + pkmsg_bytes(m)) == m.message,
{
    law_pkmsg_round_trip(m);
    assert((seq![0x33u8] + pkmsg_bytes(m)).skip(1) =~= pkmsg_bytes(m));
}

/// What receiving a message leaves audible.
pub proof fn lemma_keeps_hearing(
    receiver: RecordView,
    data: Seq<u8>,
    our_identity: Seq<u8>,
    seed: Seq<u8>,
)
    requires
        decrypted(receiver, data, our_identity, seed) is Ok,
        ({
            let m = unframed(data)->Ok_0;
            let name = base64_text(stripped(m.ephemeral_key));
            let at = current_session(receiver)->Some_0;
            let entry = stepped(receiver.sessions[at], name, m.previous_counter, seed)->Ok_0;
            let after = decrypted(receiver, data, our_identity, seed)->Ok_0.session.sessions[at];
            offers_the_rest(entry.chains[name], m.counter as i64, after.chains[name])
        }),
    ensures
        keeps_hearing(
            receiver,
            data,
            seed,
            decrypted(receiver, data, our_identity, seed)->Ok_0.session,
        ),
{
    let m = unframed(data)->Ok_0;
    let ephemeral = stripped(m.ephemeral_key);
    let name = base64_text(ephemeral);
    let at = current_session(receiver)->Some_0;
    let entry = stepped(receiver.sessions[at], name, m.previous_counter, seed)->Ok_0;
    let after = decrypted(receiver, data, our_identity, seed)->Ok_0.session;
    lemma_current_stays(receiver, after.sessions[at]);
    assert forall|
        from: Seq<u8>,
        start: Seq<u8>,
        counter: u32,
        previous: u32,
        next_seed: Seq<u8>,
    |
        counter != m.counter && #[trigger] hears(
            receiver,
            from,
            ephemeral,
            m.previous_counter,
            start,
            counter,
            seed,
        ) implies #[trigger] hears(
        after,
        from,
        ephemeral,
        previous,
        start,
        counter,
        next_seed,
    ) by {
        assert(offers(entry.chains[name], start, counter as i64));
    }
}

/// Replacing the current session leaves it the current one.
pub proof fn lemma_current_stays(record: RecordView, entry: EntryView)
    requires
        current_session(record) is Some,
    ensures
        record.sessions.contains_key(current_session(record)->Some_0),
        current_session(with_entry(record, current_session(record)->Some_0, entry))
            == current_session(record),
{
    lemma_first_holds(record.sessions, |e: EntryView| true);
    lemma_first_replaced(
        record.sessions,
        |e: EntryView| true,
        current_session(record)->Some_0,
        entry,
    );
}

/// A session that keeps its index keeps open what is open.
proof fn lemma_open_stays(record: RecordView, entry: EntryView)
    requires
        current_session(record) is Some,
        entry.indexInfo == record.sessions[current_session(record)->Some_0].indexInfo,
    ensures
        has_open_session(with_entry(record, current_session(record)->Some_0, entry))
            == has_open_session(record),
{
    let at = current_session(record)->Some_0;
    let after = with_entry(record, at, entry);
    lemma_current_stays(record, entry);
    if has_open_session(record) {
        let k = choose|k: Seq<char>| #[trigger]
            record.sessions.contains_key(k) && is_open(record.sessions[k]);
        assert(after.sessions.contains_key(k) && is_open(after.sessions[k]));
    }
    if has_open_session(after) {
        let k = choose|k: Seq<char>| #[trigger]
            after.sessions.contains_key(k) && is_open(after.sessions[k]);
        assert(record.sessions.contains_key(k) && is_open(record.sessions[k]));
    }
}

/// Replacing the sending chain by another sending chain leaves it the one
/// that is sent with.
pub proof fn lemma_sending_stays(entry: EntryView, chain: ChainView)
    requires
        sending_chain(entry) is Some,
        chain.chainType == 1,
    ensures
        entry.chains.contains_key(sending_chain(entry)->Some_0),
        entry.chains[sending_chain(entry)->Some_0].chainType == 1,
        sending_chain(with_chain(entry, sending_chain(entry)->Some_0, chain)) == sending_chain(
            entry,
        ),
{
    lemma_first_holds(entry.chains, |c: ChainView| c.chainType == 1);
    lemma_first_replaced(
        entry.chains,
        |c: ChainView| c.chainType == 1,
        sending_chain(entry)->Some_0,
        chain,
    );
}

/// A message of the current session whose parts are sound is delivered.
pub proof fn lemma_sent_delivers(
    sender: RecordView,
    plaintext: Seq<u8>,
    from: Seq<u8>,
    to: Seq<u8>,
    registration_id: u32,
)
    requires
        encrypted(sender, plaintext, from, to, registration_id) is Ok,
        ({
            let entry = sender.sessions[current_session(sender)->Some_0];
            let ephemeral = base64_bytes(entry.currentRatchet.ephemeralKeyPair.pubKey)->Ok_0;
            let chain = entry.chains[sending_chain(entry)->Some_0];
            let counter = (chain.chainKey.counter + 1) as i64;
            let key = key_taken(chain, counter)->Ok_0.1;
            let m = message_of(entry, ephemeral, counter, key, plaintext);
            &&& chain.chainKey.counter < i64::MAX
            &&& seals(key, from, to, m, plaintext)
            &&& framed(key, from, to, m).len() < two64()
            &&& from.len() < two64()
            &&& entry.pendingPreKey matches Some(p) ==> prefixed(
                base64_bytes(p.baseKey)->Ok_0,
            ).len() < two64()
        }),
    ensures
        ({
            let sent = encrypted(sender, plaintext, from, to, registration_id)->Ok_0;
            delivers(sender, from, to, plaintext, sent.message_type, sent.ciphertext)
        }),
{
    let sent = encrypted(sender, plaintext, from, to, registration_id)->Ok_0;
    let entry = sender.sessions[current_session(sender)->Some_0];
    let own = base64_bytes(entry.currentRatchet.ephemeralKeyPair.pubKey)->Ok_0;
    let chain = entry.chains[sending_chain(entry)->Some_0];
    let next = (chain.chainKey.counter + 1) as i64;
    let key = key_taken(chain, next)->Ok_0.1;
    let m = message_of(entry, own, next, key, plaintext);
    assert forall|
        receiver: RecordView,
        ephemeral: Seq<u8>,
        previous: u32,
        start: Seq<u8>,
        counter: u32,
        seed: Seq<u8>,
    |
        ephemeral.len() == 32 && #[trigger] speaks(
            sender,
            ephemeral,
            previous,
            start,
            counter as int,
        ) && #[trigger] hears(receiver, from, ephemeral, previous, start, counter, seed) && (
        sent.message_type == 3 ==> has_open_session(receiver)) implies {
        let got = if sent.message_type == 3 {
            pkmsg_opened(receiver, sent.ciphertext, to, seed)
        } else {
            decrypted(receiver, sent.ciphertext, to, seed)
        };
        let inner = unframed(inner_message(sent.message_type, sent.ciphertext));
        &&& got matches Ok(r) && r.plaintext == plaintext
        &&& inner matches Ok(m) && stripped(m.ephemeral_key) == ephemeral && m.counter == counter
            && m.previous_counter == previous
    } by {
        law_key_taken(chain, start, next);
        assert(next == counter);
        assert(sent_counter(next) == counter);
        lemma_delivered(receiver, from, to, ephemeral, start, seed, m, plaintext);
        if let Some(pending) = entry.pendingPreKey {
            lemma_pkmsg_delivered(
                receiver,
                to,
                seed,
                PreKeyWhisperView {
                    pre_key_id: pending.preKeyId,
                    base_key: prefixed(base64_bytes(pending.baseKey)->Ok_0),
                    identity_key: from,
                    message: framed(key, from, to, m),
                    registration_id,
                    signed_pre_key_id: pending.signedKeyId,
                },
            );
        }
    }
}

/// After a message the sender speaks on with the next one.
pub proof fn lemma_speaks_on(
    sender: RecordView,
    plaintext: Seq<u8>,
    from: Seq<u8>,
    to: Seq<u8>,
    registration_id: u32,
)
    requires
        encrypted(sender, plaintext, from, to, registration_id) is Ok,
        ({
            let entry = sender.sessions[current_session(sender)->Some_0];
            let chain = entry.chains[sending_chain(entry)->Some_0];
            let counter = (chain.chainKey.counter + 1) as i64;
            let after = key_taken(chain, counter)->Ok_0.0;
            &&& chain.chainKey.counter < i64::MAX
            &&& offers_the_rest(chain, counter, after)
        }),
    ensures
        forall|ephemeral: Seq<u8>, previous: u32, start: Seq<u8>, counter: int| #[trigger]
            speaks(sender, ephemeral, previous, start, counter) ==> speaks(
                encrypted(sender, plaintext, from, to, registration_id)->Ok_0.session,
                ephemeral,
                previous,
                start,
                counter + 1,
            ),
{
    let entry = sender.sessions[current_session(sender)->Some_0];
    let c = sending_chain(entry)->Some_0;
    let chain = entry.chains[c];
    let after = key_taken(chain, (chain.chainKey.counter + 1) as i64)->Ok_0.0;
    lemma_first_holds(entry.chains, |x: ChainView| x.chainType == 1);
    lemma_sending_stays(entry, after);
    lemma_current_stays(sender, with_chain(entry, c, after));
}

// ---------------------------------------------------------------- laws

/// Sending moves the sending chain one message on and changes nothing else:
/// neither other sessions, nor other chains, nor the pending prekey, nor what
/// is open.
pub proof fn law_sending_advances(
    record: RecordView,
    plaintext: Seq<u8>,
    our_identity: Seq<u8>,
    remote_identity: Seq<u8>,
    registration_id: u32,
)
    requires
        encrypted(record, plaintext, our_identity, remote_identity, registration_id) is Ok,
        record.sessions[current_session(record)->Some_0].chains[sending_chain(
            record.sessions[current_session(record)->Some_0],
        )->Some_0].chainKey.counter < i64::MAX,
    ensures
        ({
            let after = encrypted(
                record,
                plaintext,
                our_identity,
                remote_identity,
                registration_id,
            )->Ok_0.session;
            let at = current_session(record)->Some_0;
            let (e, f) = (record.sessions[at], after.sessions[at]);
            let c = sending_chain(e)->Some_0;
            &&& current_session(after) == Some(at)
            &&& after.version == record.version
            &&& after.sessions.remove(at) == record.sessions.remove(at)
            &&& f == EntryView { chains: f.chains, ..e }
            &&& sending_chain(f) == Some(c)
            &&& f.chains.contains_key(c)
            &&& f.chains[c].chainType == 1
            &&& f.chains.remove(c) == e.chains.remove(c)
            &&& f.chains[c].chainKey.counter == e.chains[c].chainKey.counter + 1
            &&& has_open_session(after) == has_open_session(record)
        }),
{
    let at = current_session(record)->Some_0;
    let e = record.sessions[at];
    let c = sending_chain(e)->Some_0;
    let counter = (e.chains[c].chainKey.counter + 1) as i64;
    let chain = key_taken(e.chains[c], counter)->Ok_0.0;
    lemma_first_holds(e.chains, |x: ChainView| x.chainType == 1);
    lemma_sending_stays(e, chain);
    let f = with_chain(e, c, chain);
    lemma_current_stays(record, f);
    lemma_open_stays(record, f);
    assert(record.sessions.insert(at, f).remove(at) =~= record.sessions.remove(at));
    assert(e.chains.insert(c, chain).remove(c) =~= e.chains.remove(c));
}

/// A message goes out as a `PreKeyWhisperMessage` exactly as long as the
/// other party has not answered.
pub proof fn law_prekey_message_until_answered(
    record: RecordView,
    plaintext: Seq<u8>,
    our_identity: Seq<u8>,
    remote_identity: Seq<u8>,
    registration_id: u32,
)
    requires
        encrypted(record, plaintext, our_identity, remote_identity, registration_id) is Ok,
    ensures
        ({
            let sent = encrypted(
                record,
                plaintext,
                our_identity,
                remote_identity,
                registration_id,
            )->Ok_0;
            let pending = record.sessions[current_session(record)->Some_0].pendingPreKey;
            &&& sent.message_type == if pending is Some {
                3u8
            } else {
                1u8
            }
            &&& sent.session.sessions[current_session(record)->Some_0].pendingPreKey == pending
        }),
{
}

/// An answer ends the pending prekey: after a message was received, nothing
/// is pending. Other sessions, and what is open, are untouched.
pub proof fn law_receiving_settles(
    record: RecordView,
    data: Seq<u8>,
    our_identity: Seq<u8>,
    seed: Seq<u8>,
)
    requires
        decrypted(record, data, our_identity, seed) is Ok,
    ensures
        ({
            let after = decrypted(record, data, our_identity, seed)->Ok_0.session;
            let at = current_session(record)->Some_0;
            &&& current_session(after) == Some(at)
            &&& after.sessions[at].pendingPreKey is None
            &&& after.sessions[at].indexInfo == record.sessions[at].indexInfo
            &&& after.sessions[at].registrationId == record.sessions[at].registrationId
            &&& after.version == record.version
            &&& after.sessions.remove(at) == record.sessions.remove(at)
            &&& has_open_session(after) == has_open_session(record)
        }),
{
    let after = decrypted(record, data, our_identity, seed)->Ok_0.session;
    let at = current_session(record)->Some_0;
    lemma_current_stays(record, after.sessions[at]);
    lemma_open_stays(record, after.sessions[at]);
    assert(after.sessions.remove(at) =~= record.sessions.remove(at));
}

/// Receiving touches the chain of the message. Where it turns the ratchet, it
/// touches besides the receiving chain in use and the chains of our old and
/// our new key; every other chain stays as it is.
pub proof fn law_other_chains_untouched(
    record: RecordView,
    data: Seq<u8>,
    our_identity: Seq<u8>,
    seed: Seq<u8>,
    other: Seq<char>,
)
    requires
        decrypted(record, data, our_identity, seed) is Ok,
        ({
            let entry = record.sessions[current_session(record)->Some_0];
            let name = base64_text(stripped(unframed(data)->Ok_0.ephemeral_key));
            &&& other != name
            &&& entry.chains.contains_key(name) || {
                &&& other != entry.currentRatchet.lastRemoteEphemeralKey
                &&& other != entry.currentRatchet.ephemeralKeyPair.pubKey
                &&& other != base64_text(x25519_base(seed))
            }
        }),
    ensures
        ({
            let at = current_session(record)->Some_0;
            let after_all = decrypted(record, data, our_identity, seed)->Ok_0.session;
            let before = record.sessions[at].chains;
            let after = after_all.sessions[at].chains;
            &&& after.contains_key(other) == before.contains_key(other)
            &&& before.contains_key(other) ==> after[other] == before[other]
        }),
{
    let m = unframed(data)->Ok_0;
    let at = current_session(record)->Some_0;
    let after = decrypted(record, data, our_identity, seed)->Ok_0.session;
    lemma_current_stays(record, after.sessions[at]);
}

/// A message is received once: the record that received it rejects it from
/// then on.
pub proof fn law_replay_rejected(
    record: RecordView,
    data: Seq<u8>,
    our_identity: Seq<u8>,
    seed: Seq<u8>,
    again: Seq<u8>,
)
    requires
        decrypted(record, data, our_identity, seed) is Ok,
    ensures
        decrypted(
            decrypted(record, data, our_identity, seed)->Ok_0.session,
            data,
            our_identity,
            again,
        ) == Err::<Received, Seq<char>>("message key not found"@),
{
    let m = unframed(data)->Ok_0;
    let at = current_session(record)->Some_0;
    let name = base64_text(stripped(m.ephemeral_key));
    let entry = stepped(record.sessions[at], name, m.previous_counter, seed)->Ok_0;
    let after = received_by(entry, name, data, m, our_identity)->Ok_0.0;
    lemma_current_stays(record, after);
    law_key_taken_once(entry.chains[name], m.counter as i64);
}

/// A `PreKeyWhisperMessage` is received once, too.
pub proof fn law_prekey_replay_rejected(
    record: RecordView,
    data: Seq<u8>,
    our_identity: Seq<u8>,
    seed: Seq<u8>,
    again: Seq<u8>,
)
    requires
        pkmsg_opened(record, data, our_identity, seed) is Ok,
    ensures
        pkmsg_opened(
            pkmsg_opened(record, data, our_identity, seed)->Ok_0.session,
            data,
            our_identity,
            again,
        ) == Err::<Received, Seq<char>>("message key not found"@),
{
    let message = pkmsg_unframed(data)->Ok_0.message;
    let after = decrypted(record, message, our_identity, seed)->Ok_0.session;
    law_replay_rejected(record, message, our_identity, seed, again);
    law_receiving_settles(record, message, our_identity, seed);
}

/// A message whose code was changed is rejected, whatever it was changed to.
pub proof fn law_changed_code_rejected(
    record: RecordView,
    data: Seq<u8>,
    changed: Seq<u8>,
    our_identity: Seq<u8>,
    seed: Seq<u8>,
)
    requires
        decrypted(record, data, our_identity, seed) is Ok,
        changed.len() == data.len(),
        changed.take(data.len() - 8) == data.take(data.len() - 8),
        changed != data,
    ensures
        decrypted(record, changed, our_identity, seed) == Err::<Received, Seq<char>>(
            "MAC verification failed"@,
        ),
{
    let n = data.len() - 8;
    assert(frame_body(changed) =~= changed.take(n).skip(1));
    assert(frame_body(data) =~= data.take(n).skip(1));
    assert(changed[0] == changed.take(n)[0]);
    assert(data[0] == data.take(n)[0]);
    if changed.skip(n) == data.skip(n) {
        assert(changed =~= changed.take(n) + changed.skip(n));
        assert(data =~= data.take(n) + data.skip(n));
    }
}

/// What is received does not depend on the key that a turn of the ratchet
/// brings, as long as that is not the other party's own ephemeral key.
pub proof fn law_plaintext_independent_of_seed(
    record: RecordView,
    data: Seq<u8>,
    our_identity: Seq<u8>,
    a: Seq<u8>,
    b: Seq<u8>,
)
    requires
        unframed(data) matches Ok(m) ==> base64_text(x25519_base(a)) != base64_text(
            stripped(m.ephemeral_key),
        ) && base64_text(x25519_base(b)) != base64_text(stripped(m.ephemeral_key)),
    ensures
        match (decrypted(record, data, our_identity, a), decrypted(record, data, our_identity, b)) {
            (Ok(x), Ok(y)) => x.plaintext == y.plaintext,
            (Err(x), Err(y)) => x == y,
            _ => false,
        },
{
}

/// The session sends with the chain of its current key pair and no other.
pub open spec fn sends_with_current_key(entry: EntryView) -> bool {
    forall|k: Seq<char>| #[trigger]
        entry.chains.contains_key(k) && entry.chains[k].chainType == 1 ==> k
            == entry.currentRatchet.ephemeralKeyPair.pubKey
}

/// The ratchet turns in step. When a message turns the receiver's ratchet, the
/// receiver's next message is the first of a new sequence; and the party that
/// holds the secret key of the message's ephemeral key, at the root key that
/// the receiver came to, hears that sequence up to its first 2000 messages. To
/// receive it, the other party comes to the root key that the receiver then
/// stands at, so that the next turn finds them in step again.
/// Three coincidences are left out: that the new key pair is the other
/// party's, that the other party's next key pair is the new one, and that the
/// other party already has a chain under the new key.
pub proof fn law_turn_is_heard(
    record: RecordView,
    data: Seq<u8>,
    our_identity: Seq<u8>,
    seed: Seq<u8>,
    peer: RecordView,
    own: Seq<u8>,
    counter: u32,
    peer_seed: Seq<u8>,
)
    requires
        decrypted(record, data, our_identity, seed) is Ok,
        turn_followed(record, data, seed),
        ({
            let m = unframed(data)->Ok_0;
            let entry = record.sessions[current_session(record)->Some_0];
            let remote = stripped(m.ephemeral_key);
            let name = base64_text(remote);
            let new_name = base64_text(x25519_base(seed));
            let after = decrypted(record, data, our_identity, seed)->Ok_0.session;
            let previous =
                after.sessions[current_session(record)->Some_0].currentRatchet.previousCounter;
            &&& !entry.chains.contains_key(name)
            &&& sends_with_current_key(entry)
            &&& new_name != name
            &&& match current_session(peer) {
                None => false,
                Some(at) => {
                    let other = peer.sessions[at];
                    &&& own.len() == 32
                    &&& remote == x25519_base(own)
                    &&& stands_at(other, own, receiving_keys(entry, remote)->Ok_0.0)
                    &&& decodes_to(other.indexInfo.remoteIdentityKey, our_identity)
                    &&& closed_chains(other, previous) is Ok
                    &&& !other.chains.contains_key(new_name)
                    &&& other.currentRatchet.ephemeralKeyPair.pubKey != new_name
                }
            }
            &&& base64_text(x25519_base(peer_seed)) != new_name
            &&& counter < 2000
        }),
    ensures
        ({
            let m = unframed(data)->Ok_0;
            let entry = record.sessions[current_session(record)->Some_0];
            let remote = stripped(m.ephemeral_key);
            let after = decrypted(record, data, our_identity, seed)->Ok_0.session;
            let previous =
                after.sessions[current_session(record)->Some_0].currentRatchet.previousCounter;
            let root = receiving_keys(entry, remote)->Ok_0.0;
            let start = next_chain(root, x25519(seed, remote));
            let next = next_root(root, x25519(seed, remote));
            &&& stands_at(after.sessions[current_session(record)->Some_0], seed, next)
            &&& receiving_keys(
                peer.sessions[current_session(peer)->Some_0],
                x25519_base(seed),
            ) == Ok::<(Seq<u8>, Seq<u8>), Seq<char>>((next, start))
            &&& speaks(after, x25519_base(seed), previous, start, 0)
            &&& hears(
                peer,
                our_identity,
                x25519_base(seed),
                previous,
                start,
                counter,
                peer_seed,
            )
        }),
{
    let m = unframed(data)->Ok_0;
    let at = current_session(record)->Some_0;
    let entry = record.sessions[at];
    let remote = stripped(m.ephemeral_key);
    let name = base64_text(remote);
    let new_name = base64_text(x25519_base(seed));
    let turned = stepped(entry, name, m.previous_counter, seed)->Ok_0;
    let after = decrypted(record, data, our_identity, seed)->Ok_0.session;
    let f = after.sessions[at];
    let root = receiving_keys(entry, remote)->Ok_0.0;
    let start = next_chain(root, x25519(seed, remote));
    lemma_current_stays(record, f);
    assert(turn_is_followed(entry, name, m.previous_counter, seed, turned));

    let fresh = fresh_chain(1, start);
    assert(f.chains[new_name] == fresh);
    assert(chain_key_after(start, 0) == start);
    assert forall|k: Seq<char>| #[trigger]
        f.chains.contains_key(k) && f.chains[k].chainType == 1 implies k == new_name by {
        if k != new_name && k != name {
            let closed = closed_chains(entry, m.previous_counter)->Ok_0;
            assert(closed.contains_key(k) && closed[k] == f.chains[k]);
            assert(entry.chains.contains_key(k) && entry.chains[k].chainType == 1);
        }
    }
    lemma_first_only(f.chains, |c: ChainView| c.chainType == 1, new_name);
    assert(goes_on(fresh, start));
}

/// Late messages are heard: a turn of the ratchet closes the receiving chain
/// in use, but the messages of that chain up to the last counter that the
/// other party used stay audible, however late they come. Left out is the
/// coincidence that the chain stands under one of our own keys.
pub proof fn law_late_messages_heard(
    record: RecordView,
    data: Seq<u8>,
    our_identity: Seq<u8>,
    seed: Seq<u8>,
    from: Seq<u8>,
    ephemeral: Seq<u8>,
    start: Seq<u8>,
    counter: u32,
    previous: u32,
    next_seed: Seq<u8>,
)
    requires
        decrypted(record, data, our_identity, seed) is Ok,
        turn_followed(record, data, seed),
        ({
            let m = unframed(data)->Ok_0;
            let entry = record.sessions[current_session(record)->Some_0];
            let last = entry.currentRatchet.lastRemoteEphemeralKey;
            &&& !entry.chains.contains_key(base64_text(stripped(m.ephemeral_key)))
            &&& last == base64_text(ephemeral)
            &&& match last_chain(entry) {
                None => false,
                Some(chain) => offers(chain, start, counter as i64) && (counter
                    <= m.previous_counter || counter <= chain.chainKey.counter),
            }
            &&& last != entry.currentRatchet.ephemeralKeyPair.pubKey
            &&& last != base64_text(x25519_base(seed))
            &&& decodes_to(entry.indexInfo.remoteIdentityKey, from)
        }),
    ensures
        hears(
            decrypted(record, data, our_identity, seed)->Ok_0.session,
            from,
            ephemeral,
            previous,
            start,
            counter,
            next_seed,
        ),
{
    let m = unframed(data)->Ok_0;
    let at = current_session(record)->Some_0;
    let entry = record.sessions[at];
    let last = base64_text(ephemeral);
    let name = base64_text(stripped(m.ephemeral_key));
    let after = decrypted(record, data, our_identity, seed)->Ok_0.session;
    lemma_current_stays(record, after.sessions[at]);
    let chain = last_chain(entry)->Some_0;
    let full = filled(chain, m.previous_counter as i64)->Ok_0;
    let turned = stepped(entry, name, m.previous_counter, seed)->Ok_0;
    assert(turn_is_followed(entry, name, m.previous_counter, seed, turned));
    lemma_offers_on(chain, full, m.previous_counter as i64, start, counter as i64);
    let closed = after.sessions[at].chains[last];
    assert(closed.messageKeys == full.messageKeys);
    assert(closed.chainKey.counter == full.chainKey.counter);
}

/// Sending leaves it so that the session sends with the chain of its current
/// key pair and no other.
pub proof fn law_sending_keeps_to_current_key(
    record: RecordView,
    plaintext: Seq<u8>,
    our_identity: Seq<u8>,
    remote_identity: Seq<u8>,
    registration_id: u32,
)
    requires
        encrypted(record, plaintext, our_identity, remote_identity, registration_id) is Ok,
        sends_with_current_key(record.sessions[current_session(record)->Some_0]),
    ensures
        ({
            let after = encrypted(
                record,
                plaintext,
                our_identity,
                remote_identity,
                registration_id,
            )->Ok_0.session;
            &&& current_session(after) == current_session(record)
            &&& sends_with_current_key(after.sessions[current_session(record)->Some_0])
        }),
{
    let at = current_session(record)->Some_0;
    let e = record.sessions[at];
    let after = encrypted(
        record,
        plaintext,
        our_identity,
        remote_identity,
        registration_id,
    )->Ok_0.session;
    let f = after.sessions[at];
    lemma_current_stays(record, f);
    lemma_first_holds(e.chains, |x: ChainView| x.chainType == 1);
    assert forall|k: Seq<char>| #[trigger]
        f.chains.contains_key(k) && f.chains[k].chainType == 1 implies k
        == f.currentRatchet.ephemeralKeyPair.pubKey by {
        assert(e.chains.contains_key(k) && e.chains[k].chainType == 1);
    }
}

/// So does receiving, with or without a turn of the ratchet.
pub proof fn law_receiving_keeps_to_current_key(
    record: RecordView,
    data: Seq<u8>,
    our_identity: Seq<u8>,
    seed: Seq<u8>,
)
    requires
        decrypted(record, data, our_identity, seed) is Ok,
        sends_with_current_key(record.sessions[current_session(record)->Some_0]),
    ensures
        ({
            let after = decrypted(record, data, our_identity, seed)->Ok_0.session;
            &&& current_session(after) == current_session(record)
            &&& sends_with_current_key(after.sessions[current_session(record)->Some_0])
        }),
{
    let m = unframed(data)->Ok_0;
    let at = current_session(record)->Some_0;
    let entry = record.sessions[at];
    let name = base64_text(stripped(m.ephemeral_key));
    let new_name = base64_text(x25519_base(seed));
    let after = decrypted(record, data, our_identity, seed)->Ok_0.session;
    let f = after.sessions[at];
    lemma_current_stays(record, f);
    assert forall|k: Seq<char>| #[trigger]
        f.chains.contains_key(k) && f.chains[k].chainType == 1 implies k
        == f.currentRatchet.ephemeralKeyPair.pubKey by {
        if entry.chains.contains_key(name) {
            assert(entry.chains.contains_key(k) && entry.chains[k].chainType == 1);
        } else if k != new_name && k != name {
            let closed = closed_chains(entry, m.previous_counter)->Ok_0;
            assert(closed.contains_key(k) && closed[k] == f.chains[k]);
            assert(entry.chains.contains_key(k) && entry.chains[k].chainType == 1);
        }
    }
}

/// Receiving without a turn of the ratchet leaves the keys of the ratchet as
/// they are, and the next message that goes out what it was.
pub proof fn law_receiving_leaves_speech(
    record: RecordView,
    data: Seq<u8>,
    our_identity: Seq<u8>,
    seed: Seq<u8>,
    ephemeral: Seq<u8>,
    previous: u32,
    start: Seq<u8>,
    counter: int,
)
    requires
        decrypted(record, data, our_identity, seed) is Ok,
        record.sessions[current_session(record)->Some_0].chains.contains_key(
            base64_text(stripped(unframed(data)->Ok_0.ephemeral_key)),
        ),
        speaks(record, ephemeral, previous, start, counter),
    ensures
        speaks(
            decrypted(record, data, our_identity, seed)->Ok_0.session,
            ephemeral,
            previous,
            start,
            counter,
        ),
        ({
            let at = current_session(record)->Some_0;
            let after = decrypted(record, data, our_identity, seed)->Ok_0.session;
            after.sessions[at].currentRatchet == record.sessions[at].currentRatchet
        }),
{
    let m = unframed(data)->Ok_0;
    let at = current_session(record)->Some_0;
    let entry = record.sessions[at];
    let name = base64_text(stripped(m.ephemeral_key));
    let f = decrypted(record, data, our_identity, seed)->Ok_0.session.sessions[at];
    lemma_current_stays(record, f);
    lemma_first_unaffected(
        entry.chains,
        |x: ChainView| x.chainType == 1,
        name,
        f.chains[name],
    );
}

/// Sending leaves audible what is audible, whether or not hearing it turns the
/// ratchet.
pub proof fn law_sending_leaves_hearing(
    record: RecordView,
    plaintext: Seq<u8>,
    our_identity: Seq<u8>,
    remote_identity: Seq<u8>,
    registration_id: u32,
    from: Seq<u8>,
    ephemeral: Seq<u8>,
    previous: u32,
    start: Seq<u8>,
    counter: u32,
    seed: Seq<u8>,
)
    requires
        encrypted(record, plaintext, our_identity, remote_identity, registration_id) is Ok,
        hears(record, from, ephemeral, previous, start, counter, seed),
    ensures
        hears(
            encrypted(
                record,
                plaintext,
                our_identity,
                remote_identity,
                registration_id,
            )->Ok_0.session,
            from,
            ephemeral,
            previous,
            start,
            counter,
            seed,
        ),
{
    let at = current_session(record)->Some_0;
    let e = record.sessions[at];
    let c = sending_chain(e)->Some_0;
    let after = encrypted(
        record,
        plaintext,
        our_identity,
        remote_identity,
        registration_id,
    )->Ok_0.session;
    let f = after.sessions[at];
    let name = base64_text(ephemeral);
    lemma_current_stays(record, f);
    lemma_first_holds(e.chains, |x: ChainView| x.chainType == 1);
    assert(f.chains[c].chainType == 1);
    assert(last_chain(f) == last_chain(e));
    if !e.chains.contains_key(name) {
        let before = stepped(e, name, previous, seed)->Ok_0;
        let turned = stepped(f, name, previous, seed)->Ok_0;
        assert(turned.chains[name] == before.chains[name]);
    }
}

} // verus!
