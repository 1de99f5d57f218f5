//! Session records: what one party keeps of its sessions with another.
use crate::map::{
    before, first_where, is_first, law_first_key, lemma_first_found, lemma_first_holds,
    lemma_first_missing, lists, StringMap,
};
use std::collections::BTreeMap;
use vstd::prelude::*;

verus! {

/// The sessions with one remote party, each under its base key.
#[derive(Debug, PartialEq)]
pub struct SessionRecord {
    pub sessions: StringMap<SessionEntry>,
    pub version: String,
}

/// One session. Chains stand under the ephemeral public key they belong to;
/// keys are base64 text throughout.
#[derive(Debug, PartialEq)]
pub struct SessionEntry {
    pub registrationId: u32,
    pub currentRatchet: Ratchet,
    pub indexInfo: IndexInfo,
    pub chains: StringMap<Chain>,
    pub pendingPreKey: Option<PendingPreKey>,
}

#[derive(Debug, PartialEq)]
pub struct Ratchet {
    pub ephemeralKeyPair: KeyPair,
    pub lastRemoteEphemeralKey: String,
    pub previousCounter: u32,
    pub rootKey: String,
}

#[derive(Debug, PartialEq)]
pub struct KeyPair {
    pub pubKey: String,
    pub privKey: String,
}

#[derive(Debug, PartialEq)]
pub struct IndexInfo {
    pub baseKey: String,
    pub baseKeyType: u32,
    /// -1 while the session is open.
    pub closed: i64,
    pub used: i64,
    pub created: i64,
    pub remoteIdentityKey: String,
}

#[derive(Debug, PartialEq)]
pub struct Chain {
    pub chainKey: ChainKey,
    /// 0 for a receiving chain, 1 for a sending chain.
    pub chainType: u32,
    pub messageKeys: BTreeMap<i64, String>,
}

#[derive(Debug, PartialEq)]
pub struct ChainKey {
    /// The last counter whose message key was derived; -1 at first.
    pub counter: i64,
    /// Empty once the chain is closed.
    pub key: String,
}

/// What the first messages of an initiator carry besides the ciphertext,
/// until the recipient answers.
#[derive(Debug, PartialEq)]
pub struct PendingPreKey {
    pub baseKey: String,
    pub signedKeyId: Option<u32>,
    pub preKeyId: Option<u32>,
}

// ---------------------------------------------------------------- contents

#[verifier::ext_equal]
pub struct RecordView {
    pub sessions: Map<Seq<char>, EntryView>,
    pub version: Seq<char>,
}

#[verifier::ext_equal]
pub struct EntryView {
    pub registrationId: u32,
    pub currentRatchet: RatchetView,
    pub indexInfo: IndexView,
    pub chains: Map<Seq<char>, ChainView>,
    pub pendingPreKey: Option<PendingView>,
}

#[verifier::ext_equal]
pub struct RatchetView {
    pub ephemeralKeyPair: KeyPairView,
    pub lastRemoteEphemeralKey: Seq<char>,
    pub previousCounter: u32,
    pub rootKey: Seq<char>,
}

#[verifier::ext_equal]
pub struct KeyPairView {
    pub pubKey: Seq<char>,
    pub privKey: Seq<char>,
}

#[verifier::ext_equal]
pub struct IndexView {
    pub baseKey: Seq<char>,
    pub baseKeyType: u32,
    pub closed: i64,
    pub used: i64,
    pub created: i64,
    pub remoteIdentityKey: Seq<char>,
}

#[verifier::ext_equal]
pub struct ChainView {
    pub chainKey: ChainKeyView,
    pub chainType: u32,
    pub messageKeys: Map<i64, Seq<char>>,
}

#[verifier::ext_equal]
pub struct ChainKeyView {
    pub counter: i64,
    pub key: Seq<char>,
}

#[verifier::ext_equal]
pub struct PendingView {
    pub baseKey: Seq<char>,
    pub signedKeyId: Option<u32>,
    pub preKeyId: Option<u32>,
}

impl View for SessionRecord {
    type V = RecordView;

    open spec fn view(&self) -> RecordView {
        RecordView { sessions: self.sessions@, version: self.version@ }
    }
}

impl View for SessionEntry {
    type V = EntryView;

    open spec fn view(&self) -> EntryView {
        EntryView {
            registrationId: self.registrationId,
            currentRatchet: self.currentRatchet@,
            indexInfo: self.indexInfo@,
            chains: self.chains@,
            pendingPreKey: match self.pendingPreKey {
                Some(p) => Some(p@),
                None => None,
            },
        }
    }
}

impl View for Ratchet {
    type V = RatchetView;

    open spec fn view(&self) -> RatchetView {
        RatchetView {
            ephemeralKeyPair: self.ephemeralKeyPair@,
            lastRemoteEphemeralKey: self.lastRemoteEphemeralKey@,
            previousCounter: self.previousCounter,
            rootKey: self.rootKey@,
        }
    }
}

impl View for KeyPair {
    type V = KeyPairView;

    open spec fn view(&self) -> KeyPairView {
        KeyPairView { pubKey: self.pubKey@, privKey: self.privKey@ }
    }
}

impl View for IndexInfo {
    type V = IndexView;

    open spec fn view(&self) -> IndexView {
        IndexView {
            baseKey: self.baseKey@,
            baseKeyType: self.baseKeyType,
            closed: self.closed,
            used: self.used,
            created: self.created,
            remoteIdentityKey: self.remoteIdentityKey@,
        }
    }
}

impl View for Chain {
    type V = ChainView;

    open spec fn view(&self) -> ChainView {
        ChainView {
            chainKey: self.chainKey@,
            chainType: self.chainType,
            messageKeys: self.messageKeys@.map_values(|key: String| key@),
        }
    }
}

impl View for ChainKey {
    type V = ChainKeyView;

    open spec fn view(&self) -> ChainKeyView {
        ChainKeyView { counter: self.counter, key: self.key@ }
    }
}

impl View for PendingPreKey {
    type V = PendingView;

    open spec fn view(&self) -> PendingView {
        PendingView {
            baseKey: self.baseKey@,
            signedKeyId: self.signedKeyId,
            preKeyId: self.preKeyId,
        }
    }
}

/// The contents of a record are those of its fields, all of them: numbers as
/// they are, texts and maps by what they hold.
pub proof fn law_record_contents(record: SessionRecord, entry: SessionEntry)
    ensures
        record@.sessions == record.sessions@,
        record@.version == record.version@,
        entry@.registrationId == entry.registrationId,
        entry@.currentRatchet.ephemeralKeyPair.pubKey
            == entry.currentRatchet.ephemeralKeyPair.pubKey@,
        entry@.currentRatchet.ephemeralKeyPair.privKey
            == entry.currentRatchet.ephemeralKeyPair.privKey@,
        entry@.currentRatchet.lastRemoteEphemeralKey
            == entry.currentRatchet.lastRemoteEphemeralKey@,
        entry@.currentRatchet.previousCounter == entry.currentRatchet.previousCounter,
        entry@.currentRatchet.rootKey == entry.currentRatchet.rootKey@,
        entry@.indexInfo.baseKey == entry.indexInfo.baseKey@,
        entry@.indexInfo.baseKeyType == entry.indexInfo.baseKeyType,
        entry@.indexInfo.closed == entry.indexInfo.closed,
        entry@.indexInfo.used == entry.indexInfo.used,
        entry@.indexInfo.created == entry.indexInfo.created,
        entry@.indexInfo.remoteIdentityKey == entry.indexInfo.remoteIdentityKey@,
        entry@.chains == entry.chains@,
        match (entry.pendingPreKey, entry@.pendingPreKey) {
            (Some(p), Some(q)) => q.baseKey == p.baseKey@ && q.signedKeyId == p.signedKeyId
                && q.preKeyId == p.preKeyId,
            (None, None) => true,
            _ => false,
        },
{
}

/// The contents of a chain are its counter, its kind, and the texts of its
/// chain key and of the message keys that it keeps.
pub proof fn law_chain_contents(chain: Chain)
    ensures
        chain@.chainKey.counter == chain.chainKey.counter,
        chain@.chainKey.key == chain.chainKey.key@,
        chain@.chainType == chain.chainType,
        chain@.messageKeys.dom() == chain.messageKeys@.dom(),
        forall|i: i64|
            chain.messageKeys@.contains_key(i) ==> #[trigger] chain@.messageKeys[i]
                == chain.messageKeys@[i]@,
{
    assert(chain@.messageKeys.dom() =~= chain.messageKeys@.dom());
}

// ---------------------------------------------------------------- copies

impl Clone for SessionRecord {
    fn clone(&self) -> (r: Self)
        ensures
            r@ == self@,
    {
        SessionRecord { sessions: self.sessions.clone(), version: self.version.clone() }
    }
}

impl Clone for SessionEntry {
    fn clone(&self) -> (r: Self)
        ensures
            r@ == self@,
    {
        SessionEntry {
            registrationId: self.registrationId,
            currentRatchet: self.currentRatchet.clone(),
            indexInfo: self.indexInfo.clone(),
            chains: self.chains.clone(),
            pendingPreKey: match &self.pendingPreKey {
                Some(p) => Some(p.clone()),
                None => None,
            },
        }
    }
}

impl Clone for Ratchet {
    fn clone(&self) -> (r: Self)
        ensures
            r@ == self@,
    {
        Ratchet {
            ephemeralKeyPair: self.ephemeralKeyPair.clone(),
            lastRemoteEphemeralKey: self.lastRemoteEphemeralKey.clone(),
            previousCounter: self.previousCounter,
            rootKey: self.rootKey.clone(),
        }
    }
}

impl Clone for KeyPair {
    fn clone(&self) -> (r: Self)
        ensures
            r@ == self@,
    {
        KeyPair { pubKey: self.pubKey.clone(), privKey: self.privKey.clone() }
    }
}

impl Clone for IndexInfo {
    fn clone(&self) -> (r: Self)
        ensures
            r@ == self@,
    {
        IndexInfo {
            baseKey: self.baseKey.clone(),
            baseKeyType: self.baseKeyType,
            closed: self.closed,
            used: self.used,
            created: self.created,
            remoteIdentityKey: self.remoteIdentityKey.clone(),
        }
    }
}

impl Clone for Chain {
    fn clone(&self) -> (r: Self)
        ensures
            r@ == self@,
    {
        Chain {
            chainKey: self.chainKey.clone(),
            chainType: self.chainType,
            messageKeys: self.messageKeys.clone(),
        }
    }
}

impl Clone for ChainKey {
    fn clone(&self) -> (r: Self)
        ensures
            r@ == self@,
    {
        ChainKey { counter: self.counter, key: self.key.clone() }
    }
}

impl Clone for PendingPreKey {
    fn clone(&self) -> (r: Self)
        ensures
            r@ == self@,
    {
        PendingPreKey {
            baseKey: self.baseKey.clone(),
            signedKeyId: self.signedKeyId,
            preKeyId: self.preKeyId,
        }
    }
}

// ---------------------------------------------------------------- sessions

/// The version of a record.
pub fn default_version() -> (v: String)
    ensures
        v@ == "v1"@,
{
    "v1".to_owned()
}

/// A session is open until it is archived.
pub open spec fn is_open(entry: EntryView) -> bool {
    entry.indexInfo.closed == -1
}

pub open spec fn has_open_session(record: RecordView) -> bool {
    exists|k: Seq<char>| #[trigger]
        record.sessions.contains_key(k) && is_open(record.sessions[k])
}

/// The record with its first open session closed, if it has one.
pub open spec fn archived(record: RecordView) -> Option<RecordView> {
    match first_where(record.sessions, |e: EntryView| is_open(e)) {
        Some(k) => {
            let e = record.sessions[k];
            let shut = EntryView { indexInfo: IndexView { closed: 1, ..e.indexInfo }, ..e };
            Some(RecordView { sessions: record.sessions.insert(k, shut), ..record })
        },
        None => None,
    }
}

/// The place of the first open session, the number of sessions when there is
/// none.
fn first_open(sessions: &StringMap<SessionEntry>) -> (i: usize)
    ensures
        lists(sessions.keys(), sessions@),
        i <= sessions.keys().len(),
        i < sessions.keys().len() ==> {
            let k = sessions.keys()[i as int];
            &&& sessions@.contains_key(k)
            &&& is_open(sessions@[k])
            &&& first_where(sessions@, |e: EntryView| is_open(e)) == Some(k)
        },
        i == sessions.keys().len() ==> {
            &&& first_where(sessions@, |e: EntryView| is_open(e)) == None::<Seq<char>>
            &&& forall|k: Seq<char>| #[trigger] sessions@.contains_key(k) ==> !is_open(sessions@[k])
        },
{
    let n: usize = sessions.len();
    let mut i: usize = 0;
    let ghost p = |e: EntryView| is_open(e);
    while i < n
        invariant
            i <= n,
            n == sessions.keys().len(),
            lists(sessions.keys(), sessions@),
            p == (|e: EntryView| is_open(e)),
            forall|j: int| 0 <= j < i ==> !p(sessions@[#[trigger] sessions.keys()[j]]),
        decreases n - i,
    {
        if sessions.value_at(i).indexInfo.closed == -1 {
            proof {
                lemma_first_found(sessions.keys(), sessions@, p, i as int);
            }
            return i;
        }
        i += 1;
    }
    proof {
        lemma_first_missing(sessions.keys(), sessions@, p);
        assert forall|k: Seq<char>| #[trigger] sessions@.contains_key(k) implies !is_open(
            sessions@[k],
        ) by {
            assert(!p(sessions@[k]));
        }
    }
    i
}

pub fn have_open_session(record: &SessionRecord) -> (r: bool)
    ensures
        r == has_open_session(record@),
{
    let i: usize = first_open(&record.sessions);
    let n: usize = record.sessions.len();
    proof {
        if i < n {
            let k = record.sessions.keys()[i as int];
            assert(record@.sessions.contains_key(k) && is_open(record@.sessions[k]));
        }
    }
    i < n
}

/// Closes the first open session.
pub fn archive_current(record: &mut SessionRecord) -> (result: Result<(), String>)
    ensures
        match archived(old(record)@) {
            Some(r) => result is Ok && final(record)@ == r,
            None => final(record)@ == old(record)@ && (result matches Err(e) && e@
                == "no open session to archive"@),
        },
        result is Ok <==> has_open_session(old(record)@),
{
    let i: usize = first_open(&record.sessions);
    if i < record.sessions.len() {
        let key = record.sessions.key_at(i).clone();
        let mut session = record.sessions.value_at(i).clone();
        session.indexInfo.closed = 1;
        record.sessions.insert(key, session);
        return Ok(());
    }
    Err("no open session to archive".to_owned())
}

// ---------------------------------------------------------------- laws

/// A session is open while it is closed at -1, and a record with an open
/// session, and no other, can be archived.
pub proof fn law_open_sessions(record: RecordView)
    requires
        record.sessions.dom().finite(),
    ensures
        has_open_session(record) <==> exists|k: Seq<char>| #[trigger]
            record.sessions.contains_key(k) && record.sessions[k].indexInfo.closed == -1,
        archived(record) is Some <==> has_open_session(record),
{
    law_first_key(record.sessions, |e: EntryView| is_open(e));
}

/// Archiving closes one session, the first open one, and leaves the others
/// as they are: afterwards a session is open exactly when another one was.
pub proof fn law_archiving_closes_one(record: RecordView)
    requires
        archived(record) is Some,
    ensures
        ({
            let after = archived(record)->Some_0;
            let k = first_where(record.sessions, |e: EntryView| is_open(e))->Some_0;
            &&& record.sessions.contains_key(k)
            &&& is_open(record.sessions[k])
            &&& !is_open(after.sessions[k])
            &&& after.sessions[k].indexInfo.closed == 1
            &&& after.sessions[k] == EntryView {
                indexInfo: IndexView {
                    closed: after.sessions[k].indexInfo.closed,
                    ..record.sessions[k].indexInfo
                },
                ..record.sessions[k]
            }
            &&& after.version == record.version
            &&& forall|j: Seq<char>| #[trigger]
                record.sessions.contains_key(j) && record.sessions[j].indexInfo.closed == -1 ==> j
                    == k || before(k, j)
            &&& after.sessions.dom() == record.sessions.dom()
            &&& after.sessions.remove(k) == record.sessions.remove(k)
            &&& has_open_session(after) <==> exists|j: Seq<char>|
                j != k && #[trigger] record.sessions.contains_key(j) && is_open(
                    record.sessions[j],
                )
        }),
{
    let p = |e: EntryView| is_open(e);
    let k = first_where(record.sessions, p)->Some_0;
    let after = archived(record)->Some_0;
    lemma_first_holds(record.sessions, p);
    assert(is_first(record.sessions, p, k));
    assert forall|j: Seq<char>| #[trigger]
        record.sessions.contains_key(j) && record.sessions[j].indexInfo.closed == -1 implies j == k
        || before(k, j) by {
        assert(p(record.sessions[j]));
    }
    assert(after.sessions.dom() =~= record.sessions.dom());
    assert(after.sessions.remove(k) =~= record.sessions.remove(k));
    assert forall|j: Seq<char>| j != k implies #[trigger] after.sessions.contains_key(j)
        == record.sessions.contains_key(j) && after.sessions[j] == record.sessions[j] by {}
    if has_open_session(after) {
        let j = choose|j: Seq<char>| #[trigger]
            after.sessions.contains_key(j) && is_open(after.sessions[j]);
        assert(j != k && record.sessions.contains_key(j) && is_open(record.sessions[j]));
    }
    if exists|j: Seq<char>|
        j != k && #[trigger] record.sessions.contains_key(j) && is_open(record.sessions[j]) {
        let j = choose|j: Seq<char>|
            j != k && #[trigger] record.sessions.contains_key(j) && is_open(record.sessions[j]);
        assert(after.sessions.contains_key(j) && is_open(after.sessions[j]));
    }
}

} // verus!
