//! Session records.
use oktz_signal::map::StringMap;
use oktz_signal::session::{
    archive_current, default_version, have_open_session, Chain, ChainKey, IndexInfo, KeyPair,
    PendingPreKey, Ratchet, SessionEntry, SessionRecord,
};
use std::collections::BTreeMap;

const BASE_KEY: &str = "BVKmSbsyr4jNTRKWJqVaDDU0cNd0xMUXhZgFNrVsNcoW";

/// A fresh session of an initiator.
fn fixture() -> SessionRecord {
    let mut chains = StringMap::new();
    chains.insert(
        BASE_KEY.to_string(),
        Chain {
            chainKey: ChainKey {
                counter: -1,
                key: "gkGL2Dp6mSZbYbFfPEwS6BkmkG4rVZN0uSPLmPGSmpo=".to_string(),
            },
            chainType: 1,
            messageKeys: BTreeMap::new(),
        },
    );
    let entry = SessionEntry {
        registrationId: 42,
        currentRatchet: Ratchet {
            ephemeralKeyPair: KeyPair {
                pubKey: BASE_KEY.to_string(),
                privKey: "QEFCQ0RFRkdISUpLTE1OT1BRUlNUVVZXWFlaW1xdXl8=".to_string(),
            },
            lastRemoteEphemeralKey: "BYB3Fsq8hc2JfKgZNpPlp3Ij1v7YkV0Mpg0tDc7JRbkn".to_string(),
            previousCounter: 0,
            rootKey: "Yr3p8u4yC2H1vK0Jm7s5nQbXcZ6tWdLfGgAaEeIiOoU=".to_string(),
        },
        indexInfo: IndexInfo {
            baseKey: BASE_KEY.to_string(),
            baseKeyType: 1,
            closed: -1,
            used: 1788180594198,
            created: 1788180594198,
            remoteIdentityKey: "BQABAgMEBQYHCAkKCwwNDg8QERITFBUWFxgZGhscHR4f".to_string(),
        },
        chains,
        pendingPreKey: Some(PendingPreKey {
            baseKey: BASE_KEY.to_string(),
            signedKeyId: Some(1),
            preKeyId: None,
        }),
    };
    let mut sessions = StringMap::new();
    sessions.insert(BASE_KEY.to_string(), entry);
    SessionRecord { sessions, version: default_version() }
}

fn empty() -> SessionRecord {
    SessionRecord { sessions: StringMap::new(), version: default_version() }
}

#[test]
fn test_have_open_session_on_fixture() {
    let record = fixture();
    assert!(have_open_session(&record), "fixture session is fresh (closed=-1)");
}

#[test]
fn test_archive_current_closes_session() {
    let mut record = fixture();
    assert!(have_open_session(&record));
    archive_current(&mut record).unwrap();
    assert!(!have_open_session(&record), "after archive, no open session");
}

#[test]
fn test_empty_session_record() {
    let record = empty();
    assert!(record.sessions.is_empty());
    assert_eq!(record.version, "v1");
    assert!(!have_open_session(&record));
}

#[test]
fn test_archive_on_empty_fails() {
    let mut record = empty();
    let result = archive_current(&mut record);
    assert!(result.is_err());
}

#[test]
fn test_multiple_sessions_archive_one() {
    let mut record = fixture();
    let base_key = record.sessions.key_at(0).clone();
    archive_current(&mut record).unwrap();
    assert!(!have_open_session(&record));
    let entry = record.sessions.get(&base_key).unwrap();
    assert_eq!(entry.indexInfo.closed, 1);
}

#[test]
fn archiving_closes_the_first_open_session_only() {
    let mut record = fixture();
    let mut closed = record.sessions.value_at(0).clone();
    closed.indexInfo.closed = 7;
    let open = record.sessions.value_at(0).clone();
    record.sessions.insert("A".to_string(), closed.clone());
    record.sessions.insert("Z".to_string(), open.clone());
    archive_current(&mut record).unwrap();
    assert_eq!(record.sessions.get("A").unwrap(), &closed);
    assert_eq!(record.sessions.get(BASE_KEY).unwrap().indexInfo.closed, 1);
    assert_eq!(record.sessions.get("Z").unwrap(), &open);
    assert!(have_open_session(&record));
    archive_current(&mut record).unwrap();
    assert_eq!(record.sessions.get("Z").unwrap().indexInfo.closed, 1);
    let before = record.clone();
    assert_eq!(archive_current(&mut record).unwrap_err(), "no open session to archive");
    assert_eq!(record, before);
}

#[test]
fn copies_are_equal_and_apart() {
    let record = fixture();
    let mut copy = record.clone();
    assert_eq!(copy, record);
    archive_current(&mut copy).unwrap();
    assert_ne!(copy, record);
    assert!(have_open_session(&record));
}
