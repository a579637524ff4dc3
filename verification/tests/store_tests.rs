use session_store::codec::{DecodeError, EncodeError};
use session_store::record::{DataValue, Record, SessionId};
use session_store::store::{MemoryStore, StoreError};

fn counter_record(id: i128, counter: i128, expiry_date: i64) -> Record {
    Record {
        id: SessionId(id),
        data: vec![("counter".to_string(), DataValue::Int(counter))],
        expiry_date,
    }
}

const NOW: i64 = 1_700_000_000;

#[test]
fn load_after_save_returns_equal_record() {
    let mut store = MemoryStore::new();
    let rec = counter_record(1, 0, NOW + 60);
    store.save(&rec).expect("save must succeed");
    let got = store.load(SessionId(1), NOW).expect("load must not fail");
    assert_eq!(got, Some(rec));
}

#[test]
fn save_is_an_upsert() {
    let mut store = MemoryStore::new();
    store.save(&counter_record(1, 0, NOW + 60)).unwrap();
    // overwrite both data and expiry under the same identifier
    store.save(&counter_record(1, 5, NOW + 120)).unwrap();
    let got = store.load(SessionId(1), NOW).unwrap().expect("must be present");
    assert_eq!(got, counter_record(1, 5, NOW + 120));
}

#[test]
fn expired_record_reads_absent_before_sweep() {
    let mut store = MemoryStore::new();
    let rec = counter_record(2, 0, NOW - 1);
    store.save(&rec).unwrap();
    // physically present...
    assert!(store.contains(SessionId(2)));
    // ...but logically absent
    assert_eq!(store.load(SessionId(2), NOW).unwrap(), None);
    // an expiry exactly at "now" is not strictly in the future, so absent too
    store.save(&counter_record(3, 0, NOW)).unwrap();
    assert_eq!(store.load(SessionId(3), NOW).unwrap(), None);
    // one second earlier it still reads
    assert!(store.load(SessionId(3), NOW - 1).unwrap().is_some());
}

#[test]
fn create_assigns_free_identifier_on_collision() {
    let mut store = MemoryStore::new();
    let first = counter_record(7, 0, NOW + 60);
    store.save(&first).unwrap();

    // a forced first-attempt collision: try_create must refuse, not overwrite
    let colliding = counter_record(7, 99, NOW + 60);
    assert_eq!(store.try_create(&colliding).unwrap(), false);
    assert_eq!(store.load(SessionId(7), NOW).unwrap(), Some(first));

    // exactly one retry with a fresh identifier succeeds
    let retried = counter_record(8, 99, NOW + 60);
    assert_eq!(store.try_create(&retried).unwrap(), true);
    assert_ne!(retried.id, colliding.id);
    assert_eq!(store.load(SessionId(8), NOW).unwrap(), Some(retried));
}

#[test]
fn create_retries_until_identifier_is_free() {
    let mut store = MemoryStore::new();
    let taken = counter_record(7, 0, NOW + 60);
    store.save(&taken).unwrap();

    // create with a taken identifier re-keys the record and commits it
    let mut rec = counter_record(7, 1, NOW + 60);
    store.create(&mut rec).expect("create must succeed");
    assert_ne!(rec.id, SessionId(7));
    assert_eq!(store.load(rec.id, NOW).unwrap(), Some(rec));
    // the colliding record was not overwritten
    assert_eq!(store.load(SessionId(7), NOW).unwrap(), Some(taken));
}

#[test]
fn create_keeps_a_free_identifier() {
    let mut store = MemoryStore::new();
    // no collision: the record is committed under the identifier it came with
    let mut rec = counter_record(21, 0, NOW + 60);
    store.create(&mut rec).expect("a free identifier must be accepted");
    assert_eq!(rec.id, SessionId(21));
    assert_eq!(store.load(SessionId(21), NOW).unwrap(), Some(counter_record(21, 0, NOW + 60)));
}

#[test]
fn delete_then_load_returns_absent() {
    let mut store = MemoryStore::new();
    store.save(&counter_record(4, 0, NOW + 60)).unwrap();
    store.delete(SessionId(4));
    assert_eq!(store.load(SessionId(4), NOW).unwrap(), None);
    assert!(!store.contains(SessionId(4)));
    // deleting a nonexistent identifier does not fail
    store.delete(SessionId(12345));
    assert_eq!(store.load(SessionId(12345), NOW).unwrap(), None);
}

#[test]
fn delete_expired_reclaims_exactly_the_expired() {
    let mut store = MemoryStore::new();
    store.save(&counter_record(1, 0, NOW - 10)).unwrap(); // long expired
    store.save(&counter_record(2, 0, NOW)).unwrap(); // expires exactly now
    store.save(&counter_record(3, 0, NOW + 10)).unwrap(); // still live

    store.delete_expired(NOW);

    // expired records are gone, physically too
    assert!(!store.contains(SessionId(1)));
    assert!(!store.contains(SessionId(2)));
    assert_eq!(store.load(SessionId(1), NOW).unwrap(), None);
    assert_eq!(store.load(SessionId(2), NOW).unwrap(), None);
    // records with future expiry are unaffected
    assert_eq!(store.load(SessionId(3), NOW).unwrap(), Some(counter_record(3, 0, NOW + 10)));

    // safe to call repeatedly
    store.delete_expired(NOW);
    assert_eq!(store.load(SessionId(3), NOW).unwrap(), Some(counter_record(3, 0, NOW + 10)));
}

#[test]
fn counter_scenario() {
    let mut store = MemoryStore::new();
    // create a record with data {"counter": 0} expiring in ten seconds
    let mut rec = counter_record(0, 0, NOW + 10);
    store.create(&mut rec).expect("create must succeed");
    let id = rec.id;

    // load returns it
    let got = store.load(id, NOW).unwrap().expect("fresh record must load");
    assert_eq!(got.data, vec![("counter".to_string(), DataValue::Int(0))]);

    // save with counter = 1; load returns counter = 1
    let updated = Record {
        id,
        data: vec![("counter".to_string(), DataValue::Int(1))],
        expiry_date: NOW + 10,
    };
    store.save(&updated).unwrap();
    let got = store.load(id, NOW).unwrap().expect("updated record must load");
    assert_eq!(got.data, vec![("counter".to_string(), DataValue::Int(1))]);

    // ten seconds elapse and the sweep runs: load returns absent
    store.delete_expired(NOW + 10);
    assert_eq!(store.load(id, NOW + 10).unwrap(), None);
    assert!(!store.contains(id));
}

#[test]
fn error_messages_name_their_cause() {
    assert_eq!(
        StoreError::Encode(EncodeError).message(),
        "failed to encode session record".to_string()
    );
    assert_eq!(
        StoreError::Decode(DecodeError).message(),
        "failed to decode session record".to_string()
    );
    assert_eq!(
        StoreError::IdSpaceExhausted.message(),
        "session identifier space exhausted".to_string()
    );
    assert_eq!(StoreError::from(EncodeError), StoreError::Encode(EncodeError));
    assert_eq!(StoreError::from(DecodeError), StoreError::Decode(DecodeError));
}
