//! Whole transactions: clients driven against a timestamp oracle and a store.

use std::cell::{Cell, RefCell};
use std::rc::Rc;

use percolator::action::{Action, Event};
use percolator::client::{Client, TxnMode};
use percolator::error::{Error, ErrorKind};
use percolator::msg::{CommitRequest, PrewriteRequest, RollbackRequest};
use percolator::oracle::TimestampOracle;
use percolator::storage::MemoryStorage;

/// An oracle on a clock that moves with every reading and with every wait.
#[derive(Clone)]
struct Tso {
    oracle: Rc<RefCell<TimestampOracle>>,
    clock: Rc<Cell<u128>>,
    down: Rc<Cell<bool>>,
}

impl Tso {
    fn new() -> Tso {
        Tso {
            oracle: Rc::new(RefCell::new(TimestampOracle::new())),
            clock: Rc::new(Cell::new(1_000_000_000)),
            down: Rc::new(Cell::new(false)),
        }
    }

    fn issue(&self) -> Result<u64, Error> {
        if self.down.get() {
            return Err(Error::new(ErrorKind::NotConnected, "get_timestamp: no service bound"));
        }
        self.clock.set(self.clock.get() + 1_000);
        Ok(self.oracle.borrow_mut().issue(Some(self.clock.get())))
    }

    fn sleep(&self, millis: u64) {
        self.clock.set(self.clock.get() + millis as u128 * 1_000_000);
    }
}

#[derive(Clone)]
struct Store(Rc<RefCell<MemoryStorage>>);

impl Store {
    fn new() -> Store {
        Store(Rc::new(RefCell::new(MemoryStorage::default())))
    }

    fn prewrite(&self, req: PrewriteRequest) -> Result<(), Error> {
        self.0.borrow_mut().prewrite(req).map(|_| ())
    }

    fn commit(&self, req: CommitRequest) -> Result<bool, Error> {
        self.0.borrow_mut().commit(req).map(|resp| resp.ok)
    }

    fn rollback(&self, req: RollbackRequest) {
        self.0.borrow_mut().rollback(req).unwrap();
    }
}

/// A client together with the services that it talks to.
struct Session {
    client: Client,
    tso: Tso,
    store: Store,
    log: Vec<Action>,
}

impl Session {
    fn perform(&mut self, action: Action) -> Event {
        self.log.push(action.clone());
        let mut store = self.store.0.borrow_mut();
        match action {
            Action::GetTimestamp(_) => Event::Timestamp(self.tso.issue()),
            Action::Get(req) => Event::Get(store.get(req)),
            Action::PessimisticLock(req) => Event::PessimisticLock(store.pessimistic_lock(req)),
            Action::Prewrite(req) => Event::Prewrite(store.prewrite(req)),
            Action::Commit(req) => Event::Commit(store.commit(req)),
            Action::Rollback(req) => Event::Rollback(store.rollback(req)),
            Action::Sleep(millis) => {
                self.tso.sleep(millis);
                Event::Slept
            }
        }
    }

    fn get_timestamp(&self) -> Result<u64, Error> {
        self.tso.issue()
    }

    fn begin(&mut self) {
        let timestamp = self.tso.issue();
        self.client.begin(timestamp);
    }

    fn get(&mut self, key: Vec<u8>) -> Result<Vec<u8>, Error> {
        let mut op = self.client.get(key);
        while let Some(action) = op.action() {
            let event = self.perform(action);
            op = op.resume(event);
        }
        op.into_result().unwrap()
    }

    fn set(&mut self, key: Vec<u8>, value: Vec<u8>) -> Result<(), Error> {
        let mut op = self.client.set(key, value);
        while let Some(action) = op.action() {
            let event = self.perform(action);
            op = op.resume(&mut self.client, event);
        }
        op.into_result().unwrap()
    }

    fn lock_for_update(&mut self, key: Vec<u8>) -> Result<(), Error> {
        let mut op = self.client.lock_for_update(key);
        while let Some(action) = op.action() {
            let event = self.perform(action);
            op = op.resume(&mut self.client, event);
        }
        op.into_result().unwrap()
    }

    fn commit(&mut self) -> Result<bool, Error> {
        let mut op = self.client.commit();
        while let Some(action) = op.action() {
            let event = self.perform(action);
            op = op.resume(event);
        }
        op.into_result().unwrap()
    }
}

fn make_client(tso: Tso, store: Store) -> Session {
    Session { client: Client::new(), tso, store, log: vec![] }
}

fn make_pessimistic_client(tso: Tso, store: Store) -> Session {
    Session { client: Client::with_mode(TxnMode::Pessimistic), tso, store, log: vec![] }
}

/// Place a live lock on `key` so another txn's prewrite on that key fails.
fn block_key(tso: &Tso, store: &Store, key: &[u8]) {
    let block_ts = make_client(tso.clone(), store.clone()).get_timestamp().unwrap();
    store
        .prewrite(PrewriteRequest {
            key: key.to_vec(),
            value: b"blocked".to_vec(),
            start_ts: block_ts,
            primary: key.to_vec(),
        })
        .expect("blocker prewrite should succeed");
}

// --- Single-key / basic tests ---

#[test]
fn test_get_timestamp() {
    let mut tso = TimestampOracle::new();
    let client = Client::new();

    let request = percolator::msg::TimestampRequest {};
    let ts1 = client.get_timestamp(tso.get_timestamp(request.clone())).unwrap();
    let ts2 = client.get_timestamp(tso.get_timestamp(request)).unwrap();

    assert!(ts2 > ts1, "timestamps should be strictly increasing: {ts1} then {ts2}");
}

#[test]
fn test_empty_transaction() {
    let mut client = make_client(Tso::new(), Store::new());

    client.begin();
    let result = client.commit().unwrap();
    assert!(result, "empty transaction should succeed");
}

#[test]
fn test_overwrite_value() {
    let mut client = make_client(Tso::new(), Store::new());

    client.begin();
    client.set(b"key".to_vec(), b"value1".to_vec()).unwrap();
    let val = client.get(b"key".to_vec()).unwrap();
    assert_eq!(val, b"value1");

    client.set(b"key".to_vec(), b"value2".to_vec()).unwrap();
    let val = client.get(b"key".to_vec()).unwrap();
    assert_eq!(val, b"value2");
}

#[test]
fn test_committed_read_from_storage() {
    let tso = Tso::new();
    let storage = Store::new();

    let mut writer = make_client(tso.clone(), storage.clone());
    writer.begin();
    writer.set(b"k".to_vec(), b"v1".to_vec()).unwrap();
    assert!(writer.commit().unwrap());

    let mut reader = make_client(tso, storage);
    reader.begin();
    let val = reader.get(b"k".to_vec()).unwrap();
    assert_eq!(val, b"v1");
}

// --- Multi-key transaction tests ---

#[test]
fn test_basic_multi_key_transaction() {
    let tso = Tso::new();
    let storage = Store::new();
    let mut client = make_client(tso.clone(), storage.clone());

    client.begin();
    client.set(b"key1".to_vec(), b"value1".to_vec()).unwrap();
    client.set(b"key2".to_vec(), b"value2".to_vec()).unwrap();

    assert_eq!(client.get(b"key1".to_vec()).unwrap(), b"value1");
    assert_eq!(client.get(b"key2".to_vec()).unwrap(), b"value2");
    assert!(client.commit().unwrap());

    let mut reader = make_client(tso, storage);
    reader.begin();
    assert_eq!(reader.get(b"key1".to_vec()).unwrap(), b"value1");
    assert_eq!(reader.get(b"key2".to_vec()).unwrap(), b"value2");
}

#[test]
fn test_multi_key_write_commit_and_read() {
    let tso = Tso::new();
    let storage = Store::new();

    let mut writer = make_client(tso.clone(), storage.clone());
    writer.begin();
    writer.set(b"a".to_vec(), b"va".to_vec()).unwrap();
    writer.set(b"b".to_vec(), b"vb".to_vec()).unwrap();
    writer.set(b"c".to_vec(), b"vc".to_vec()).unwrap();
    // Duplicate set: last value for `a` should win after coalesce.
    writer.set(b"a".to_vec(), b"va2".to_vec()).unwrap();
    assert!(writer.commit().unwrap());

    let mut reader = make_client(tso, storage);
    reader.begin();
    assert_eq!(reader.get(b"a".to_vec()).unwrap(), b"va2");
    assert_eq!(reader.get(b"b".to_vec()).unwrap(), b"vb");
    assert_eq!(reader.get(b"c".to_vec()).unwrap(), b"vc");
}

#[test]
fn test_multi_key_prewrite_rollback() {
    let tso = Tso::new();
    let storage = Store::new();

    block_key(&tso, &storage, b"key2");

    let mut client = make_client(tso.clone(), storage.clone());
    client.begin();
    client.set(b"key1".to_vec(), b"v1".to_vec()).unwrap();
    client.set(b"key2".to_vec(), b"v2".to_vec()).unwrap();
    assert!(!client.commit().unwrap(), "commit should fail due to lock on key2");

    let mut writer = make_client(tso.clone(), storage.clone());
    writer.begin();
    writer.set(b"key1".to_vec(), b"ok".to_vec()).unwrap();
    assert!(writer.commit().unwrap(), "key1 should be free after rollback");

    let mut reader = make_client(tso, storage);
    reader.begin();
    assert_eq!(reader.get(b"key1".to_vec()).unwrap(), b"ok");
    assert!(
        reader.get(b"key2".to_vec()).unwrap().is_empty(),
        "key2 should have no committed value from the failed txn"
    );
}

/// Commit only the primary; a later get on the secondary should resolve via
/// the primary Write and make the secondary value visible.
#[test]
fn test_secondary_resolves_after_primary_commit() {
    let tso = Tso::new();
    let storage = Store::new();
    let txn = storage.clone();

    let start_ts = make_client(tso.clone(), storage.clone()).get_timestamp().unwrap();
    let primary = b"pk".to_vec();
    let secondary = b"sk".to_vec();

    txn.prewrite(PrewriteRequest {
        key: primary.clone(),
        value: b"pv".to_vec(),
        start_ts,
        primary: primary.clone(),
    })
    .unwrap();
    txn.prewrite(PrewriteRequest {
        key: secondary.clone(),
        value: b"sv".to_vec(),
        start_ts,
        primary: primary.clone(),
    })
    .unwrap();

    let commit_ts = make_client(tso.clone(), storage.clone()).get_timestamp().unwrap();
    let ok = txn
        .commit(CommitRequest {
            key: primary.clone(),
            value: b"pv".to_vec(),
            start_ts,
            commit_ts,
        })
        .unwrap();
    assert!(ok);

    let mut reader = make_client(tso, storage);
    reader.begin();
    assert_eq!(
        reader.get(secondary).unwrap(),
        b"sv",
        "get should resolve secondary lock after primary commit"
    );
    assert_eq!(reader.get(primary).unwrap(), b"pv");
}

/// If the primary is rolled back, a get on the secondary should clear its
/// lock and not expose uncommitted data.
#[test]
fn test_secondary_rolls_back_when_primary_aborts() {
    let tso = Tso::new();
    let storage = Store::new();
    let txn = storage.clone();

    let start_ts = make_client(tso.clone(), storage.clone()).get_timestamp().unwrap();
    let primary = b"pk".to_vec();
    let secondary = b"sk".to_vec();

    txn.prewrite(PrewriteRequest {
        key: primary.clone(),
        value: b"pv".to_vec(),
        start_ts,
        primary: primary.clone(),
    })
    .unwrap();
    txn.prewrite(PrewriteRequest {
        key: secondary.clone(),
        value: b"sv".to_vec(),
        start_ts,
        primary: primary.clone(),
    })
    .unwrap();

    txn.rollback(RollbackRequest { key: primary, start_ts });

    let mut reader = make_client(tso.clone(), storage.clone());
    reader.begin();
    assert!(
        reader.get(secondary.clone()).unwrap().is_empty(),
        "secondary must not be visible after primary rollback"
    );

    let mut writer = make_client(tso, storage);
    writer.begin();
    writer.set(secondary, b"ok".to_vec()).unwrap();
    assert!(writer.commit().unwrap());
}

/// Three-key transaction scenarios:
/// 1) all three keys commit successfully
/// 2) primary ok, 2nd key fails → full rollback
/// 3) primary + 2nd ok, 3rd fails → full rollback
#[test]
fn test_three_key_write_success_and_rollback() {
    let k1 = b"k1".to_vec();
    let k2 = b"k2".to_vec();
    let k3 = b"k3".to_vec();

    // --- 1) Write all 3 keys in one transaction and succeed ---
    {
        let tso = Tso::new();
        let storage = Store::new();
        let mut client = make_client(tso.clone(), storage.clone());
        client.begin();
        client.set(k1.clone(), b"v1".to_vec()).unwrap();
        client.set(k2.clone(), b"v2".to_vec()).unwrap();
        client.set(k3.clone(), b"v3".to_vec()).unwrap();
        assert!(client.commit().unwrap(), "all three keys should commit");

        let mut reader = make_client(tso, storage);
        reader.begin();
        assert_eq!(reader.get(k1.clone()).unwrap(), b"v1");
        assert_eq!(reader.get(k2.clone()).unwrap(), b"v2");
        assert_eq!(reader.get(k3.clone()).unwrap(), b"v3");
    }

    // --- 2) Primary prewrites, 2nd key errors → rollback (nothing committed) ---
    {
        let tso = Tso::new();
        let storage = Store::new();
        block_key(&tso, &storage, &k2);

        let mut client = make_client(tso.clone(), storage.clone());
        client.begin();
        client.set(k1.clone(), b"a1".to_vec()).unwrap();
        client.set(k2.clone(), b"a2".to_vec()).unwrap();
        client.set(k3.clone(), b"a3".to_vec()).unwrap();
        assert!(!client.commit().unwrap(), "commit should fail when 2nd key is locked");

        let mut reader = make_client(tso.clone(), storage.clone());
        reader.begin();
        assert!(reader.get(k1.clone()).unwrap().is_empty());
        assert!(reader.get(k3.clone()).unwrap().is_empty());

        // Primary must be unlocked after rollback.
        let mut writer = make_client(tso, storage);
        writer.begin();
        writer.set(k1.clone(), b"ok1".to_vec()).unwrap();
        assert!(writer.commit().unwrap());
    }

    // --- 3) Primary + 2nd prewrite, 3rd key errors → rollback ---
    {
        let tso = Tso::new();
        let storage = Store::new();
        block_key(&tso, &storage, &k3);

        let mut client = make_client(tso.clone(), storage.clone());
        client.begin();
        client.set(k1.clone(), b"b1".to_vec()).unwrap();
        client.set(k2.clone(), b"b2".to_vec()).unwrap();
        client.set(k3.clone(), b"b3".to_vec()).unwrap();
        assert!(!client.commit().unwrap(), "commit should fail when 3rd key is locked");

        let mut reader = make_client(tso.clone(), storage.clone());
        reader.begin();
        assert!(
            reader.get(k1.clone()).unwrap().is_empty(),
            "k1 must not stay committed after rollback"
        );
        assert!(
            reader.get(k2.clone()).unwrap().is_empty(),
            "k2 must not stay committed after rollback"
        );

        // Earlier keys must be free for a new writer.
        let mut writer = make_client(tso, storage);
        writer.begin();
        writer.set(k1, b"ok1".to_vec()).unwrap();
        writer.set(k2, b"ok2".to_vec()).unwrap();
        assert!(writer.commit().unwrap());
    }
}

// --- Optimistic vs pessimistic locking ---

#[test]
fn test_optimistic_locks_only_at_prewrite() {
    let tso = Tso::new();
    let storage = Store::new();

    let mut a = make_client(tso.clone(), storage.clone());
    a.begin();
    a.set(b"k".to_vec(), b"from-a".to_vec()).unwrap();
    // Not committed yet — another optimistic txn can still buffer a write locally.
    let mut b = make_client(tso.clone(), storage.clone());
    b.begin();
    b.set(b"k".to_vec(), b"from-b".to_vec()).unwrap();

    assert!(a.commit().unwrap());
    // b should lose at prewrite (write conflict or lock).
    assert!(!b.commit().unwrap());

    let mut reader = make_client(tso, storage);
    reader.begin();
    assert_eq!(reader.get(b"k".to_vec()).unwrap(), b"from-a");
}

#[test]
fn test_pessimistic_locks_on_set() {
    let tso = Tso::new();
    let storage = Store::new();

    let mut holder = make_pessimistic_client(tso.clone(), storage.clone());
    holder.begin();
    holder.set(b"k".to_vec(), b"held".to_vec()).unwrap();
    // Lock is already on the server — second pessimistic txn cannot lock.
    let mut other = make_pessimistic_client(tso.clone(), storage.clone());
    other.begin();
    let err = other.set(b"k".to_vec(), b"other".to_vec());
    assert!(err.is_err(), "second pessimistic set should fail while key is locked");

    assert!(holder.commit().unwrap());

    let mut reader = make_client(tso, storage);
    reader.begin();
    assert_eq!(reader.get(b"k".to_vec()).unwrap(), b"held");
}

#[test]
fn test_pessimistic_lock_for_update_then_set() {
    let tso = Tso::new();
    let storage = Store::new();

    let mut client = make_pessimistic_client(tso.clone(), storage.clone());
    client.begin();
    client.lock_for_update(b"k".to_vec()).unwrap();
    // Value written later; lock already held.
    client.set(b"k".to_vec(), b"v".to_vec()).unwrap();
    assert!(client.commit().unwrap());

    let mut reader = make_client(tso, storage);
    reader.begin();
    assert_eq!(reader.get(b"k".to_vec()).unwrap(), b"v");
}

#[test]
fn test_pessimistic_multi_key_commit() {
    let tso = Tso::new();
    let storage = Store::new();

    let mut client = make_pessimistic_client(tso.clone(), storage.clone());
    client.begin();
    client.set(b"a".to_vec(), b"1".to_vec()).unwrap();
    client.set(b"b".to_vec(), b"2".to_vec()).unwrap();
    assert!(client.commit().unwrap());

    let mut reader = make_client(tso, storage);
    reader.begin();
    assert_eq!(reader.get(b"a".to_vec()).unwrap(), b"1");
    assert_eq!(reader.get(b"b".to_vec()).unwrap(), b"2");
}

/// Pessimistic three-key scenarios (mirrors optimistic multi-key rollback tests):
/// 1) all three keys commit successfully
/// 2) primary locked, 2nd key fails → abort/rollback
/// 3) primary + 2nd locked, 3rd fails → abort/rollback
#[test]
fn test_pessimistic_three_key_write_success_and_rollback() {
    let k1 = b"pk1".to_vec();
    let k2 = b"pk2".to_vec();
    let k3 = b"pk3".to_vec();

    // --- 1) Write all 3 keys in one pessimistic transaction and succeed ---
    {
        let tso = Tso::new();
        let storage = Store::new();
        let mut client = make_pessimistic_client(tso.clone(), storage.clone());
        client.begin();
        client.set(k1.clone(), b"v1".to_vec()).unwrap();
        client.set(k2.clone(), b"v2".to_vec()).unwrap();
        client.set(k3.clone(), b"v3".to_vec()).unwrap();
        assert!(client.commit().unwrap(), "all three keys should commit");

        let mut reader = make_client(tso, storage);
        reader.begin();
        assert_eq!(reader.get(k1.clone()).unwrap(), b"v1");
        assert_eq!(reader.get(k2.clone()).unwrap(), b"v2");
        assert_eq!(reader.get(k3.clone()).unwrap(), b"v3");
    }

    // --- 2) Primary locks, 2nd key conflicts → auto-abort, nothing committed ---
    {
        let tso = Tso::new();
        let storage = Store::new();
        block_key(&tso, &storage, &k2);

        let mut client = make_pessimistic_client(tso.clone(), storage.clone());
        client.begin();
        client.set(k1.clone(), b"a1".to_vec()).unwrap();
        assert!(
            client.set(k2.clone(), b"a2".to_vec()).is_err(),
            "2nd set should fail while key is locked"
        );
        // Failed set() aborts and releases the primary lock on k1.

        let mut writer = make_pessimistic_client(tso.clone(), storage.clone());
        writer.begin();
        writer.set(k1.clone(), b"ok1".to_vec()).unwrap();
        assert!(writer.commit().unwrap(), "k1 should be free after rollback");

        let mut reader = make_client(tso, storage);
        reader.begin();
        assert_eq!(reader.get(k1.clone()).unwrap(), b"ok1");
        assert!(reader.get(k2.clone()).unwrap().is_empty());
        assert!(reader.get(k3.clone()).unwrap().is_empty());
    }

    // --- 3) Primary + 2nd lock, 3rd conflicts → abort, nothing committed ---
    {
        let tso = Tso::new();
        let storage = Store::new();
        block_key(&tso, &storage, &k3);

        let mut client = make_pessimistic_client(tso.clone(), storage.clone());
        client.begin();
        client.set(k1.clone(), b"b1".to_vec()).unwrap();
        client.set(k2.clone(), b"b2".to_vec()).unwrap();
        assert!(
            client.set(k3.clone(), b"b3".to_vec()).is_err(),
            "3rd set should fail while key is locked"
        );

        let mut reader = make_client(tso.clone(), storage.clone());
        reader.begin();
        assert!(
            reader.get(k1.clone()).unwrap().is_empty(),
            "k1 must not stay committed after abort"
        );
        assert!(
            reader.get(k2.clone()).unwrap().is_empty(),
            "k2 must not stay committed after abort"
        );

        // Earlier keys must be free for a new pessimistic writer.
        let mut writer = make_pessimistic_client(tso, storage);
        writer.begin();
        writer.set(k1, b"ok1".to_vec()).unwrap();
        writer.set(k2, b"ok2".to_vec()).unwrap();
        assert!(writer.commit().unwrap());
    }
}

// --- The course of operations ---

#[test]
fn set_makes_no_call_in_optimistic_mode() {
    let mut client = make_client(Tso::new(), Store::new());
    client.begin();
    client.set(b"k".to_vec(), b"v".to_vec()).unwrap();
    assert!(client.log.is_empty());
    assert_eq!(client.get(b"k".to_vec()).unwrap(), b"v");
    assert!(client.log.is_empty());
}

#[test]
fn lock_for_update_needs_pessimistic_mode() {
    let mut client = make_client(Tso::new(), Store::new());
    client.begin();
    let err = client.lock_for_update(b"k".to_vec()).unwrap_err();
    assert_eq!(err.kind, ErrorKind::InvalidInput);
    assert_eq!(err.message, "lock_for_update requires pessimistic mode");
}

#[test]
fn lock_held_is_not_asked_for_again() {
    let mut client = make_pessimistic_client(Tso::new(), Store::new());
    client.begin();
    client.lock_for_update(b"k".to_vec()).unwrap();
    let calls = client.log.len();
    client.lock_for_update(b"k".to_vec()).unwrap();
    client.set(b"k".to_vec(), b"v".to_vec()).unwrap();
    assert_eq!(client.log.len(), calls);
}

#[test]
fn failed_lock_for_update_keeps_the_transaction() {
    let tso = Tso::new();
    let storage = Store::new();
    block_key(&tso, &storage, b"x");

    let mut client = make_pessimistic_client(tso.clone(), storage.clone());
    client.begin();
    let err = client.lock_for_update(b"x".to_vec()).unwrap_err();
    assert_eq!(err.kind, ErrorKind::Other);
    assert_eq!(err.message, "lock conflict");
    // The key that could not be locked is not the primary: the first one locked is.
    client.set(b"y".to_vec(), b"1".to_vec()).unwrap();
    client.log.clear();
    assert!(client.commit().unwrap());
    match &client.log[0] {
        Action::Prewrite(req) => {
            assert_eq!(req.key, b"y");
            assert_eq!(req.primary, b"y");
        }
        other => panic!("unexpected action {other:?}"),
    }
}

#[test]
fn failed_pessimistic_set_rolls_back_every_lock() {
    let tso = Tso::new();
    let storage = Store::new();
    let mut client = make_pessimistic_client(tso.clone(), storage.clone());
    client.begin();
    client.set(b"k1".to_vec(), b"v1".to_vec()).unwrap();
    client.set(b"k2".to_vec(), b"v2".to_vec()).unwrap();
    // The oracle fails, so no wait lets the locks expire.
    tso.down.set(true);
    client.log.clear();
    let err = client.set(b"k3".to_vec(), b"v3".to_vec()).unwrap_err();
    assert_eq!(err.kind, ErrorKind::NotConnected);
    tso.down.set(false);

    let rolled: Vec<Vec<u8>> = client
        .log
        .iter()
        .filter_map(|a| match a {
            Action::Rollback(req) => Some(req.key.clone()),
            _ => None,
        })
        .collect();
    assert_eq!(rolled, vec![b"k1".to_vec(), b"k2".to_vec()]);

    let mut reader = make_client(tso.clone(), storage.clone());
    reader.begin();
    assert!(reader.get(b"k1".to_vec()).unwrap().is_empty());
    assert!(reader.get(b"k2".to_vec()).unwrap().is_empty());
    // The buffer is as it was, but an aborted transaction does not commit.
    assert_eq!(client.get(b"k1".to_vec()).unwrap(), b"v1");
    client.log.clear();
    assert!(!client.commit().unwrap());
    assert!(client.log.is_empty());
    // What it locks after the abort is released again.
    client.set(b"k4".to_vec(), b"v4".to_vec()).unwrap();
    assert!(!client.commit().unwrap());
    let mut other = make_pessimistic_client(tso.clone(), storage.clone());
    other.begin();
    other.lock_for_update(b"k4".to_vec()).unwrap();
    assert!(other.commit().unwrap());
    // The next transaction starts afresh.
    client.begin();
    client.set(b"k1".to_vec(), b"again".to_vec()).unwrap();
    assert!(client.commit().unwrap());
    reader.begin();
    assert_eq!(reader.get(b"k1".to_vec()).unwrap(), b"again");
    assert!(reader.get(b"k2".to_vec()).unwrap().is_empty());
}

#[test]
fn first_failed_set_aborts_too() {
    let tso = Tso::new();
    let storage = Store::new();
    block_key(&tso, &storage, b"k");
    let mut client = make_pessimistic_client(tso.clone(), storage);
    client.begin();
    assert!(client.set(b"k".to_vec(), b"v".to_vec()).is_err());
    assert!(!client.commit().unwrap());
}

#[test]
fn key_locked_without_a_write_keeps_its_value() {
    let tso = Tso::new();
    let storage = Store::new();
    let mut writer = make_client(tso.clone(), storage.clone());
    writer.begin();
    writer.set(b"b".to_vec(), b"old".to_vec()).unwrap();
    assert!(writer.commit().unwrap());

    let mut client = make_pessimistic_client(tso.clone(), storage.clone());
    client.begin();
    client.lock_for_update(b"a".to_vec()).unwrap();
    client.lock_for_update(b"b".to_vec()).unwrap();
    client.set(b"a".to_vec(), b"new".to_vec()).unwrap();
    assert!(client.commit().unwrap());

    let mut reader = make_client(tso, storage);
    reader.begin();
    assert_eq!(reader.get(b"a".to_vec()).unwrap(), b"new");
    assert_eq!(reader.get(b"b".to_vec()).unwrap(), b"old");
}

#[test]
fn get_gives_up_after_three_attempts() {
    let tso = Tso::new();
    let storage = Store::new();
    let mut reader = make_client(tso.clone(), storage.clone());
    reader.begin();
    // A lock that is younger than the reader never expires for it.
    block_key(&tso, &storage, b"k");
    let err = reader.get(b"k".to_vec()).unwrap_err();
    assert_eq!(err.message, "key is locked");
    let waits: Vec<u64> = reader
        .log
        .iter()
        .filter_map(|a| match a {
            Action::Sleep(millis) => Some(*millis),
            _ => None,
        })
        .collect();
    assert_eq!(waits, vec![100, 200]);
    assert_eq!(reader.log.len(), 5);
}

#[test]
fn write_conflict_is_not_retried() {
    let tso = Tso::new();
    let storage = Store::new();
    let mut late = make_client(tso.clone(), storage.clone());
    late.begin();
    late.set(b"k".to_vec(), b"late".to_vec()).unwrap();

    let mut early = make_client(tso.clone(), storage.clone());
    early.begin();
    early.set(b"k".to_vec(), b"early".to_vec()).unwrap();
    assert!(early.commit().unwrap());

    assert!(!late.commit().unwrap());
    assert_eq!(late.log.len(), 1);
}

#[test]
fn lock_conflict_is_retried_and_then_rolled_back() {
    let tso = Tso::new();
    let storage = Store::new();
    block_key(&tso, &storage, b"b");
    let mut client = make_client(tso.clone(), storage.clone());
    client.begin();
    client.set(b"a".to_vec(), b"1".to_vec()).unwrap();
    client.set(b"b".to_vec(), b"2".to_vec()).unwrap();
    assert!(!client.commit().unwrap());
    let shape: Vec<&str> = client
        .log
        .iter()
        .map(|a| match a {
            Action::Prewrite(_) => "prewrite",
            Action::Sleep(_) => "sleep",
            Action::Rollback(_) => "rollback",
            _ => "other",
        })
        .collect();
    assert_eq!(
        shape,
        vec!["prewrite", "prewrite", "sleep", "prewrite", "sleep", "prewrite", "rollback"]
    );
}

#[test]
fn primary_is_committed_first() {
    let tso = Tso::new();
    let storage = Store::new();
    let mut client = make_pessimistic_client(tso, storage);
    client.begin();
    client.lock_for_update(b"z".to_vec()).unwrap();
    client.set(b"a".to_vec(), b"1".to_vec()).unwrap();
    client.set(b"b".to_vec(), b"2".to_vec()).unwrap();
    client.set(b"z".to_vec(), b"3".to_vec()).unwrap();
    client.log.clear();
    assert!(client.commit().unwrap());
    let keys: Vec<(&str, Vec<u8>)> = client
        .log
        .iter()
        .filter_map(|a| match a {
            Action::Prewrite(req) => Some(("prewrite", req.key.clone())),
            Action::Commit(req) => Some(("commit", req.key.clone())),
            _ => None,
        })
        .collect();
    assert_eq!(
        keys,
        vec![
            ("prewrite", b"a".to_vec()),
            ("prewrite", b"b".to_vec()),
            ("prewrite", b"z".to_vec()),
            ("commit", b"z".to_vec()),
            ("commit", b"b".to_vec()),
            ("commit", b"a".to_vec()),
        ]
    );
}

#[test]
fn commit_without_writes_releases_locks() {
    let tso = Tso::new();
    let storage = Store::new();
    let mut client = make_pessimistic_client(tso.clone(), storage.clone());
    client.begin();
    client.lock_for_update(b"k".to_vec()).unwrap();
    assert!(client.commit().unwrap());

    let mut other = make_pessimistic_client(tso, storage);
    other.begin();
    other.lock_for_update(b"k".to_vec()).unwrap();
}

#[test]
fn commit_reports_the_failure_of_the_oracle() {
    let tso = Tso::new();
    let storage = Store::new();
    let mut client = make_client(tso.clone(), storage.clone());
    client.begin();
    client.set(b"a".to_vec(), b"1".to_vec()).unwrap();
    client.set(b"b".to_vec(), b"2".to_vec()).unwrap();
    tso.down.set(true);
    let err = client.commit().unwrap_err();
    assert_eq!(err.kind, ErrorKind::NotConnected);
    assert_eq!(err.message, "get_timestamp: no service bound");
    tso.down.set(false);

    let mut reader = make_client(tso, storage);
    reader.begin();
    assert!(reader.get(b"a".to_vec()).unwrap().is_empty());
    assert!(reader.get(b"b".to_vec()).unwrap().is_empty());
}

#[test]
fn failed_prewrite_releases_keys_locked_early() {
    let tso = Tso::new();
    let storage = Store::new();
    let mut client = make_pessimistic_client(tso.clone(), storage.clone());
    client.begin();
    client.lock_for_update(b"x".to_vec()).unwrap();
    client.set(b"y".to_vec(), b"1".to_vec()).unwrap();
    // Somebody else takes over `y` after the lock on it has expired, and commits.
    tso.sleep(500);
    let mut thief = make_pessimistic_client(tso.clone(), storage.clone());
    thief.begin();
    thief.set(b"y".to_vec(), b"stolen".to_vec()).unwrap();
    assert!(thief.commit().unwrap());

    client.log.clear();
    assert!(!client.commit().unwrap());
    let rolled: Vec<Vec<u8>> = client
        .log
        .iter()
        .filter_map(|a| match a {
            Action::Rollback(req) => Some(req.key.clone()),
            _ => None,
        })
        .collect();
    assert_eq!(rolled, vec![b"x".to_vec(), b"y".to_vec()]);
}

#[test]
fn begin_without_timestamp_reads_at_zero() {
    let tso = Tso::new();
    let storage = Store::new();
    let mut writer = make_client(tso.clone(), storage.clone());
    writer.begin();
    writer.set(b"k".to_vec(), b"v".to_vec()).unwrap();
    assert!(writer.commit().unwrap());

    let mut client = make_client(tso.clone(), storage);
    client.set(b"other".to_vec(), b"old".to_vec()).unwrap();
    tso.down.set(true);
    client.begin();
    // The buffer is gone, and nothing was committed at 0.
    assert!(client.get(b"other".to_vec()).unwrap().is_empty());
    assert!(client.get(b"k".to_vec()).unwrap().is_empty());
}

#[test]
fn snapshot_does_not_see_later_commit() {
    let tso = Tso::new();
    let storage = Store::new();
    let mut reader = make_client(tso.clone(), storage.clone());
    reader.begin();
    let mut writer = make_client(tso.clone(), storage.clone());
    writer.begin();
    writer.set(b"k".to_vec(), b"v".to_vec()).unwrap();
    assert!(writer.commit().unwrap());
    assert!(reader.get(b"k".to_vec()).unwrap().is_empty());
    reader.begin();
    assert_eq!(reader.get(b"k".to_vec()).unwrap(), b"v");
}

#[test]
fn interleaved_commits_of_different_keys_all_succeed() {
    let tso = Tso::new();
    let storage = Store::new();
    let mut sessions: Vec<Session> = (0..10)
        .map(|_| make_client(tso.clone(), storage.clone()))
        .collect();
    for (i, session) in sessions.iter_mut().enumerate() {
        session.begin();
        session.set(format!("key{}", i).into_bytes(), format!("value{}", i).into_bytes()).unwrap();
    }
    let mut ops: Vec<_> = sessions.iter().map(|s| Some(s.client.commit())).collect();
    // One step each in turn.
    let mut running = true;
    while running {
        running = false;
        for (i, slot) in ops.iter_mut().enumerate() {
            let op = slot.take().unwrap();
            *slot = Some(match op.action() {
                Some(action) => {
                    running = true;
                    let event = sessions[i].perform(action);
                    op.resume(event)
                }
                None => op,
            });
        }
    }
    for op in ops {
        assert!(op.unwrap().into_result().unwrap().unwrap());
    }
    let mut reader = make_client(tso, storage);
    reader.begin();
    for i in 0..10 {
        assert_eq!(
            reader.get(format!("key{}", i).into_bytes()).unwrap(),
            format!("value{}", i).into_bytes()
        );
    }
}

/// Runs the commits of all sessions, one step each in turn, and gives their outcomes. After each
/// round a fresh reader gets `key`; what it reads, if it is not locked, is added to `seen`.
fn commit_in_turn(sessions: &mut [Session], key: &[u8], seen: &mut Vec<Vec<u8>>) -> Vec<bool> {
    let mut ops: Vec<_> = sessions.iter().map(|s| Some(s.client.commit())).collect();
    let mut running = true;
    while running {
        running = false;
        for (i, slot) in ops.iter_mut().enumerate() {
            let op = slot.take().unwrap();
            *slot = Some(match op.action() {
                Some(action) => {
                    running = true;
                    // Waits pass side by side, and faster than a lock expires.
                    let event = match action {
                        Action::Sleep(_) => Event::Slept,
                        action => sessions[i].perform(action),
                    };
                    op.resume(event)
                }
                None => op,
            });
        }
        let mut reader = make_client(sessions[0].tso.clone(), sessions[0].store.clone());
        reader.begin();
        let op = reader.client.get(key.to_vec());
        let action = op.action().unwrap();
        let event = reader.perform(action);
        if let Event::Get(Ok(response)) = event {
            seen.push(response.value);
        }
    }
    ops.into_iter().map(|op| op.unwrap().into_result().unwrap().unwrap()).collect()
}

#[test]
fn interleaved_writers_of_one_key() {
    let tso = Tso::new();
    let storage = Store::new();
    let mut seeder = make_client(tso.clone(), storage.clone());
    seeder.begin();
    seeder.set(b"shared".to_vec(), b"v0".to_vec()).unwrap();
    assert!(seeder.commit().unwrap());

    let mut sessions: Vec<Session> =
        (0..8).map(|_| make_client(tso.clone(), storage.clone())).collect();
    for (i, session) in sessions.iter_mut().enumerate() {
        session.begin();
        session.set(b"shared".to_vec(), format!("vw{}", i).into_bytes()).unwrap();
    }
    let mut seen = vec![];
    let outcomes = commit_in_turn(&mut sessions, b"shared", &mut seen);
    let mut committed = vec![b"v0".to_vec()];
    for (i, ok) in outcomes.iter().enumerate() {
        if *ok {
            committed.push(format!("vw{}", i).into_bytes());
        }
    }
    assert!(committed.len() > 1, "at least one same-key writer should commit");
    assert!(!seen.is_empty());
    for value in &seen {
        assert!(committed.contains(value));
    }
    let mut reader = make_client(tso, storage);
    reader.begin();
    assert!(committed.contains(&reader.get(b"shared".to_vec()).unwrap()));
}

#[test]
fn key_locked_by_two_operations_is_released_once() {
    let tso = Tso::new();
    let storage = Store::new();
    let mut session = make_pessimistic_client(tso, storage);
    session.begin();
    let mut first = session.client.lock_for_update(b"k".to_vec());
    let mut second = session.client.lock_for_update(b"k".to_vec());
    while let Some(action) = first.action() {
        let event = session.perform(action);
        first = first.resume(&mut session.client, event);
    }
    while let Some(action) = second.action() {
        let event = session.perform(action);
        second = second.resume(&mut session.client, event);
    }
    assert!(first.into_result().unwrap().is_ok());
    assert!(second.into_result().unwrap().is_ok());
    session.log.clear();
    assert!(session.commit().unwrap());
    assert_eq!(session.log.len(), 1);
    assert!(matches!(&session.log[0], Action::Rollback(req) if req.key == b"k"));
}

#[test]
fn copies_of_a_client_do_not_undo_each_other() {
    let tso = Tso::new();
    let storage = Store::new();
    let mut session = make_pessimistic_client(tso.clone(), storage.clone());
    session.begin();
    let mut copy = make_pessimistic_client(tso.clone(), storage.clone());
    copy.client = session.client.clone();
    session.set(b"a".to_vec(), b"av".to_vec()).unwrap();
    session.set(b"k".to_vec(), b"kv".to_vec()).unwrap();
    assert!(session.commit().unwrap());
    copy.lock_for_update(b"a".to_vec()).unwrap();
    copy.lock_for_update(b"k".to_vec()).unwrap();

    let mut reader = make_client(tso, storage);
    reader.begin();
    assert_eq!(reader.get(b"k".to_vec()).unwrap(), b"kv");
}

#[test]
fn overlapping_writers_do_not_both_commit() {
    let tso = Tso::new();
    let storage = Store::new();
    let mut a = make_client(tso.clone(), storage.clone());
    let mut b = make_client(tso.clone(), storage.clone());
    a.begin();
    b.begin();
    a.set(b"k".to_vec(), b"a".to_vec()).unwrap();
    b.set(b"k".to_vec(), b"b".to_vec()).unwrap();
    assert!(b.commit().unwrap());
    assert!(!a.commit().unwrap());
    // One that starts after the commit does commit.
    a.begin();
    a.set(b"k".to_vec(), b"a".to_vec()).unwrap();
    assert!(a.commit().unwrap());
}

#[test]
fn event_that_answers_nothing_is_ignored() {
    let mut client = Client::new();
    client.begin(Ok(7));
    let op = client.get(b"k".to_vec());
    let before = op.action();
    let op = op.resume(Event::Slept);
    assert_eq!(op.action(), before);
    assert!(op.into_result().is_none());
}

#[test]
fn client_reports_its_mode() {
    assert_eq!(Client::new().mode(), TxnMode::Optimistic);
    assert_eq!(Client::with_mode(TxnMode::Pessimistic).mode(), TxnMode::Pessimistic);
    assert_eq!(TxnMode::default(), TxnMode::Optimistic);
}
