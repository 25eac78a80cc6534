use mqpkg::pkgdb::{DBError, Database, LockRegistry, State};
use mqpkg::version::{Constraint, PackageRequest};
use mqpkg::{MQPkg, PackageName};
use vfs::{MemoryFS, VfsPath};

fn req(n: &str, c: &str) -> PackageRequest {
    PackageRequest::new(
        PackageName::parse(n).unwrap(),
        Constraint::parse(c).unwrap(),
    )
}

fn memfs() -> VfsPath {
    VfsPath::new(MemoryFS::new())
}

#[test]
fn transaction_round_trip_persists_exactly_the_added_package() {
    let fs = memfs();
    let mut locks = LockRegistry::new();
    let mut db = Database::new(fs.clone(), String::from("db1"));
    let txnm = db.transaction().unwrap();
    let txn = db.begin(&txnm, &mut locks).unwrap();
    db.add(&req("pkg", "^1.0")).unwrap();
    db.commit(txn, &mut locks).unwrap();

    let mut db2 = Database::new(fs, String::from("db1"));
    let txnm2 = db2.transaction().unwrap();
    let txn2 = db2.begin(&txnm2, &mut locks).unwrap();
    let got = db2.requested().unwrap();
    assert_eq!(got.len(), 1);
    assert_eq!(got[0].name.as_str(), "pkg");
    assert_eq!(got[0].version.as_str(), "^1.0");
    db2.rollback(txn2, &mut locks);
}

#[test]
fn rollback_leaves_persisted_state_unchanged_and_releases_the_lock() {
    let fs = memfs();
    let mut locks = LockRegistry::new();
    let mut db = Database::new(fs.clone(), String::from("db1"));
    let txnm = db.transaction().unwrap();
    let txn = db.begin(&txnm, &mut locks).unwrap();
    db.add(&req("keep", ">=1.0")).unwrap();
    db.commit(txn, &mut locks).unwrap();
    let file = fs.join("pkgdb").unwrap().join("state.txt").unwrap();
    let before = file.read_to_string().unwrap();

    let txn = db.begin(&txnm, &mut locks).unwrap();
    db.add(&req("dropped", "^2.0")).unwrap();
    db.rollback(txn, &mut locks);

    let after = file.read_to_string().unwrap();
    assert_eq!(before, after);

    // the lock is free again: a fresh begin succeeds immediately
    let txn = db.begin(&txnm, &mut locks).unwrap();
    let got = db.requested().unwrap();
    assert_eq!(got.len(), 1);
    assert_eq!(got[0].name.as_str(), "keep");
    db.rollback(txn, &mut locks);
}

#[test]
fn second_begin_fails_while_a_transaction_is_active() {
    let fs = memfs();
    let mut locks = LockRegistry::new();
    let mut db = Database::new(fs, String::from("db1"));
    let handle_one = db.transaction().unwrap();
    let handle_two = db.transaction().unwrap();
    let txn = db.begin(&handle_one, &mut locks).unwrap();
    assert!(db.in_transaction());
    match db.begin(&handle_two, &mut locks) {
        Err(DBError::TransactionActive) => (),
        other => panic!("expected TransactionActive, got {:?}", other),
    }
    db.rollback(txn, &mut locks);
    assert!(!db.in_transaction());
    let txn = db.begin(&handle_two, &mut locks).unwrap();
    db.rollback(txn, &mut locks);
}

#[test]
fn two_databases_of_one_identity_share_the_lock() {
    // two independent handles bound to the same identity, one registry:
    // while the first holds the transaction, the second cannot begin
    let mut locks = LockRegistry::new();
    let mut db1 = Database::new(memfs(), String::from("target"));
    let mut db2 = Database::new(memfs(), String::from("target"));
    let m1 = db1.transaction().unwrap();
    let m2 = db2.transaction().unwrap();
    let txn = db1.begin(&m1, &mut locks).unwrap();
    match db2.begin(&m2, &mut locks) {
        Err(DBError::TransactionActive) => (),
        other => panic!("expected TransactionActive, got {:?}", other),
    }
    db1.rollback(txn, &mut locks);
    let txn = db2.begin(&m2, &mut locks).unwrap();
    db2.rollback(txn, &mut locks);

    // a different identity is never disturbed
    let mut db3 = Database::new(memfs(), String::from("elsewhere"));
    let m3 = db3.transaction().unwrap();
    let txn1 = db1.begin(&m1, &mut locks).unwrap();
    let txn3 = db3.begin(&m3, &mut locks).unwrap();
    db1.rollback(txn1, &mut locks);
    db3.rollback(txn3, &mut locks);
}

#[test]
fn state_access_without_transaction_is_refused() {
    let fs = memfs();
    let mut db = Database::new(fs, String::from("db1"));
    match db.add(&req("pkg", "^1.0")) {
        Err(DBError::NoTransaction) => (),
        other => panic!("expected NoTransaction, got {:?}", other),
    }
    match db.requested() {
        Err(DBError::NoTransaction) => (),
        other => panic!("expected NoTransaction, got {:?}", other),
    }
}

#[test]
fn missing_state_file_is_an_empty_set() {
    let fs = memfs();
    let mut locks = LockRegistry::new();
    let mut db = Database::new(fs, String::from("db1"));
    let txnm = db.transaction().unwrap();
    let txn = db.begin(&txnm, &mut locks).unwrap();
    let got = db.requested().unwrap();
    assert_eq!(got.len(), 0);
    db.rollback(txn, &mut locks);
}

#[test]
fn re_adding_a_name_replaces_its_constraint() {
    let fs = memfs();
    let mut locks = LockRegistry::new();
    let mut db = Database::new(fs, String::from("db1"));
    let txnm = db.transaction().unwrap();
    let txn = db.begin(&txnm, &mut locks).unwrap();
    db.add(&req("pkg", "^1.0")).unwrap();
    db.add(&req("pkg", ">=2.0")).unwrap();
    let got = db.requested().unwrap();
    assert_eq!(got.len(), 1);
    assert_eq!(got[0].version.as_str(), ">=2.0");
    db.rollback(txn, &mut locks);
}

#[test]
fn encode_then_decode_restores_the_set() {
    let mut st = State::empty();
    st.upsert(&req("alpha", "^1.0"));
    st.upsert(&req("beta", ">=2.1, <3"));
    let text = st.encode();
    assert_eq!(text, "alpha: ^1.0\nbeta: >=2.1, <3\n");
    let back = State::decode(&text).unwrap();
    let rs = back.requested_list();
    assert_eq!(rs.len(), 2);
    assert_eq!(rs[0].name.as_str(), "alpha");
    assert_eq!(rs[0].version.as_str(), "^1.0");
    assert_eq!(rs[1].name.as_str(), "beta");
    assert_eq!(rs[1].version.as_str(), ">=2.1, <3");
    assert_eq!(back.encode(), text);
}

#[test]
fn decode_rejects_malformed_state() {
    assert!(matches!(
        State::decode("no colon here\n"),
        Err(DBError::InvalidState { .. })
    ));
    assert!(matches!(
        State::decode("Upper: ^1.0\n"),
        Err(DBError::InvalidState { .. })
    ));
    assert!(matches!(
        State::decode("pkg: not a range\n"),
        Err(DBError::InvalidState { .. })
    ));
    assert!(matches!(
        State::decode("pkg: ^1.0"),
        Err(DBError::InvalidState { .. })
    ));
    assert!(matches!(
        State::decode("pkg: ^1.0\npkg: ^2.0\n"),
        Err(DBError::InvalidState { .. })
    ));
    assert!(State::decode("").unwrap().requested_list().is_empty());
}

#[test]
fn a_failed_swap_leaves_the_prior_content_recoverable() {
    // simulate a crash that got as far as moving the old state aside:
    // the state file is gone but the moved-aside copy remains, and a
    // load still sees the prior content
    let fs = memfs();
    let mut locks = LockRegistry::new();
    let mut db = Database::new(fs.clone(), String::from("db1"));
    let txnm = db.transaction().unwrap();
    let txn = db.begin(&txnm, &mut locks).unwrap();
    db.add(&req("keep", ">=1.0")).unwrap();
    db.commit(txn, &mut locks).unwrap();

    let dir = fs.join("pkgdb").unwrap();
    let state = dir.join("state.txt").unwrap();
    let aside = dir.join("state.txt.old").unwrap();
    state.move_file(&aside).unwrap();

    let txn = db.begin(&txnm, &mut locks).unwrap();
    let got = db.requested().unwrap();
    assert_eq!(got.len(), 1);
    assert_eq!(got[0].name.as_str(), "keep");
    db.rollback(txn, &mut locks);
}

#[test]
fn install_runs_one_full_transaction() {
    let fs = memfs();
    let mut locks = LockRegistry::new();
    let mut mgr = MQPkg::new(fs.clone(), String::from("db1")).unwrap();
    let committed = mgr
        .install(&[req("one", "^1.0"), req("two", "~2.3")], &mut locks)
        .unwrap();
    assert_eq!(committed.len(), 2);
    assert_eq!(committed[0].name.as_str(), "one");
    assert_eq!(committed[1].name.as_str(), "two");

    let mut db = Database::new(fs, String::from("db1"));
    let txnm = db.transaction().unwrap();
    let txn = db.begin(&txnm, &mut locks).unwrap();
    let got = db.requested().unwrap();
    assert_eq!(got.len(), 2);
    assert_eq!(got[0].name.as_str(), "one");
    assert_eq!(got[1].name.as_str(), "two");
    db.rollback(txn, &mut locks);
}

#[test]
fn install_keeps_the_last_constraint_per_name() {
    let fs = memfs();
    let mut locks = LockRegistry::new();
    let mut mgr = MQPkg::new(fs, String::from("db1")).unwrap();
    let committed = mgr
        .install(&[req("dup", "^1.0"), req("dup", ">=3.0")], &mut locks)
        .unwrap();
    assert_eq!(committed.len(), 1);
    assert_eq!(committed[0].name.as_str(), "dup");
    assert_eq!(committed[0].version.as_str(), ">=3.0");
}

#[test]
fn add_outside_install_requires_a_transaction() {
    let fs = memfs();
    let mut mgr = MQPkg::new(fs, String::from("db1")).unwrap();
    assert!(mgr.add(&req("pkg", "^1.0")).is_err());
}
