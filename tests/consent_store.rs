use helix_stores::consent::{self, ConsentRecord, ConsentStore};

fn record_eq(r: &ConsentRecord, scope: &str, granted_at: u64, revoked_at: Option<u64>, signer: &str) -> bool {
    r.scope == scope && r.granted_at == granted_at && r.revoked_at == revoked_at && r.signer == signer
}

#[test]
fn grant_revoke_scenario() {
    let mut store = ConsentStore::new();
    consent::grant(&mut store, "health-data".to_string(), "alice".to_string(), 100);
    let r = consent::get(&store, "health-data".to_string()).unwrap();
    assert!(record_eq(&r, "health-data", 100, None, "alice"));
    consent::revoke(&mut store, "health-data".to_string(), 200);
    let r = consent::get(&store, "health-data".to_string()).unwrap();
    assert!(record_eq(&r, "health-data", 100, Some(200), "alice"));
    consent::revoke(&mut store, "health-data".to_string(), 300);
    let r = consent::get(&store, "health-data".to_string()).unwrap();
    assert!(record_eq(&r, "health-data", 100, Some(200), "alice"));
}

#[test]
fn get_of_unknown_scope_is_absent() {
    let mut store = ConsentStore::new();
    assert!(consent::get(&store, "x".to_string()).is_none());
    consent::grant(&mut store, "y".to_string(), "bob".to_string(), 1);
    assert!(consent::get(&store, "x".to_string()).is_none());
    assert!(consent::get(&store, "".to_string()).is_none());
}

#[test]
fn revoke_of_absent_scope_changes_nothing() {
    let mut store = ConsentStore::new();
    consent::revoke(&mut store, "missing".to_string(), 7);
    assert_eq!(store.len(), 0);
    assert!(consent::get(&store, "missing".to_string()).is_none());
    consent::grant(&mut store, "a".to_string(), "s".to_string(), 1);
    let before = store.snapshot();
    consent::revoke(&mut store, "b".to_string(), 9);
    assert_eq!(store.snapshot(), before);
    assert_eq!(store.len(), 1);
}

#[test]
fn regrant_replaces_revoked_record() {
    let mut store = ConsentStore::new();
    consent::grant(&mut store, "s".to_string(), "alice".to_string(), 1);
    consent::revoke(&mut store, "s".to_string(), 2);
    consent::grant(&mut store, "s".to_string(), "bob".to_string(), 3);
    let r = consent::get(&store, "s".to_string()).unwrap();
    assert!(record_eq(&r, "s", 3, None, "bob"));
    assert_eq!(store.len(), 1);
}

#[test]
fn consent_proofs_in_scope_order() {
    let mut store = ConsentStore::new();
    consent::grant(&mut store, "m".to_string(), "1".to_string(), 1);
    consent::grant(&mut store, "b".to_string(), "2".to_string(), 2);
    consent::grant(&mut store, "z".to_string(), "3".to_string(), 3);
    consent::grant(&mut store, "ab".to_string(), "4".to_string(), 4);
    let all = consent::proofs(&store);
    let scopes: Vec<&str> = all.iter().map(|r| r.scope.as_str()).collect();
    assert_eq!(scopes, vec!["ab", "b", "m", "z"]);
}

#[test]
fn consent_snapshot_round_trip() {
    let mut store = ConsentStore::new();
    consent::grant(&mut store, "health-data".to_string(), "alice".to_string(), 100);
    consent::grant(&mut store, "ünïcode".to_string(), "bob".to_string(), u64::MAX);
    consent::revoke(&mut store, "health-data".to_string(), 200);
    let bytes = store.snapshot();
    assert_eq!(bytes, store.snapshot());
    let back = ConsentStore::restore(&bytes).unwrap();
    let a = consent::proofs(&store);
    let b = consent::proofs(&back);
    assert_eq!(a.len(), b.len());
    for (x, y) in a.iter().zip(b.iter()) {
        assert!(record_eq(y, &x.scope, x.granted_at, x.revoked_at, &x.signer));
    }
    let r = consent::get(&back, "ünïcode".to_string()).unwrap();
    assert!(record_eq(&r, "ünïcode", u64::MAX, None, "bob"));
    assert_eq!(back.snapshot(), bytes);
}

#[test]
fn empty_store_snapshot_layout() {
    let store = ConsentStore::new();
    let bytes = store.snapshot();
    assert_eq!(bytes, vec![0x48, 0x58, 0x53, 0x01, 0, 0, 0, 0, 0, 0, 0, 0]);
    let back = ConsentStore::restore(&bytes).unwrap();
    assert_eq!(back.len(), 0);
}

#[test]
fn garbage_restores_to_empty() {
    let garbage: Vec<u8> = vec![1, 2, 3, 4, 5, 6, 7, 8, 9, 10, 11, 12, 13];
    assert!(ConsentStore::restore(&garbage).is_none());
    let store = ConsentStore::restore_or_empty(&garbage);
    assert_eq!(store.len(), 0);
    assert_eq!(ConsentStore::restore_or_empty(&[]).len(), 0);
}

#[test]
fn truncated_and_padded_snapshots_are_rejected() {
    let mut store = ConsentStore::new();
    consent::grant(&mut store, "a".to_string(), "b".to_string(), 1);
    let bytes = store.snapshot();
    for cut in 0..bytes.len() {
        assert!(ConsentStore::restore(&bytes[..cut]).is_none());
    }
    let mut longer = bytes.clone();
    longer.push(0);
    assert!(ConsentStore::restore(&longer).is_none());
    let mut other_version = bytes.clone();
    other_version[3] = 2;
    assert!(ConsentStore::restore(&other_version).is_none());
}

fn one_entry_snapshot(key: &[u8], scope: &[u8]) -> Vec<u8> {
    let mut b = vec![0x48, 0x58, 0x53, 0x01];
    b.extend_from_slice(&1u64.to_le_bytes());
    b.extend_from_slice(&(key.len() as u64).to_le_bytes());
    b.extend_from_slice(key);
    b.extend_from_slice(&(scope.len() as u64).to_le_bytes());
    b.extend_from_slice(scope);
    b.extend_from_slice(&5u64.to_le_bytes());
    b.push(0);
    b.extend_from_slice(&0u64.to_le_bytes());
    b
}

#[test]
fn invalid_utf8_snapshot_is_rejected() {
    assert!(ConsentStore::restore(&one_entry_snapshot(b"k", &[0xff])).is_none());
    let ok = ConsentStore::restore(&one_entry_snapshot(b"k", "é".as_bytes())).unwrap();
    let all = consent::proofs(&ok);
    assert_eq!(all.len(), 1);
    assert_eq!(all[0].scope, "é");
    assert_eq!(all[0].granted_at, 5);
    assert_eq!(all[0].signer, "");
}

#[test]
fn unordered_keys_are_rejected() {
    let mut b = vec![0x48, 0x58, 0x53, 0x01];
    b.extend_from_slice(&2u64.to_le_bytes());
    for key in [b"b", b"a"] {
        b.extend_from_slice(&1u64.to_le_bytes());
        b.extend_from_slice(key);
        b.extend_from_slice(&0u64.to_le_bytes());
        b.extend_from_slice(&0u64.to_le_bytes());
        b.push(0);
        b.extend_from_slice(&0u64.to_le_bytes());
    }
    assert!(ConsentStore::restore(&b).is_none());
}
