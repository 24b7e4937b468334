use helix_stores::entitlements::{self, EntitlementStore};
use helix_stores::identity::{self, AnchorStore, CallerId};
use helix_stores::vault::{self, VaultPointer, VaultStore};

#[test]
fn second_registration_replaces_first() {
    let mut store = AnchorStore::new();
    let x = CallerId::from_bytes(&[1, 2, 3]).unwrap();
    identity::register(&mut store, &x, "A1".to_string(), "T1".to_string(), 5);
    identity::register(&mut store, &x, "A2".to_string(), "T1".to_string(), 9);
    let a = identity::get(&store, &x).unwrap();
    assert_eq!(a.anchor_id, "A2");
    assert_eq!(a.tenant, "T1");
    assert_eq!(a.created_at, 9);
    let all = identity::proofs(&store);
    assert_eq!(all.len(), 1);
    assert_eq!(all[0].anchor_id, "A2");
}

#[test]
fn callers_are_kept_apart_and_ordered_by_length_first() {
    let mut store = AnchorStore::new();
    let long = CallerId::from_bytes(&[0, 0]).unwrap();
    let short = CallerId::from_bytes(&[9]).unwrap();
    let anon = CallerId::from_bytes(&[]).unwrap();
    identity::register(&mut store, &long, "L".to_string(), "t".to_string(), 1);
    identity::register(&mut store, &short, "S".to_string(), "t".to_string(), 2);
    identity::register(&mut store, &anon, "E".to_string(), "t".to_string(), 3);
    let ids: Vec<String> = identity::proofs(&store).into_iter().map(|a| a.anchor_id).collect();
    assert_eq!(ids, vec!["E".to_string(), "S".to_string(), "L".to_string()]);
    assert_eq!(identity::get(&store, &short).unwrap().anchor_id, "S");
    let other = CallerId::from_bytes(&[9, 9]).unwrap();
    assert!(identity::get(&store, &other).is_none());
}

#[test]
fn caller_id_length_limit() {
    assert!(CallerId::from_bytes(&[7u8; 29]).is_some());
    assert!(CallerId::from_bytes(&[7u8; 30]).is_none());
    assert_eq!(CallerId::from_bytes(&[4, 5]).unwrap().as_slice(), &[4, 5]);
}

#[test]
fn anchor_snapshot_round_trip() {
    let mut store = AnchorStore::new();
    let x = CallerId::from_bytes(&[1]).unwrap();
    let y = CallerId::from_bytes(&[2, 3]).unwrap();
    identity::register(&mut store, &x, "A".to_string(), "T".to_string(), 1);
    identity::register(&mut store, &y, "B".to_string(), "U".to_string(), 2);
    let back = AnchorStore::restore(&store.snapshot()).unwrap();
    let b = identity::get(&back, &y).unwrap();
    assert_eq!((b.anchor_id.as_str(), b.tenant.as_str(), b.created_at), ("B", "U", 2));
    assert_eq!(back.len(), 2);
}

#[test]
fn entitlement_put_get_and_replace() {
    let mut store = EntitlementStore::new();
    assert!(entitlements::get(&store, "acme".to_string()).is_none());
    entitlements::put(&mut store, "acme".to_string(), "gold".to_string(), vec!["read".to_string(), "read".to_string()]);
    let e = entitlements::get(&store, "acme".to_string()).unwrap();
    assert_eq!(e.tier, "gold");
    assert_eq!(e.capabilities, vec!["read".to_string(), "read".to_string()]);
    entitlements::put(&mut store, "acme".to_string(), "basic".to_string(), vec![]);
    let e = entitlements::get(&store, "acme".to_string()).unwrap();
    assert_eq!(e.tier, "basic");
    assert!(e.capabilities.is_empty());
    assert_eq!(entitlements::proofs(&store).len(), 1);
}

#[test]
fn entitlement_snapshot_round_trip() {
    let mut store = EntitlementStore::new();
    entitlements::put(&mut store, "b".to_string(), "t1".to_string(), vec!["x".to_string(), "yz".to_string()]);
    entitlements::put(&mut store, "a".to_string(), "t2".to_string(), vec![]);
    let bytes = store.snapshot();
    let back = EntitlementStore::restore(&bytes).unwrap();
    let all = entitlements::proofs(&back);
    assert_eq!(all.len(), 2);
    assert_eq!(all[0].tier, "t2");
    assert_eq!(all[1].tier, "t1");
    assert_eq!(all[1].capabilities, vec!["x".to_string(), "yz".to_string()]);
    assert_eq!(back.snapshot(), bytes);
}

#[test]
fn vault_distinct_writes_listed_in_key_order() {
    let mut store = VaultStore::new();
    let keys = ["k3", "k1", "k2", "k10"];
    for (i, k) in keys.iter().enumerate() {
        vault::put(&mut store, k.to_string(), VaultPointer { key_id: format!("id{}", i), expires_at: if i % 2 == 0 { None } else { Some(i as u64) } });
    }
    let all = vault::proofs(&store);
    assert_eq!(all.len(), 4);
    let ids: Vec<&str> = all.iter().map(|p| p.key_id.as_str()).collect();
    assert_eq!(ids, vec!["id1", "id3", "id2", "id0"]);
    let p = vault::get(&store, "k1".to_string()).unwrap();
    assert_eq!(p.key_id, "id1");
    assert_eq!(p.expires_at, Some(1));
    assert!(vault::get(&store, "k4".to_string()).is_none());
}

#[test]
fn vault_last_write_wins_and_round_trip() {
    let mut store = VaultStore::new();
    vault::put(&mut store, "k".to_string(), VaultPointer { key_id: "v1".to_string(), expires_at: Some(1) });
    vault::put(&mut store, "k".to_string(), VaultPointer { key_id: "v2".to_string(), expires_at: None });
    let p = vault::get(&store, "k".to_string()).unwrap();
    assert_eq!(p.key_id, "v2");
    assert_eq!(p.expires_at, None);
    let back = VaultStore::restore_or_empty(&store.snapshot());
    assert_eq!(back.len(), 1);
    assert_eq!(vault::get(&back, "k".to_string()).unwrap().key_id, "v2");
    assert_eq!(VaultStore::restore_or_empty(b"not a snapshot").len(), 0);
}
