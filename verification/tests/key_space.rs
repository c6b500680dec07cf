use meilidb::database::key_space::{copy_entries, KeySpace, Snapshot};

fn pair(key: &[u8], value: &[u8]) -> (Vec<u8>, Vec<u8>) {
    (key.to_vec(), value.to_vec())
}

#[test]
fn entries_must_be_strictly_increasing() {
    assert!(Snapshot::from_entries(vec![]).is_some());
    assert!(Snapshot::from_entries(vec![pair(b"a", b"1")]).is_some());
    assert!(Snapshot::from_entries(vec![pair(b"a", b"1"), pair(b"ab", b"2"), pair(b"b", b"3")]).is_some());
    assert!(Snapshot::from_entries(vec![pair(b"b", b"1"), pair(b"a", b"2")]).is_none());
    assert!(Snapshot::from_entries(vec![pair(b"a", b"1"), pair(b"a", b"2")]).is_none());
    assert!(KeySpace::from_entries(vec![pair(b"a", b"1"), pair(b"c", b"2"), pair(b"b", b"3")]).is_none());
}

#[test]
fn get_finds_exactly_the_stored_keys() {
    let entries = vec![pair(b"a", b"1"), pair(b"ab", b"2"), pair(b"b", b"3"), pair(b"d", b"4")];
    let snapshot = Snapshot::from_entries(entries.clone()).unwrap();
    assert_eq!(snapshot.len(), 4);
    assert_eq!(snapshot.entries(), &entries);
    assert_eq!(snapshot.get(b"a"), Some(&b"1".to_vec()));
    assert_eq!(snapshot.get(b"ab"), Some(&b"2".to_vec()));
    assert_eq!(snapshot.get(b"b"), Some(&b"3".to_vec()));
    assert_eq!(snapshot.get(b"d"), Some(&b"4".to_vec()));
    assert_eq!(snapshot.get(b""), None);
    assert_eq!(snapshot.get(b"aa"), None);
    assert_eq!(snapshot.get(b"c"), None);
    assert_eq!(snapshot.get(b"e"), None);
}

#[test]
fn lower_bound_is_where_a_scan_starts() {
    let snapshot = Snapshot::from_entries(vec![pair(b"a", b"1"), pair(b"c", b"2"), pair(b"e", b"3")]).unwrap();
    assert_eq!(snapshot.lower_bound(b""), 0);
    assert_eq!(snapshot.lower_bound(b"a"), 0);
    assert_eq!(snapshot.lower_bound(b"b"), 1);
    assert_eq!(snapshot.lower_bound(b"c"), 1);
    assert_eq!(snapshot.lower_bound(b"d"), 2);
    assert_eq!(snapshot.lower_bound(b"e"), 2);
    assert_eq!(snapshot.lower_bound(b"f"), 3);
}

#[test]
fn put_inserts_in_order_and_replaces() {
    let mut space = KeySpace::new();
    assert_eq!(space.len(), 0);
    space.put(b"m".to_vec(), b"1".to_vec());
    space.put(b"a".to_vec(), b"2".to_vec());
    space.put(b"z".to_vec(), b"3".to_vec());
    space.put(b"mm".to_vec(), b"4".to_vec());
    assert_eq!(
        space.entries(),
        &vec![pair(b"a", b"2"), pair(b"m", b"1"), pair(b"mm", b"4"), pair(b"z", b"3")]
    );
    space.put(b"m".to_vec(), b"5".to_vec());
    assert_eq!(space.len(), 4);
    assert_eq!(space.get(b"m"), Some(&b"5".to_vec()));
    assert_eq!(space.get(b"a"), Some(&b"2".to_vec()));
    assert_eq!(space.lower_bound(b"n"), 3);
}

#[test]
fn snapshot_is_a_copy() {
    let mut space = KeySpace::new();
    space.put(b"k".to_vec(), b"old".to_vec());
    let snapshot = Snapshot::of(&space);
    space.put(b"k".to_vec(), b"new".to_vec());
    space.put(b"l".to_vec(), b"more".to_vec());
    assert_eq!(snapshot.get(b"k"), Some(&b"old".to_vec()));
    assert_eq!(snapshot.get(b"l"), None);
    assert_eq!(snapshot.len(), 1);
    assert_eq!(snapshot.clone(), snapshot);
    assert_eq!(copy_entries(snapshot.entries()), vec![pair(b"k", b"old")]);
}
