use target_latency::storage::Storage;

#[test]
fn storage_owner_takes_newest_thief_oldest() {
    let mut s: Storage<u32> = Storage::new();
    assert!(s.is_empty());
    assert_eq!(s.steal(), None);
    assert_eq!(s.get(), None);
    s.add(1);
    s.add(2);
    s.add(3);
    assert!(!s.is_empty());
    assert_eq!(s.get(), Some(3));
    assert_eq!(s.steal(), Some(1));
    assert_eq!(s.steal(), Some(2));
    assert!(s.is_empty());
}
