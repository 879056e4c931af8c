use rdap_core::cache::{ttl_expired, Cache};

#[test]
fn test_cache_set_get_roundtrip() {
    let mut c = Cache::new();
    c.set("k", b"payload", 100);
    assert_eq!(c.get("k", 100), Some(b"payload".to_vec()));
    let mut c2 = Cache::new();
    c2.set("a", &[0u8, 255u8, 7u8], 5);
    assert_eq!(c2.get("a", 5), Some(vec![0u8, 255u8, 7u8]));
}

#[test]
fn test_cache_ttl_expiry() {
    // TTL of one hour: fresh at 30 minutes, stale and deleted at 61.
    let mut c = Cache::new().with_ttl(3600);
    c.set("reg", b"doc", 1000);
    assert_eq!(c.get("reg", 1000 + 1800), Some(b"doc".to_vec()));
    assert_eq!(c.get("reg", 1000 + 3660), None);
    // the record is gone afterwards, even when queried fresh
    assert_eq!(c.get("reg", 1000), None);
}

#[test]
fn test_cache_overwrite() {
    let mut c = Cache::new();
    c.set("k", b"first", 1);
    c.set("k", b"second", 2);
    assert_eq!(c.get("k", 2), Some(b"second".to_vec()));
}

#[test]
fn test_cache_clear() {
    let mut c = Cache::new();
    c.set("a", b"1", 1);
    c.set("b", b"2", 1);
    c.clear();
    assert_eq!(c.get("a", 1), None);
    assert_eq!(c.get("b", 1), None);
    // the store stays usable after clearing
    c.set("a", b"3", 2);
    assert_eq!(c.get("a", 2), Some(b"3".to_vec()));
}

#[test]
fn test_ttl_expired_fail_open() {
    // unknown write time: never stale
    assert!(!ttl_expired(None, 10_000, 0));
    assert!(ttl_expired(Some(0), 10_000, 3600));
    assert!(!ttl_expired(Some(9_000), 10_000, 3600));
    // write time in the future: not stale
    assert!(!ttl_expired(Some(20_000), 10_000, 3600));
}
