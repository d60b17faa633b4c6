use redis_lite::storage::{Storage, StorageValue};

fn opts(pairs: &[(&str, &str)]) -> Vec<(String, String)> {
    pairs.iter().map(|(a, b)| (a.to_string(), b.to_string())).collect()
}

#[test]
fn set_then_get_without_ttl() {
    let mut s = Storage::new();
    s.set("k".to_string(), "v".to_string(), Vec::new());
    assert_eq!(s.get("k"), Some("v".to_string()));
    assert_eq!(s.get("k"), Some("v".to_string()));
}

#[test]
fn get_missing_key() {
    let mut s = Storage::new();
    assert_eq!(s.get("nope"), None);
}

#[test]
fn zero_second_ttl_expires_at_once() {
    let mut s = Storage::new();
    s.set("k".to_string(), "v".to_string(), opts(&[("EX", "0")]));
    assert_eq!(s.get("k"), None);
}

#[test]
fn ttl_boundaries_with_explicit_times() {
    let mut s = Storage::new();
    s.set_at("k".to_string(), "v".to_string(), opts(&[("PX", "100")]), 1_000);
    assert_eq!(s.get_at("k", 100_000_999), Some("v".to_string()));
    assert_eq!(s.get_at("k", 100_001_000), None);
    assert_eq!(s.get_at("k", 0), None);
}

#[test]
fn ex_counts_seconds() {
    let mut s = Storage::new();
    s.set_at("k".to_string(), "v".to_string(), opts(&[("EX", "2")]), 5);
    assert_eq!(s.get_at("k", 2_000_000_004), Some("v".to_string()));
    assert_eq!(s.get_at("k", 2_000_000_005), None);
}

#[test]
fn expired_reads_stay_empty() {
    let mut s = Storage::new();
    s.set_at("k".to_string(), "v".to_string(), opts(&[("EX", "1")]), 0);
    assert_eq!(s.get_at("k", 1_000_000_000), None);
    assert_eq!(s.get_at("k", 1_000_000_000), None);
    assert_eq!(s.get_at("k", 0), None);
    assert!(s.keys("*").is_empty());
}

#[test]
fn overwrite_clears_ttl() {
    let mut s = Storage::new();
    s.set_at("k".to_string(), "v1".to_string(), opts(&[("EX", "100")]), 0);
    s.set_at("k".to_string(), "v2".to_string(), Vec::new(), 1);
    assert_eq!(s.get_at("k", u128::MAX), Some("v2".to_string()));
}

#[test]
fn bad_option_value_is_skipped() {
    let mut s = Storage::new();
    s.set_at("k".to_string(), "v".to_string(), opts(&[("EX", "soon"), ("PX", "-5")]), 0);
    assert_eq!(s.get_at("k", u128::MAX), Some("v".to_string()));
    s.set_at("j".to_string(), "v".to_string(), opts(&[("EX", "+1")]), 0);
    assert_eq!(s.get_at("j", 1_000_000_000), None);
}

#[test]
fn unknown_option_is_ignored() {
    let mut s = Storage::new();
    s.set_at("k".to_string(), "v".to_string(), opts(&[("KEEPTTL", "1")]), 0);
    assert_eq!(s.get_at("k", u128::MAX), Some("v".to_string()));
}

#[test]
fn last_expiry_option_wins() {
    let mut s = Storage::new();
    s.set_at("k".to_string(), "v".to_string(), opts(&[("EX", "1"), ("PX", "10")]), 0);
    assert_eq!(s.get_at("k", 10_000_000), None);
    s.set_at("j".to_string(), "v".to_string(), opts(&[("PX", "10"), ("EX", "1")]), 0);
    assert_eq!(s.get_at("j", 10_000_000), Some("v".to_string()));
}

#[test]
fn huge_ttl_saturates() {
    let mut s = Storage::new();
    s.set_at("k".to_string(), "v".to_string(), opts(&[("EX", "18446744073709551615")]), u128::MAX - 5);
    assert_eq!(s.get_at("k", u128::MAX - 1), Some("v".to_string()));
    assert_eq!(s.get_at("k", u128::MAX), None);
}

#[test]
fn too_large_ttl_is_skipped() {
    let mut s = Storage::new();
    s.set_at("k".to_string(), "v".to_string(), opts(&[("EX", "18446744073709551616")]), 0);
    assert_eq!(s.get_at("k", u128::MAX), Some("v".to_string()));
}

#[test]
fn remove_is_idempotent() {
    let mut s = Storage::new();
    s.set("k".to_string(), "v".to_string(), Vec::new());
    s.remove("k");
    s.remove("k");
    assert_eq!(s.get("k"), None);
}

#[test]
fn keys_matches_glob() {
    let mut s = Storage::new();
    for k in ["foo", "food", "bar", "fo"] {
        s.set(k.to_string(), "1".to_string(), Vec::new());
    }
    let mut all = s.keys("*");
    all.sort();
    assert_eq!(all, vec!["bar", "fo", "foo", "food"]);
    let mut f = s.keys("fo?");
    f.sort();
    assert_eq!(f, vec!["foo"]);
    let mut g = s.keys("f*d");
    g.sort();
    assert_eq!(g, vec!["food"]);
    assert!(s.keys("x*").is_empty());
}

#[test]
fn storage_value_new_has_no_expiry() {
    let v = StorageValue::new("x".to_string(), 7);
    let text = format!("{:?}", v);
    assert!(text.contains("expires_at: None"));
}

#[test]
fn clock_advances() {
    let s = Storage::new();
    let a = s.now();
    let b = s.now();
    assert!(b >= a);
}
