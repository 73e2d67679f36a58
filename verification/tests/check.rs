use casier::commands::check::{check_passes, compare};
use casier::strmap::KeySet;

fn set(keys: &[&str]) -> KeySet {
    let mut s = KeySet::new();
    for k in keys {
        s.insert(k.to_string());
    }
    s
}

#[test]
fn compare_reports_both_directions() {
    let local = set(&["A", "B", "C"]);
    let remote = set(&["B", "C", "D"]);
    let (missing_remote, missing_local) = compare(&local, &remote);
    assert_eq!(missing_remote, vec!["A".to_string()]);
    assert_eq!(missing_local, vec!["D".to_string()]);
}

#[test]
fn compare_in_sync() {
    let keys = set(&["X", "Y"]);
    let (missing_remote, missing_local) = compare(&keys, &keys);
    assert!(missing_remote.is_empty());
    assert!(missing_local.is_empty());
}

#[test]
fn compare_keeps_order_and_the_verdict_follows_the_file() {
    let local = set(&["Z", "A", "M", "Q"]);
    let remote = set(&["M"]);
    let (missing_remote, missing_local) = compare(&local, &remote);
    assert_eq!(missing_remote, vec!["A".to_string(), "Q".to_string(), "Z".to_string()]);
    assert!(missing_local.is_empty());
    assert!(!check_passes(&missing_remote));
    assert!(check_passes(&Vec::new()));
}

#[test]
fn key_sets_hold_each_key_once() {
    let s = set(&["b", "a", "b", "a"]);
    assert_eq!(s.len(), 2);
    assert!(s.contains("a"));
    assert!(!s.contains("c"));
    assert_eq!(s.to_vec(), vec!["a".to_string(), "b".to_string()]);
}
