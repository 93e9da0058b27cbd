use fringe::keys::{compare_bytes, bytes_equal, copy_bytes};
use fringe::store::{Record, record_beats};

fn b(s: &str) -> Vec<u8> {
    s.as_bytes().to_vec()
}

fn rec(value: &str, version: u64, tombstone: bool) -> Record {
    Record {
        key: b("k"),
        value: b(value),
        version,
        modified_at: 0,
        tombstone,
    }
}

#[test]
fn byte_string_comparison() {
    assert_eq!(compare_bytes(&b(""), &b("")), 0);
    assert_eq!(compare_bytes(&b(""), &b("a")), -1);
    assert_eq!(compare_bytes(&b("a"), &b("")), 1);
    assert_eq!(compare_bytes(&b("app"), &b("apple")), -1);
    assert_eq!(compare_bytes(&b("apple"), &b("app")), 1);
    assert_eq!(compare_bytes(&b("apple"), &b("apple")), 0);
    assert_eq!(compare_bytes(&b("abc"), &b("abd")), -1);
    assert!(bytes_equal(&b("same"), &b("same")));
    assert!(!bytes_equal(&b("same"), &b("sam")));
    assert_eq!(copy_bytes(&b("xyz")), b("xyz"));
}

#[test]
fn higher_version_always_beats() {
    assert!(record_beats(&rec("small", 2, false), &rec("huge", 1, false)));
    assert!(!record_beats(&rec("huge", 1, false), &rec("small", 2, false)));
    assert!(record_beats(&rec("", 2, true), &rec("v", 1, false)));
}

#[test]
fn version_tie_prefers_tombstone_and_is_antisymmetric() {
    let dead = rec("", 1, true);
    let live = rec("v", 1, false);
    assert!(record_beats(&dead, &live));
    assert!(!record_beats(&live, &dead));
    // a record never beats its own equal
    assert!(!record_beats(&live, &rec("v", 1, false)));
    // differing values at a version tie: exactly one side wins
    let x = rec("left", 1, false);
    let y = rec("right", 1, false);
    assert_ne!(record_beats(&x, &y), record_beats(&y, &x));
}
