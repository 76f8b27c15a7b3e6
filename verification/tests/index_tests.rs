//! Tests of the packed-memory-array index: lookup, insertion, the
//! rebalance engine, and the capacity error.

use pma_index::StaticSearchTree;

#[test]
fn finds_what_was_added() {
    let mut t = StaticSearchTree::new(4);
    assert!(t.add(5, "Hello"));
    assert!(t.add(3, "World"));
    assert!(t.add(2, "!"));

    assert_eq!(t.find(5), Some("Hello"));
    assert_eq!(t.find(4), None);
    assert_eq!(t.find(3), Some("World"));
    assert_eq!(t.find(2), Some("!"));
}

/// Every cell's version agrees with its marker's version when no
/// mutation is in flight, and a full scan of the store yields the keys
/// in ascending order.
fn scan_keys(t: &StaticSearchTree<u64>) -> Vec<u64> {
    let mut seen = Vec::new();
    for i in 0..t.cell_count() {
        let (version, marker_version, key, value) = t.cell_state(i);
        assert_eq!(version, marker_version);
        if let Some(k) = key {
            seen.push(k);
            assert!(value.is_some());
        }
    }
    seen
}

#[test]
fn reverse_inserts_come_out_sorted() {
    let mut t = StaticSearchTree::new(4);
    for k in [4u64, 3, 2, 1] {
        assert!(t.add(k, k * 10));
    }
    assert_eq!(scan_keys(&t), vec![1, 2, 3, 4]);
    for k in [1u64, 2, 3, 4] {
        assert_eq!(t.find(k), Some(k * 10));
    }
}

#[test]
fn middle_insert_opens_a_gap() {
    let mut t = StaticSearchTree::new(4);
    assert!(t.add(2, 20u64));
    assert!(t.add(6, 60));
    assert!(t.add(4, 40));
    assert_eq!(scan_keys(&t), vec![2, 4, 6]);
    assert_eq!(t.find(2), Some(20));
    assert_eq!(t.find(4), Some(40));
    assert_eq!(t.find(6), Some(60));
    assert_eq!(t.find(5), None);
}

#[test]
fn second_value_wins() {
    let mut t = StaticSearchTree::new(4);
    assert!(t.add(7, "one"));
    assert!(t.add(7, "two"));
    assert_eq!(t.find(7), Some("two"));
}

#[test]
fn read_your_writes_survives_other_keys() {
    let mut t = StaticSearchTree::new(8);
    assert!(t.add(5, 1u64));
    assert_eq!(t.find(5), Some(1));
    assert!(t.add(6, 2));
    assert!(t.add(3, 3));
    assert_eq!(t.find(5), Some(1));
}

#[test]
fn never_inserted_keys_are_absent() {
    let mut t = StaticSearchTree::new(8);
    assert_eq!(t.find(42), None);
    assert!(t.add(41, 1u64));
    assert!(t.add(43, 2));
    assert_eq!(t.find(42), None);
}

#[test]
fn capacity_exhaustion_reports_failure() {
    // A store sized for two keys has eight active cells; ascending
    // inserts fill them left to right, and the ninth must fail.
    let mut t = StaticSearchTree::new(2);
    let mut added: u64 = 0;
    let mut k: u64 = 10;
    let mut hit_false = false;
    for _ in 0..20 {
        if t.add(k, k) {
            added += 1;
            k += 10;
        } else {
            hit_false = true;
            break;
        }
    }
    assert!(hit_false);
    assert_eq!(added, 8);
    assert_eq!(t.find(k), None);
    assert_eq!(t.find(10), Some(10));
    assert_eq!(t.find(80), Some(80));
}
