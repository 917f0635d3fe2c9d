use rust_hash_table::hash_table::{HashTable, INITIAL_CAPACITY};

#[test]
fn test_len_counts_distinct_keys_minus_removed() {
    let mut table: HashTable<i32, i32> = HashTable::new();
    table.insert(1, 10);
    table.insert(2, 20);
    table.insert(2, 21);
    table.insert(3, 30);
    assert_eq!(table.len(), 3);
    table.remove(2);
    assert_eq!(table.len(), 2);
    table.remove(7);
    assert_eq!(table.len(), 2);
}

#[test]
fn test_update_in_place_keeps_len() {
    let mut table: HashTable<i32, i32> = HashTable::new();
    table.insert(5, 1);
    let len_before = table.len();
    table.insert(5, 2);
    assert_eq!(table.len(), len_before);
    assert_eq!(table.get(&5), Some(&2));
}

#[test]
fn test_remove_returns_prior_value_and_decrements_len() {
    let mut table: HashTable<i32, i32> = HashTable::new();
    table.insert(8, 80);
    table.insert(9, 90);
    assert_eq!(table.remove(8), Some(80));
    assert_eq!(table.get(&8), None);
    assert_eq!(table.len(), 1);
}

#[test]
fn test_remove_absent_keeps_len_and_size() {
    let mut table: HashTable<i32, i32> = HashTable::new();
    table.insert(1, 1);
    let len_before = table.len();
    let size_before = table.size();
    assert_eq!(table.remove(42), None);
    assert_eq!(table.len(), len_before);
    assert_eq!(table.size(), size_before);
}

#[test]
fn test_reinsert_after_remove_restores_entry() {
    let mut table: HashTable<i32, i32> = HashTable::new();
    table.insert(4, 44);
    assert_eq!(table.remove(4), Some(44));
    let len_after_remove = table.len();
    table.insert(4, 45);
    assert_eq!(table.get(&4), Some(&45));
    assert_eq!(table.len(), len_after_remove + 1);
}

#[test]
fn test_resize_triggers_past_seventy_percent() {
    let mut table: HashTable<i32, i32> = HashTable::new();
    for i in 0..45 {
        table.insert(i, 0);
    }
    // 45 entries in 64 slots is just above 70%, so the next insert grows
    // the table before placing its entry.
    assert_eq!(table.size(), INITIAL_CAPACITY);
    table.insert(45, 0);
    assert_eq!(table.size(), 2 * INITIAL_CAPACITY);
    assert_eq!(table.len(), 46);
}

#[test]
fn test_sixty_five_keys_resize_once() {
    let mut table: HashTable<i32, i32> = HashTable::new();
    for i in 0..65 {
        table.insert(i, i);
    }
    assert_eq!(table.len(), 65);
    assert!(table.size() > 64);
    assert_eq!(table.size(), 128);
    for i in 0..65 {
        assert_eq!(table.get(&i), Some(&i));
    }
}

#[test]
fn test_string_lookup_by_equal_content() {
    let mut table: HashTable<String, i32> = HashTable::new();
    let stored = String::from("shared key");
    table.insert(stored, 11);
    let mut probe_key = String::from("shared ");
    probe_key.push_str("key");
    assert_eq!(table.get(&probe_key), Some(&11));
    assert_eq!(table.remove(probe_key), Some(11));
}

#[test]
fn test_negative_integer_keys() {
    let mut table: HashTable<i32, i32> = HashTable::new();
    table.insert(-1, 100);
    table.insert(i32::MIN, 200);
    table.insert(i32::MAX, 300);
    assert_eq!(table.get(&-1), Some(&100));
    assert_eq!(table.get(&i32::MIN), Some(&200));
    assert_eq!(table.get(&i32::MAX), Some(&300));
    assert_eq!(table.get(&1), None);
}

#[test]
fn test_from_duplicate_keys_last_wins() {
    let table = HashTable::from(vec![(1, 10), (2, 20), (1, 11)]);
    assert_eq!(table.get(&1), Some(&11));
    assert_eq!(table.get(&2), Some(&20));
    assert_eq!(table.len(), 2);
}

#[test]
fn test_get_mut_write_visible_after_probe_chain() {
    let mut table: HashTable<String, String> = HashTable::new();
    table.insert(String::from("a"), String::from("1"));
    table.insert(String::from("b"), String::from("2"));
    let value = table.get_mut(&String::from("b")).unwrap();
    value.push_str("3");
    assert_eq!(table.get(&String::from("b")), Some(&String::from("23")));
    assert_eq!(table.get(&String::from("a")), Some(&String::from("1")));
}

#[test]
fn test_default_is_empty_table() {
    let table: HashTable<i32, i32> = Default::default();
    assert!(table.is_empty());
    assert_eq!(table.size(), INITIAL_CAPACITY);
}

#[test]
fn test_tombstones_keep_probe_chains() {
    let mut table: HashTable<i32, i32> = HashTable::new();
    // Fill enough keys that some probe chains collide, remove every other
    // key, and check the rest stay reachable through the tombstones.
    for i in 0..40 {
        table.insert(i, i * 2);
    }
    for i in 0..40 {
        if i % 2 == 0 {
            assert_eq!(table.remove(i), Some(i * 2));
        }
    }
    assert_eq!(table.len(), 20);
    for i in 0..40 {
        if i % 2 == 0 {
            assert_eq!(table.get(&i), None);
        } else {
            assert_eq!(table.get(&i), Some(&(i * 2)));
        }
    }
}
