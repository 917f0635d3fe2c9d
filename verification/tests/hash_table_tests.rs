use rust_hash_table::hash_table::{HashTable, INITIAL_CAPACITY};

#[test]
fn test_create_hash_table() {
    let hash_table: HashTable<i32, i32> = HashTable::new();
    assert_eq!(hash_table.size(), INITIAL_CAPACITY);
}

#[test]
fn test_len_when_empty() {
    let hash_table: HashTable<i32, i32> = HashTable::new();
    assert_eq!(hash_table.len(), 0);
}

#[test]
fn test_is_empty_when_empty() {
    let hash_table: HashTable<i32, i32> = HashTable::new();
    assert!(hash_table.is_empty());
}

#[test]
fn test_is_empty_when_not_empty() {
    let mut hash_table: HashTable<i32, i32> = HashTable::new();
    hash_table.insert(0, 0);
    assert!(!hash_table.is_empty());
}

#[test]
fn test_size_when_initialized() {
    let hash_table: HashTable<i32, i32> = HashTable::new();
    assert_eq!(hash_table.size(), INITIAL_CAPACITY);
}

#[test]
fn test_insert_increments_length() {
    let mut hash_table: HashTable<i32, i32> = HashTable::new();
    hash_table.insert(0, 0);
    assert_eq!(hash_table.len(), 1);
}

#[test]
fn test_insert_string_does_not_panic() {
    let mut hash_table: HashTable<String, String> = HashTable::new();
    hash_table.insert("hello".to_string(), "world".to_string());
}

#[test]
fn test_resizing_when_collision() {
    let mut hash_table: HashTable<i32, i32> = HashTable::new();
    for i in 0..(INITIAL_CAPACITY + 1) {
        hash_table.insert(i.try_into().unwrap(), 0);
    }
    assert_eq!(hash_table.len(), INITIAL_CAPACITY + 1);
    assert!(hash_table.size() > 1);
}

#[test]
fn test_insert_and_get() {
    let mut hash_table: HashTable<i32, i32> = HashTable::new();
    hash_table.insert(0, 0);
    assert_eq!(hash_table.get(&0), Some(&0));
}

#[test]
fn test_get_when_key_does_not_exist() {
    let hash_table: HashTable<i32, i32> = HashTable::new();
    assert_eq!(hash_table.get(&0), None);
    assert_eq!(hash_table.get(&1), None);
}

#[test]
fn test_cannot_update_with_get() {
    let mut hash_table: HashTable<i32, i32> = HashTable::new();
    hash_table.insert(0, 0);
    let mut _value = *hash_table.get(&0).unwrap();
    _value = 1;
    assert_eq!(hash_table.get(&0), Some(&0));
    assert_eq!(_value, 1);
}

#[test]
fn test_get_mutable_reference() {
    let mut hash_table: HashTable<i32, i32> = HashTable::new();
    hash_table.insert(0, 0);
    let value = hash_table.get_mut(&0).unwrap();
    *value = 1;
    assert_eq!(hash_table.get(&0), Some(&1));
}

#[test]
fn test_remove() {
    let mut hash_table: HashTable<i32, i32> = HashTable::new();
    hash_table.insert(0, 0);
    assert_eq!(hash_table.remove(0), Some(0));
    assert_eq!(hash_table.get(&0), None);
}

#[test]
fn test_remove_when_key_does_not_exist() {
    let mut hash_table: HashTable<i32, i32> = HashTable::new();
    assert_eq!(hash_table.remove(0), None);
}

#[test]
fn test_insert_after_removed() {
    let mut hash_table: HashTable<i32, i32> = HashTable::new();
    hash_table.insert(0, 0);
    hash_table.remove(0);
    assert_eq!(hash_table.len(), 0);
    hash_table.insert(0, 1);
    assert_eq!(hash_table.get(&0), Some(&1));
    assert_eq!(hash_table.len(), 1);
}

#[test]
fn test_hash_table_from_vector() {
    let hash_table = HashTable::from(vec![(0, 0), (1, 1), (2, 2)]);
    assert_eq!(hash_table.get(&0), Some(&0));
    assert_eq!(hash_table.get(&1), Some(&1));
    assert_eq!(hash_table.get(&2), Some(&2));
    assert_eq!(hash_table.get(&3), None);
    assert_eq!(hash_table.len(), 3);
}
