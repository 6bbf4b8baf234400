use snowmew::common::{Delete, Duplicate};
use snowmew::table::Table;

#[test]
fn table_insert_get_remove() {
    let mut t: Table<u64> = Table::new();
    assert_eq!(t.len(), 0);
    assert_eq!(t.insert(5, 50), None);
    assert_eq!(t.insert(5, 55), Some(50));
    assert_eq!(t.get(5), Some(&55));
    assert!(t.contains(5));
    assert!(t.remove(5));
    assert!(!t.remove(5));
    assert_eq!(t.get(5), None);
}

#[test]
fn table_keys_are_ordered() {
    let mut t: Table<u8> = Table::new();
    t.insert(9, 1);
    t.insert(2, 2);
    t.insert(5, 3);
    assert_eq!(t.keys(), vec![2, 5, 9]);
    assert_eq!(t.len(), 3);
}

#[test]
fn table_take_hands_back_value() {
    let mut t: Table<String> = Table::new();
    t.insert(1, String::from("x"));
    assert_eq!(t.take(1), Some(String::from("x")));
    assert_eq!(t.take(1), None);
}

#[test]
fn table_duplicate_and_delete() {
    let mut t: Table<u32> = Table::new();
    t.insert(1, 100);
    t.duplicate(1, 2);
    t.duplicate(3, 4);
    assert_eq!(t.get(2), Some(&100));
    assert_eq!(t.get(4), None);
    assert!(t.delete(1));
    assert!(!t.delete(1));
    assert_eq!(t.keys(), vec![2]);
}

#[test]
fn table_clone_is_independent() {
    let mut t: Table<u32> = Table::new();
    t.insert(1, 1);
    let mut u = t.clone();
    u.insert(1, 2);
    u.insert(3, 3);
    assert_eq!(t.get(1), Some(&1));
    assert_eq!(t.keys(), vec![1]);
    assert_eq!(u.keys(), vec![1, 3]);
}

#[test]
fn table_get_mut_changes_in_place() {
    let mut t: Table<u32> = Table::new();
    t.insert(4, 40);
    if let Some(v) = t.get_mut(4) {
        *v += 1;
    }
    assert!(t.get_mut(5).is_none());
    assert_eq!(t.get(4), Some(&41));
    assert_eq!(t.keys(), vec![4]);
}
