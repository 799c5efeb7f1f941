use hashmap::key::hash_str;
use hashmap::key::hash_u64;
use hashmap::Equivalent;
use hashmap::HashMap;
use hashmap::Key;
use std::collections::hash_map::DefaultHasher;
use std::hash::Hash;
use std::hash::Hasher;

fn std_hash<T: Hash + ?Sized>(value: &T) -> u64 {
    let mut hasher = DefaultHasher::new();
    value.hash(&mut hasher);
    hasher.finish()
}

#[test]
fn strings_hash_as_the_default_hasher_hashes_them() {
    assert_eq!(hash_str("foo"), std_hash("foo"));
    assert_eq!(hash_str(""), std_hash(""));
    assert_ne!(hash_str("foo"), hash_str("bar"));
    assert_ne!(hash_str(""), std_hash(&()));
    assert_eq!("foo".hash_code(), hash_str("foo"));
    assert_eq!(String::from("foo").hash_code(), hash_str("foo"));
    assert_eq!((&"foo").hash_code(), hash_str("foo"));
}

#[test]
fn numbers_hash_as_the_default_hasher_hashes_them() {
    assert_eq!(hash_u64(0), std_hash(&0u64));
    assert_eq!(hash_u64(42), std_hash(&42u64));
    assert_ne!(hash_u64(1), hash_u64(2));
    assert_ne!(hash_u64(0), std_hash(&()));
    assert_eq!(42u64.hash_code(), hash_u64(42));
    assert_eq!((&42u64).hash_code(), hash_u64(42));
}

#[test]
fn keys_are_equal_when_their_views_are() {
    assert!("foo".key_eq("foo"));
    assert!(!"foo".key_eq("fo"));
    assert!(!"foo".key_eq("bar"));
    assert!(String::from("foo").key_eq(&String::from("foo")));
    assert!(!String::from("foo").key_eq(&String::from("bar")));
    assert!(1u64.key_eq(&1));
    assert!(!1u64.key_eq(&2));
    assert!((&1u64).key_eq(&&1));
    assert!(!(&1u64).key_eq(&&2));
    let a = String::from("foo");
    assert!((&"foo").key_eq(&a.as_str()));
}

#[test]
fn a_slice_stands_for_the_string_with_its_characters() {
    assert!("foo".equivalent(&String::from("foo")));
    assert!(!"foo".equivalent(&String::from("bar")));
    assert!("foo".equivalent(&"foo"));
    assert!(!"foo".equivalent(&"bar"));
    assert!(7u64.equivalent(&7u64));
}

#[test]
fn owned_strings_are_found_by_slices() {
    let mut map: HashMap<String, u64> = HashMap::new();
    map.insert(String::from("alpha"), 1);
    map.insert(String::from("beta"), 2);
    assert_eq!(map.get("alpha"), Some(&1));
    assert_eq!(map.get(&String::from("beta")), Some(&2));
    assert!(!map.contains_key("gamma"));
    assert_eq!(map.remove("alpha"), Some(1));
    assert_eq!(map.len(), 1);
}

#[test]
fn a_present_key_is_not_replaced_by_an_equal_one() {
    let first = String::from("key");
    let second = String::from("key");
    let mut map: HashMap<&str, u64> = HashMap::new();
    map.insert(first.as_str(), 1);
    map.insert(second.as_str(), 2);
    let mut pairs = map.iter();
    let (k, v) = pairs.next().unwrap();
    assert!(std::ptr::eq(*k, first.as_str()));
    assert_eq!(*v, 2);
    assert!(pairs.next().is_none());
}

#[test]
fn references_to_keys_are_keys() {
    let numbers: Vec<u64> = (0..20).collect();
    let mut map: HashMap<&u64, usize> = HashMap::new();
    for (at, number) in numbers.iter().enumerate() {
        map.insert(number, at);
    }
    for k in 0..20u64 {
        assert_eq!(map.get(&k), Some(&(k as usize)));
        assert_eq!(map.get(&&k), Some(&(k as usize)));
    }
    assert_eq!(map.get(&20u64), None);
}
