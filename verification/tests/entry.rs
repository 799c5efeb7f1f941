use hashmap::Entry;
use hashmap::HashMap;

#[test]
fn or_insert_stores_only_when_vacant() {
    let mut map: HashMap<&str, u64> = HashMap::new();
    assert_eq!(*map.entry("a").or_insert(1), 1);
    assert_eq!(*map.entry("a").or_insert(2), 1);
    assert_eq!(map.len(), 1);
    *map.entry("a").or_insert(0) += 10;
    assert_eq!(map.get("a"), Some(&11));
}

#[test]
fn or_insert_with_does_not_call_the_maker_of_an_occupied_entry() {
    let mut map: HashMap<u64, u64> = HashMap::new();
    let mut calls = 0;
    assert_eq!(
        *map.entry(1).or_insert_with(|| {
            calls += 1;
            5
        }),
        5
    );
    assert_eq!(calls, 1);
    assert_eq!(*map.entry(1).or_insert_with(|| panic!("present")), 5);
    assert_eq!(map.len(), 1);
}

#[test]
fn or_default_stores_the_default() {
    let mut map: HashMap<&str, Vec<u64>> = HashMap::new();
    map.entry("a").or_default().push(1);
    map.entry("a").or_default().push(2);
    map.entry("b").or_default();
    assert_eq!(map.get("a"), Some(&vec![1, 2]));
    assert_eq!(map.get("b"), Some(&vec![]));
    assert_eq!(map.len(), 2);
}

#[test]
fn entry_tells_occupied_from_vacant() {
    let mut map: HashMap<u64, u64> = HashMap::new();
    match map.entry(3) {
        Entry::Occupied(_) => unreachable!(),
        Entry::Vacant(vacant) => {
            assert_eq!(vacant.key, 3);
            let value = vacant.insert(30);
            assert_eq!(*value, 30);
            *value = 31;
        }
    }
    match map.entry(3) {
        Entry::Occupied(occupied) => {
            assert_eq!(*occupied.key, 3);
            assert_eq!(*occupied.value, 31);
            *occupied.value = 32;
        }
        Entry::Vacant(_) => unreachable!(),
    }
    assert_eq!(map.get(&3), Some(&32));
    assert_eq!(map.len(), 1);
}

#[test]
fn entry_grows_the_table_even_when_nothing_is_stored() {
    let mut map: HashMap<u64, u64> = HashMap::new();
    assert_eq!(map.num_buckets(), 0);
    let _ = map.entry(1);
    assert_eq!(map.num_buckets(), 1);
    assert_eq!(map.len(), 0);
    map.insert(1, 1);
    let _ = map.entry(2);
    assert_eq!(map.num_buckets(), 2);
    assert_eq!(map.len(), 1);
    assert_eq!(map.get(&1), Some(&1));
}

#[test]
fn entries_count_words() {
    let text = "the quick brown fox jumps over the lazy dog the end";
    let mut counts: HashMap<&str, u64> = HashMap::new();
    for word in text.split(' ') {
        *counts.entry(word).or_insert(0) += 1;
    }
    assert_eq!(counts.get("the"), Some(&3));
    assert_eq!(counts.get("fox"), Some(&1));
    assert_eq!(counts.get("cat"), None);
    assert_eq!(counts.len(), 9);
}
