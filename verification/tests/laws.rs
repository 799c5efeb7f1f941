use hashmap::HashMap;

fn count<V>(map: &HashMap<u64, V>) -> usize {
    let mut pairs = map.iter();
    let mut n = 0;
    while let Some(_) = pairs.next() {
        n += 1;
    }
    n
}

#[test]
fn len_counts_distinct_keys_and_matches_traversal() {
    let mut map: HashMap<u64, u64> = HashMap::new();
    assert_eq!(map.len(), 0);
    assert_eq!(count(&map), 0);
    for k in 0..100u64 {
        assert_eq!(map.insert(k, k * 2), None);
        assert_eq!(map.len(), (k + 1) as usize);
        assert_eq!(count(&map), map.len());
    }
    for k in 0..100u64 {
        assert_eq!(map.insert(k, k * 3), Some(k * 2));
        assert_eq!(map.len(), 100);
    }
    for k in (0..100u64).step_by(2) {
        assert_eq!(map.remove(&k), Some(k * 3));
        assert_eq!(count(&map), map.len());
    }
    assert_eq!(map.len(), 50);
    for k in 0..100u64 {
        assert_eq!(map.contains_key(&k), k % 2 == 1);
    }
}

#[test]
fn insert_get_remove_round_trip() {
    let mut map: HashMap<u64, &str> = HashMap::new();
    map.insert(7, "seven");
    assert_eq!(map.get(&7), Some(&"seven"));
    assert_eq!(map.remove(&7), Some("seven"));
    assert_eq!(map.get(&7), None);
    assert_eq!(map.remove(&7), None);
}

#[test]
fn remove_of_absent_key_changes_nothing() {
    let mut map: HashMap<u64, u64> = HashMap::new();
    map.insert(1, 10);
    map.insert(2, 20);
    assert_eq!(map.remove(&3), None);
    assert_eq!(map.len(), 2);
    assert_eq!(map.get(&1), Some(&10));
    assert_eq!(map.get(&2), Some(&20));
}

#[test]
fn insert_of_present_key_updates() {
    let mut map: HashMap<u64, u64> = HashMap::new();
    map.insert(1, 10);
    map.insert(2, 20);
    assert_eq!(map.insert(1, 11), Some(10));
    assert_eq!(map.len(), 2);
    assert_eq!(map.get(&1), Some(&11));
    assert_eq!(map.get(&2), Some(&20));
}

#[test]
fn load_stays_within_one_of_three_quarters() {
    let mut map: HashMap<u64, u64> = HashMap::new();
    assert_eq!(map.num_buckets(), 0);
    for k in 0..1000u64 {
        map.insert(k, k);
        let buckets = std::cmp::max(map.num_buckets(), 1);
        assert!(map.len() <= 3 * buckets / 4 + 1);
    }
    for k in 0..1000u64 {
        *map.entry(k + 500).or_insert(0) += 1;
        let buckets = std::cmp::max(map.num_buckets(), 1);
        assert!(map.len() <= 3 * buckets / 4 + 1);
    }
    assert_eq!(map.len(), 1500);
}

#[test]
fn a_hash_code_is_reduced_modulo_the_bucket_count() {
    assert_eq!(hashmap::table::bucket_index(10, 4), 2);
    assert_eq!(hashmap::table::bucket_index(0, 1), 0);
    assert_eq!(hashmap::table::bucket_index(u64::MAX, 16), 15);
    assert_eq!(hashmap::table::bucket_index(7, 8), 7);
    assert_eq!(hashmap::table::bucket_index(8, 8), 0);
}

#[test]
fn buckets_double_when_three_quarters_are_passed() {
    let mut map: HashMap<u64, u64> = HashMap::new();
    let expected = [1, 2, 4, 4, 8, 8, 8, 16, 16, 16, 16, 16, 16, 32];
    for (k, buckets) in expected.iter().enumerate() {
        map.insert(k as u64, 0);
        assert_eq!(map.num_buckets(), *buckets);
    }
    map.insert(0, 1);
    assert_eq!(map.num_buckets(), 32);
    for k in 0..14u64 {
        map.remove(&k);
    }
    assert_eq!(map.len(), 0);
    assert_eq!(map.num_buckets(), 32);
}

#[test]
fn update_of_full_table_grows_it() {
    let mut map: HashMap<u64, u64> = HashMap::new();
    map.insert(1, 1);
    map.insert(2, 2);
    assert_eq!(map.num_buckets(), 2);
    assert_eq!(map.insert(2, 3), Some(2));
    assert_eq!(map.num_buckets(), 4);
    assert_eq!(map.len(), 2);
}

#[test]
fn traversal_visits_each_key_once_with_its_last_value() {
    let mut map: HashMap<u64, u64> = HashMap::new();
    for k in 0..64u64 {
        map.insert(k, 0);
    }
    for k in 0..64u64 {
        map.insert(k, k + 1000);
    }
    let mut seen = vec![false; 64];
    let mut pairs = map.iter();
    let mut visited = 0;
    while let Some((&k, &v)) = pairs.next() {
        assert!(!seen[k as usize]);
        seen[k as usize] = true;
        assert_eq!(v, k + 1000);
        visited += 1;
    }
    assert_eq!(visited, 64);
    assert!(seen.iter().all(|&s| s));
    assert!(pairs.next().is_none());
}

#[test]
fn traversal_goes_bucket_after_bucket() {
    let mut map: HashMap<u64, u64> = HashMap::new();
    for k in 0..40u64 {
        map.insert(k, k);
    }
    let buckets = map.num_buckets() as u64;
    let mut last = 0;
    let mut pairs = map.iter();
    while let Some((&k, _)) = pairs.next() {
        let bucket = hashmap::key::hash_u64(k) % buckets;
        assert!(bucket >= last);
        last = bucket;
    }
}

#[test]
fn a_later_insert_of_a_key_wins() {
    let mut map = HashMap::new();
    map.insert("a", 1);
    map.insert("b", 2);
    map.insert("a", 3);
    assert_eq!(map.len(), 2);
    assert_eq!(map.get("a"), Some(&3));
    assert_eq!(map.get("b"), Some(&2));
}

#[test]
fn an_empty_table_finds_nothing() {
    let mut map: HashMap<&str, u64> = HashMap::new();
    assert_eq!(map.get("x"), None);
    assert_eq!(map.contains_key("x"), false);
    assert_eq!(map.remove("x"), None);
    assert_eq!(map.len(), 0);
    assert!(map.iter().next().is_none());
    assert!(map.into_iter().next().is_none());
}

#[test]
fn four_keys_are_all_traversed() {
    let mut map = HashMap::new();
    map.insert("foo", 1);
    map.insert("bar", 2);
    map.insert("baz", 3);
    map.insert("quox", 4);
    let mut found = Vec::new();
    let mut pairs = map.iter();
    while let Some((&k, &v)) = pairs.next() {
        found.push((k, v));
    }
    found.sort();
    assert_eq!(found, vec![("bar", 2), ("baz", 3), ("foo", 1), ("quox", 4)]);
}

#[test]
fn four_keys_grow_a_table_of_one_bucket() {
    let mut map = HashMap::new();
    map.insert("foo", 1);
    assert_eq!(map.num_buckets(), 1);
    map.insert("bar", 2);
    map.insert("baz", 3);
    map.insert("quox", 4);
    assert!(map.num_buckets() > 1);
    assert_eq!(map.get("foo"), Some(&1));
    assert_eq!(map.get("bar"), Some(&2));
    assert_eq!(map.get("baz"), Some(&3));
    assert_eq!(map.get("quox"), Some(&4));
}

#[test]
fn removal_moves_the_last_pair_of_the_bucket() {
    let mut map: HashMap<u64, u64> = HashMap::new();
    for k in 0..200u64 {
        map.insert(k, k);
    }
    for k in 0..200u64 {
        if k % 3 == 0 {
            assert_eq!(map.remove(&k), Some(k));
        }
    }
    for k in 0..200u64 {
        if k % 3 == 0 {
            assert_eq!(map.get(&k), None);
        } else {
            assert_eq!(map.get(&k), Some(&k));
        }
    }
    assert_eq!(count(&map), map.len());
}

#[test]
fn consuming_traversal_hands_out_every_pair_once() {
    let mut map: HashMap<u64, String> = HashMap::new();
    for k in 0..50u64 {
        map.insert(k, k.to_string());
    }
    let mut seen = vec![false; 50];
    let mut pairs = map.into_iter();
    let mut n = 0;
    while let Some((k, v)) = pairs.next() {
        assert!(!seen[k as usize]);
        seen[k as usize] = true;
        assert_eq!(v, k.to_string());
        n += 1;
    }
    assert_eq!(n, 50);
    assert!(pairs.next().is_none());
}

#[test]
fn consuming_traversal_empties_buckets_from_the_back() {
    let mut map: HashMap<u64, u64> = HashMap::new();
    for k in 0..30u64 {
        map.insert(k, k);
    }
    let mut forward = Vec::new();
    let mut pairs = map.iter();
    while let Some((&k, _)) = pairs.next() {
        forward.push(k);
    }
    let buckets = map.num_buckets() as u64;
    let mut expected = Vec::new();
    for b in 0..buckets {
        let mut row: Vec<u64> =
            forward.iter().copied().filter(|&k| hashmap::key::hash_u64(k) % buckets == b).collect();
        row.reverse();
        expected.extend(row);
    }
    let mut backward = Vec::new();
    let mut pairs = map.into_iter();
    while let Some((k, _)) = pairs.next() {
        backward.push(k);
    }
    assert_eq!(backward, expected);
}

#[test]
fn from_iter_keeps_the_later_of_two_pairs() {
    let pairs = vec![("a", 1), ("b", 2), ("a", 3), ("c", 4), ("b", 5)];
    let map = HashMap::from_iter(pairs.into_iter());
    assert_eq!(map.len(), 3);
    assert_eq!(map.get("a"), Some(&3));
    assert_eq!(map.get("b"), Some(&5));
    assert_eq!(map.get("c"), Some(&4));
    let empty: HashMap<u64, u64> = HashMap::from_iter(Vec::new().into_iter());
    assert!(empty.is_empty());
    assert_eq!(empty.num_buckets(), 0);
}

fn keys_in_order(map: &HashMap<u64, u64>) -> Vec<u64> {
    let mut keys = Vec::new();
    let mut pairs = map.iter();
    while let Some((&k, _)) = pairs.next() {
        keys.push(k);
    }
    keys
}

#[test]
fn growth_takes_the_pairs_bucket_after_bucket_from_the_back() {
    let mut map: HashMap<u64, u64> = HashMap::new();
    for k in 0..7u64 {
        map.insert(k, k);
    }
    assert_eq!(map.num_buckets(), 8);
    let before = keys_in_order(&map);
    let mut taken = Vec::new();
    for b in 0..8u64 {
        let mut row: Vec<u64> =
            before.iter().copied().filter(|&k| hashmap::key::hash_u64(k) % 8 == b).collect();
        row.reverse();
        taken.extend(row);
    }
    map.insert(100, 100);
    assert_eq!(map.num_buckets(), 16);
    let mut expected = Vec::new();
    for b in 0..16u64 {
        expected.extend(taken.iter().copied().filter(|&k| hashmap::key::hash_u64(k) % 16 == b));
        if hashmap::key::hash_u64(100) % 16 == b {
            expected.push(100);
        }
    }
    assert_eq!(keys_in_order(&map), expected);
}

#[test]
fn a_new_key_goes_to_the_end_of_its_bucket() {
    let mut map: HashMap<u64, u64> = HashMap::new();
    for k in 0..6u64 {
        map.insert(k, k);
    }
    assert_eq!(map.num_buckets(), 8);
    let before = keys_in_order(&map);
    map.insert(6, 6);
    assert_eq!(map.num_buckets(), 8);
    let mut expected = Vec::new();
    for b in 0..8u64 {
        expected.extend(before.iter().copied().filter(|&k| hashmap::key::hash_u64(k) % 8 == b));
        if hashmap::key::hash_u64(6) % 8 == b {
            expected.push(6);
        }
    }
    assert_eq!(keys_in_order(&map), expected);
}

#[test]
fn a_removed_pair_is_replaced_by_the_last_of_its_bucket() {
    let mut map: HashMap<u64, u64> = HashMap::new();
    for k in 0..96u64 {
        map.insert(k, k);
    }
    let buckets = map.num_buckets() as u64;
    assert_eq!(buckets, 128);
    let before = keys_in_order(&map);
    let rows: Vec<Vec<u64>> = (0..buckets)
        .map(|b| {
            before.iter().copied().filter(|&k| hashmap::key::hash_u64(k) % buckets == b).collect()
        })
        .collect();
    let home = rows.iter().position(|row| row.len() >= 3).unwrap();
    let victim = rows[home][0];
    let mut expected = Vec::new();
    for (b, row) in rows.iter().enumerate() {
        let mut row = row.clone();
        if b == home {
            row.swap_remove(0);
            assert_ne!(row[0], rows[home][1]);
        }
        expected.extend(row);
    }
    assert_eq!(map.remove(&victim), Some(victim));
    assert_eq!(keys_in_order(&map), expected);
}
