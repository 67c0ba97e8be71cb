use celui::hasher::{HashKey, QuickHasher};
use celui::hashmap::HashMap;
use std::hash::{Hash, Hasher};

fn hash_of<K: HashKey>(key: &K) -> u64 {
    let mut hasher = QuickHasher::new();
    key.feed(&mut hasher);
    let raw = hasher.finish();
    if raw <= 1 {
        raw + 2
    } else {
        raw
    }
}

/// The first `count` keys, from `from` up, whose probe starts at `home` in a table of 8.
fn keys_at_home(home: u64, from: u64, count: usize) -> Vec<u64> {
    let mut found = Vec::new();
    let mut k = from;
    while found.len() < count {
        if hash_of(&k) & 7 == home {
            found.push(k);
        }
        k += 1;
    }
    found
}

fn scan(map: &HashMap<u64, u64>) -> Vec<(u64, u64)> {
    let mut out = Vec::new();
    let mut it = map.iter();
    while let Some((k, v)) = it.next() {
        out.push((*k, *v));
    }
    out
}

#[test]
fn hasher_starts_at_zero() {
    assert_eq!(QuickHasher::new().finish(), 0);
    assert_eq!(QuickHasher::default().finish(), 0);
}

#[test]
fn hasher_multiplies_by_31_and_adds() {
    let mut h = QuickHasher::new();
    h.write(&[1, 2, 3]);
    assert_eq!(h.finish(), 1026);
    let mut g = QuickHasher::new();
    g.write_u8(1);
    g.write_u8(2);
    g.write_u8(3);
    assert_eq!(g.finish(), 1026);
    let mut e = QuickHasher::new();
    e.write(&[]);
    assert_eq!(e.finish(), 0);
}

#[test]
fn hasher_wraps_around() {
    let bytes = [0xffu8; 40];
    let mut expected: u64 = 0;
    for b in bytes.iter() {
        expected = expected.wrapping_mul(31).wrapping_add(*b as u64);
    }
    let mut h = QuickHasher::new();
    h.write(&bytes);
    assert_eq!(h.finish(), expected);
    assert_eq!(expected, 18385143362112023936);
}

#[test]
fn hasher_takes_writes_one_after_the_other() {
    let mut h = QuickHasher::new();
    h.write(&[9, 8]);
    h.write(&[7]);
    let mut g = QuickHasher::new();
    g.write(&[9, 8, 7]);
    assert_eq!(h.finish(), g.finish());
}

#[test]
fn string_keys_hash_their_bytes_and_a_mark() {
    let mut h = QuickHasher::new();
    "a".feed(&mut h);
    assert_eq!(h.finish(), 97 * 31 + 255);
    let mut g = QuickHasher::new();
    "a".to_string().feed(&mut g);
    assert_eq!(g.finish(), 3262);
    let mut e = QuickHasher::new();
    "".feed(&mut e);
    assert_eq!(e.finish(), 255);
}

#[test]
fn integer_keys_hash_their_low_bytes_first() {
    let mut h = QuickHasher::new();
    1u64.feed(&mut h);
    assert_eq!(h.finish(), 27512614111);
    let mut g = QuickHasher::new();
    0x0102u16.feed(&mut g);
    assert_eq!(g.finish(), 2 * 31 + 1);
    let mut f = QuickHasher::new();
    0x01020304u32.feed(&mut f);
    assert_eq!(f.finish(), ((4 * 31 + 3) * 31 + 2) * 31 + 1);
    let mut e = QuickHasher::new();
    7u8.feed(&mut e);
    assert_eq!(e.finish(), 7);
    let mut d = QuickHasher::new();
    1usize.feed(&mut d);
    assert_eq!(d.finish(), 27512614111);
}

#[test]
fn same_key_compares_values() {
    assert!(5u64.same_key(&5));
    assert!(!5u64.same_key(&6));
    assert!("ab".same_key(&"ab"));
    assert!(!"ab".same_key(&"ac"));
    assert!(!"ab".same_key(&"abc"));
    assert!("é".to_string().same_key(&"é".to_string()));
    assert!(!"".to_string().same_key(&"x".to_string()));
}

#[test]
fn hash_key_avoids_the_two_marks() {
    let map: HashMap<u8, u8> = HashMap::new();
    assert_eq!(map.hash_key(&0), 2);
    assert_eq!(map.hash_key(&1), 3);
    assert_eq!(map.hash_key(&2), 2);
    assert_eq!(map.hash_key(&200), 200);
    let strings: HashMap<&str, u8> = HashMap::new();
    assert_eq!(strings.hash_key(&"a"), 3262);
}

#[test]
fn new_has_eight_slots() {
    let map: HashMap<u64, u64> = HashMap::new();
    assert_eq!(map.len(), 0);
    assert!(map.is_empty());
    assert_eq!(map.capacity(), 8);
    let other: HashMap<u64, u64> = HashMap::default();
    assert_eq!(other.capacity(), 8);
    assert_eq!(other.len(), 0);
}

#[test]
fn with_capacity_rounds_up_to_a_power_of_two() {
    let sizes = [(0, 8), (1, 8), (7, 8), (8, 8), (9, 16), (16, 16), (17, 32), (1000, 1024)];
    for (wanted, expected) in sizes.iter() {
        let map: HashMap<u64, u64> = HashMap::with_capacity(*wanted);
        assert_eq!(map.capacity(), *expected);
        assert_eq!(map.len(), 0);
    }
}

#[test]
fn with_capacity_zero_then_insert() {
    let mut map: HashMap<&str, i32> = HashMap::with_capacity(0);
    assert_eq!(map.insert("k", 1), None);
    assert_eq!(map.get(&"k"), Some(&1));
    assert_eq!(map.len(), 1);
}

#[test]
fn insert_remove_insert_scenario() {
    let mut map: HashMap<&str, i32> = HashMap::with_capacity(8);
    assert_eq!(map.capacity(), 8);
    assert_eq!(map.insert("a", 1), None);
    assert_eq!(map.insert("b", 2), None);
    assert_eq!(map.insert("c", 3), None);
    assert_eq!(map.remove(&"b"), Some(2));
    assert_eq!(map.insert("d", 4), None);
    assert_eq!(map.get(&"a"), Some(&1));
    assert_eq!(map.get(&"b"), None);
    assert_eq!(map.get(&"c"), Some(&3));
    assert_eq!(map.get(&"d"), Some(&4));
    assert_eq!(map.len(), 3);
}

#[test]
fn insert_returns_the_previous_value() {
    let mut map: HashMap<String, u32> = HashMap::new();
    assert_eq!(map.insert("key".to_string(), 1), None);
    assert_eq!(map.insert("key".to_string(), 2), Some(1));
    assert_eq!(map.insert("key".to_string(), 3), Some(2));
    assert_eq!(map.len(), 1);
    assert_eq!(map.get(&"key".to_string()), Some(&3));
}

#[test]
fn get_on_missing_key_is_none() {
    let mut map: HashMap<u64, u64> = HashMap::new();
    assert_eq!(map.get(&1), None);
    assert!(!map.contains_key(&1));
    assert_eq!(map.remove(&1), None);
    assert!(map.get_mut(&1).is_none());
    map.insert(1, 10);
    assert!(map.contains_key(&1));
    assert!(!map.contains_key(&2));
    assert_eq!(map.get(&2), None);
    assert_eq!(map.remove(&2), None);
    assert_eq!(map.len(), 1);
}

#[test]
fn get_mut_writes_the_value() {
    let mut map: HashMap<u64, u64> = HashMap::new();
    map.insert(4, 40);
    map.insert(5, 50);
    *map.get_mut(&4).unwrap() += 2;
    assert_eq!(map.get(&4), Some(&42));
    assert_eq!(map.get(&5), Some(&50));
    assert_eq!(map.len(), 2);
}

#[test]
fn table_doubles_at_three_quarters() {
    let mut map: HashMap<u64, u64> = HashMap::new();
    for k in 0..6 {
        map.insert(k, k);
        assert_eq!(map.capacity(), 8);
    }
    map.insert(6, 6);
    assert_eq!(map.capacity(), 16);
    for k in 7..12 {
        map.insert(k, k);
        assert_eq!(map.capacity(), 16);
    }
    map.insert(12, 12);
    assert_eq!(map.capacity(), 32);
    for k in 0..13 {
        assert_eq!(map.get(&k), Some(&k));
    }
    assert_eq!(map.len(), 13);
}

#[test]
fn tombstones_count_towards_the_load() {
    let mut map: HashMap<u64, u64> = HashMap::new();
    for k in 0..5 {
        map.insert(k, k);
    }
    for k in 0..5 {
        map.remove(&k);
    }
    assert_eq!(map.len(), 0);
    assert_eq!(map.capacity(), 8);
    let fresh = keys_at_home(0, 1000, 40);
    let mut used = 0;
    for k in fresh.iter() {
        map.insert(*k, 1);
        used += 1;
        if map.capacity() != 8 {
            break;
        }
    }
    assert_eq!(map.capacity(), 16);
    assert!(used <= 2);
}

#[test]
fn update_in_a_loaded_table_doubles_it_first() {
    let mut map: HashMap<u64, u64> = HashMap::new();
    for k in 0..6 {
        map.insert(k, k);
    }
    assert_eq!(map.capacity(), 8);
    assert_eq!(map.insert(3, 33), Some(3));
    assert_eq!(map.capacity(), 16);
    assert_eq!(map.len(), 6);
}

#[test]
fn probe_passes_tombstones() {
    let keys = keys_at_home(3, 0, 3);
    let mut map: HashMap<u64, u64> = HashMap::new();
    map.insert(keys[0], 100);
    map.insert(keys[1], 101);
    map.insert(keys[2], 102);
    assert_eq!(scan(&map), vec![(keys[0], 100), (keys[1], 101), (keys[2], 102)]);
    assert_eq!(map.remove(&keys[0]), Some(100));
    assert_eq!(map.remove(&keys[1]), Some(101));
    assert_eq!(map.get(&keys[2]), Some(&102));
    assert_eq!(map.get(&keys[0]), None);
    assert_eq!(map.len(), 1);
}

#[test]
fn insert_takes_the_first_tombstone_of_the_probe() {
    let keys = keys_at_home(3, 0, 4);
    let mut map: HashMap<u64, u64> = HashMap::new();
    map.insert(keys[0], 100);
    map.insert(keys[1], 101);
    map.insert(keys[2], 102);
    map.remove(&keys[0]);
    map.remove(&keys[1]);
    map.insert(keys[3], 103);
    assert_eq!(scan(&map), vec![(keys[3], 103), (keys[2], 102)]);
    assert_eq!(map.insert(keys[2], 202), Some(102));
    assert_eq!(scan(&map), vec![(keys[3], 103), (keys[2], 202)]);
    assert_eq!(map.len(), 2);
}

#[test]
fn probe_wraps_around_the_end_of_the_table() {
    let keys = keys_at_home(7, 0, 3);
    let mut map: HashMap<u64, u64> = HashMap::new();
    map.insert(keys[0], 1);
    map.insert(keys[1], 2);
    map.insert(keys[2], 3);
    assert_eq!(scan(&map), vec![(keys[1], 2), (keys[2], 3), (keys[0], 1)]);
    for k in keys.iter() {
        assert!(map.contains_key(k));
    }
    map.remove(&keys[0]);
    assert_eq!(map.get(&keys[1]), Some(&2));
    assert_eq!(map.get(&keys[2]), Some(&3));
}

#[test]
fn round_trip_leaves_nothing() {
    let mut map: HashMap<u64, u64> = HashMap::new();
    for k in 0..200 {
        assert_eq!(map.insert(k * 7, k), None);
    }
    assert_eq!(map.len(), 200);
    for k in 0..200 {
        assert_eq!(map.remove(&(k * 7)), Some(k));
    }
    assert_eq!(map.len(), 0);
    assert!(map.is_empty());
    assert!(map.iter().next().is_none());
    assert!(scan(&map).is_empty());
    for k in 0..200 {
        assert_eq!(map.get(&(k * 7)), None);
    }
}

#[test]
fn reserve_keeps_every_entry() {
    let mut map: HashMap<u64, u64> = HashMap::new();
    for k in 0..5 {
        map.insert(k, k + 100);
    }
    map.remove(&0);
    assert_eq!(map.capacity(), 8);
    map.reserve(4);
    assert_eq!(map.capacity(), 8);
    map.reserve(5);
    assert_eq!(map.capacity(), 16);
    map.reserve(96);
    assert_eq!(map.capacity(), 128);
    map.reserve(124);
    assert_eq!(map.capacity(), 128);
    assert_eq!(map.len(), 4);
    assert_eq!(map.get(&0), None);
    for k in 1..5 {
        assert_eq!(map.get(&k), Some(&(k + 100)));
    }
}

#[test]
fn resize_is_transparent() {
    let mut map: HashMap<String, usize> = HashMap::new();
    for i in 0..100 {
        map.insert(format!("key{}", i), i);
        for j in 0..=i {
            assert_eq!(map.get(&format!("key{}", j)), Some(&j));
        }
    }
    assert_eq!(map.capacity(), 256);
    assert_eq!(map.len(), 100);
}

#[test]
fn clear_empties_and_keeps_the_table() {
    let mut map: HashMap<u64, u64> = HashMap::with_capacity(16);
    for k in 0..8 {
        map.insert(k, k);
    }
    map.remove(&3);
    map.clear();
    assert_eq!(map.len(), 0);
    assert_eq!(map.capacity(), 16);
    assert!(scan(&map).is_empty());
    assert_eq!(map.get(&1), None);
    for k in 0..11 {
        map.insert(k, k);
    }
    assert_eq!(map.capacity(), 16);
    map.clear();
    map.clear();
    assert_eq!(map.len(), 0);
}

#[test]
fn clear_of_an_empty_map_drops_its_tombstones() {
    let mut map: HashMap<u64, u64> = HashMap::new();
    for k in 0..5 {
        map.insert(k, k);
    }
    for k in 0..5 {
        map.remove(&k);
    }
    map.clear();
    for k in 10..16 {
        map.insert(k, k);
    }
    assert_eq!(map.capacity(), 8);
    assert_eq!(map.len(), 6);
}

#[test]
fn iter_yields_each_entry_once() {
    let mut map: HashMap<u64, u64> = HashMap::new();
    for k in 0..50 {
        map.insert(k, k * 2);
    }
    for k in 0..50 {
        if k % 3 == 0 {
            map.remove(&k);
        }
    }
    let mut seen = scan(&map);
    assert_eq!(seen.len(), map.len());
    seen.sort();
    let expected: Vec<(u64, u64)> = (0..50).filter(|k| k % 3 != 0).map(|k| (k, k * 2)).collect();
    assert_eq!(seen, expected);
}

#[test]
fn behaves_as_std_hash_map() {
    let mut ours: HashMap<u64, u64> = HashMap::new();
    let mut reference: std::collections::HashMap<u64, u64> = std::collections::HashMap::new();
    let mut state: u64 = 99;
    for step in 0..5000u64 {
        state = state.wrapping_mul(6364136223846793005).wrapping_add(1442695040888963407);
        let key = (state >> 40) % 64;
        match (state >> 20) % 4 {
            0 => assert_eq!(ours.remove(&key), reference.remove(&key)),
            1 => assert_eq!(ours.get(&key), reference.get(&key)),
            _ => assert_eq!(ours.insert(key, step), reference.insert(key, step)),
        }
        assert_eq!(ours.len(), reference.len());
    }
    for key in 0..64 {
        assert_eq!(ours.get(&key), reference.get(&key));
        assert_eq!(ours.contains_key(&key), reference.contains_key(&key));
    }
}

#[test]
fn iter_mut_writes_every_value() {
    let mut map: HashMap<u64, u64> = HashMap::new();
    for k in 0..20 {
        map.insert(k, k);
    }
    map.remove(&7);
    let mut visited = 0;
    {
        let mut it = map.iter_mut();
        while let Some((k, v)) = it.next() {
            assert_eq!(*k, *v);
            *v += 100;
            visited += 1;
        }
        assert!(it.next().is_none());
    }
    assert_eq!(visited, 19);
    assert_eq!(map.len(), 19);
    for k in 0..20 {
        if k == 7 {
            assert_eq!(map.get(&k), None);
        } else {
            assert_eq!(map.get(&k), Some(&(k + 100)));
        }
    }
}

#[test]
fn iter_mut_follows_the_order_of_iter() {
    let mut map: HashMap<u64, u64> = HashMap::new();
    for k in 0..30 {
        map.insert(k * 3, k);
    }
    let order = scan(&map);
    let mut seen = Vec::new();
    let mut it = map.iter_mut();
    while let Some((k, v)) = it.next() {
        seen.push((*k, *v));
    }
    assert_eq!(seen, order);
}

#[test]
fn update_keeps_the_number_of_entries() {
    let mut map: HashMap<&str, u8> = HashMap::new();
    map.insert("x", 1);
    map.insert("y", 2);
    map.insert("x", 3);
    map.insert("y", 4);
    assert_eq!(map.len(), 2);
    assert_eq!(map.remove(&"x"), Some(3));
    assert_eq!(map.remove(&"x"), None);
    assert_eq!(map.len(), 1);
}

#[test]
fn hasher_takes_what_std_hashes_feed_it() {
    let mut h = QuickHasher::new();
    Hash::hash("a", &mut h);
    let fed = h.finish();
    let mut g = QuickHasher::new();
    "a".feed(&mut g);
    assert_eq!(fed, g.finish());
    let mut f = QuickHasher::new();
    Hash::hash(&7u8, &mut f);
    assert_eq!(f.finish(), 7);
}
