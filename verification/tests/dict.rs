use probing_dict::dict::{digest_of, Dict};
use std::collections::hash_map::DefaultHasher;
use std::hash::{Hash, Hasher};

fn with_strings(size: usize) {
    let mut dict: Dict<String, String> = Dict::new();

    let keys = (0..size).map(|i| format!("key-of-{}", i)).collect::<Vec<_>>();
    let values = keys
        .iter()
        .map(|i| format!("value-of-key-of-{}", i))
        .collect::<Vec<_>>();
    let new_values = keys
        .iter()
        .enumerate()
        .map(|(i, v)| {
            if i % 2 == 0 {
                format!("newvalue-of-{}", v)
            } else {
                v.to_string()
            }
        })
        .collect::<Vec<_>>();
    for (k, v) in keys.iter().zip(&values) {
        dict.put(k.to_string(), v.to_string());
    }
    for (k, v) in keys.iter().zip(&values) {
        assert_eq!(dict.get(k), Option::Some(v.to_string()));
    }
    for (k, v) in keys.iter().zip(&new_values) {
        dict.put(k.to_string(), v.to_string());
    }
    for (k, v) in keys.iter().zip(&new_values) {
        assert_eq!(dict.get(k), Option::Some(v.to_string()));
    }
    dict.diagnosis();
}

#[test]
fn test_with_chars() {
    let mut dict: Dict<char, usize> = Dict::new();
    let keys = (b'A'..=b'z')
        .map(|c| c as char)
        .filter(|c| c.is_alphabetic())
        .collect::<Vec<_>>();
    let values = (0..keys.len()).collect::<Vec<_>>();
    for (k, v) in keys.iter().zip(values) {
        dict.put(*k, v);
        assert_eq!(dict.get(k), Option::Some(v));
    }
}

#[test]
fn test_with_strings() {
    with_strings(2400)
}

#[test]
fn single_char_round_trip_and_miss() {
    let mut dict: Dict<char, usize> = Dict::new();
    dict.put('A', 0);
    assert_eq!(dict.get(&'A'), Some(0));
    assert_eq!(dict.get(&'B'), None);
}

#[test]
fn new_table_has_the_initial_dimensions() {
    let mut dict: Dict<u32, u32> = Dict::new();
    assert_eq!(dict.capacity(), 64);
    assert_eq!(dict.probe_window(), 6);
    let dump = dict.diagnosis();
    assert_eq!(dump.len(), 64 + 6 - 1);
    for (i, (index, content)) in dump.iter().enumerate() {
        assert_eq!(*index, i);
        assert!(content.is_none());
    }
}

#[test]
fn put_lands_in_the_home_slot_of_its_digest() {
    let mut dict: Dict<u32, &'static str> = Dict::new();
    dict.put_hashed(64 * 3 + 10, 7, "seven");
    let dump = dict.diagnosis();
    assert_eq!(dump[10], (10, Some((7, "seven"))));
    assert_eq!(dump.iter().filter(|(_, c)| c.is_some()).count(), 1);
    assert_eq!(dict.get_hashed(64 * 3 + 10, &7), Some("seven"));
    assert_eq!(dict.get_hashed(10, &7), None);
    assert_eq!(dict.get_hashed(64 * 3 + 10, &8), None);
}

#[test]
fn colliding_entries_fill_the_window_in_order() {
    let mut dict: Dict<u32, u32> = Dict::new();
    for k in 0..6u32 {
        dict.put_hashed(63, k, k * 10);
    }
    assert_eq!(dict.capacity(), 64);
    let dump = dict.diagnosis();
    for k in 0..6usize {
        assert_eq!(dump[63 + k], (63 + k, Some((k as u32, k as u32 * 10))));
    }
    for k in 0..6u32 {
        assert_eq!(dict.get_hashed(63, &k), Some(k * 10));
    }
}

#[test]
fn full_window_doubles_the_capacity_and_widens_the_window() {
    let mut dict: Dict<u32, u32> = Dict::new();
    for k in 0..6u32 {
        dict.put_hashed(5, k, k);
    }
    assert_eq!((dict.capacity(), dict.probe_window()), (64, 6));
    dict.put_hashed(5, 6, 6);
    assert_eq!((dict.capacity(), dict.probe_window()), (128, 9));
    assert_eq!(dict.diagnosis().len(), 128 + 9 - 1);
    for k in 0..7u32 {
        assert_eq!(dict.get_hashed(5, &k), Some(k));
    }
    dict.put_hashed(5, 7, 7);
    dict.put_hashed(5, 8, 8);
    assert_eq!((dict.capacity(), dict.probe_window()), (128, 9));
    dict.put_hashed(5, 9, 9);
    assert_eq!((dict.capacity(), dict.probe_window()), (256, 14));
    for k in 0..10u32 {
        assert_eq!(dict.get_hashed(5, &k), Some(k));
    }
}

#[test]
fn growth_places_entries_in_the_order_of_the_old_storage() {
    let mut dict: Dict<u32, u32> = Dict::new();
    dict.put_hashed(64 + 5, 100, 1);
    for k in 0..5u32 {
        dict.put_hashed(5, k, k);
    }
    dict.put_hashed(6, 200, 2);
    assert_eq!(dict.capacity(), 64);
    dict.put_hashed(5, 5, 5);
    assert_eq!((dict.capacity(), dict.probe_window()), (128, 9));
    let dump = dict.diagnosis();
    assert_eq!(dump[69], (69, Some((100, 1))));
    for k in 0..5usize {
        assert_eq!(dump[5 + k], (5 + k, Some((k as u32, k as u32))));
    }
    assert_eq!(dump[10], (10, Some((200, 2))));
    assert_eq!(dump[11], (11, Some((5, 5))));
    assert_eq!(dump.iter().filter(|(_, c)| c.is_some()).count(), 8);
}

#[test]
fn update_keeps_the_slot_and_replaces_the_value() {
    let mut dict: Dict<&'static str, u32> = Dict::new();
    dict.put_hashed(1, "a", 1);
    dict.put_hashed(1, "b", 2);
    dict.put_hashed(1, "a", 3);
    let dump = dict.diagnosis();
    assert_eq!(dump[1], (1, Some(("a", 3))));
    assert_eq!(dump[2], (2, Some(("b", 2))));
    assert_eq!(dump.iter().filter(|(_, c)| c.is_some()).count(), 2);
    assert_eq!(dict.get_hashed(1, &"a"), Some(3));
}

#[test]
fn repeated_put_changes_nothing() {
    let mut dict: Dict<String, u32> = Dict::new();
    dict.put("k".to_string(), 1);
    let once = dict.diagnosis();
    dict.put("k".to_string(), 1);
    let twice = dict.diagnosis();
    assert_eq!(once, twice);
    assert_eq!(dict.get(&"k".to_string()), Some(1));
}

#[test]
fn last_put_wins() {
    let mut dict: Dict<String, u32> = Dict::new();
    dict.put("k".to_string(), 1);
    dict.put("k".to_string(), 2);
    assert_eq!(dict.get(&"k".to_string()), Some(2));
}

#[test]
fn never_inserted_key_is_absent() {
    let mut dict: Dict<u64, u64> = Dict::new();
    assert_eq!(dict.get(&1), None);
    for k in 0..500u64 {
        dict.put(k * 2, k);
    }
    for k in 0..500u64 {
        assert_eq!(dict.get(&(k * 2 + 1)), None);
    }
}

#[test]
fn growth_loses_no_key() {
    let mut dict: Dict<u64, u64> = Dict::new();
    for k in 0..1000u64 {
        dict.put(k, k + 1);
    }
    assert!(dict.capacity() > 64);
    for k in 0..1000u64 {
        assert_eq!(dict.get(&k), Some(k + 1));
    }
    let dump = dict.diagnosis();
    assert_eq!(dump.len(), dict.capacity() + dict.probe_window() - 1);
    assert_eq!(dump.iter().filter(|(_, c)| c.is_some()).count(), 1000);
}

#[test]
fn no_two_slots_hold_the_same_key() {
    let mut dict: Dict<u64, u64> = Dict::new();
    for round in 0..3u64 {
        for k in 0..300u64 {
            dict.put(k, k + round);
        }
    }
    let mut keys: Vec<u64> = dict
        .diagnosis()
        .into_iter()
        .filter_map(|(_, c)| c.map(|(k, _)| k))
        .collect();
    keys.sort();
    assert_eq!(keys, (0..300u64).collect::<Vec<_>>());
}

#[test]
fn get_leaves_the_table_alone() {
    let mut dict: Dict<u64, u64> = Dict::new();
    for k in 0..100u64 {
        dict.put(k, k);
    }
    let before = dict.diagnosis();
    assert_eq!(dict.get(&5), Some(5));
    assert_eq!(dict.get(&1000), None);
    assert_eq!(dict.diagnosis(), before);
}

#[test]
fn digest_is_the_hash_divided_by_31() {
    let key = "key-of-7".to_string();
    let mut hasher = DefaultHasher::new();
    key.hash(&mut hasher);
    assert_eq!(digest_of(&key), hasher.finish() / 31);
    assert_ne!(digest_of(&key), digest_of(&"key-of-8".to_string()));
}

#[test]
fn put_stores_under_the_digest_of_the_key() {
    let mut dict: Dict<String, u32> = Dict::new();
    let key = "alpha".to_string();
    dict.put(key.clone(), 1);
    let digest = digest_of(&key);
    assert_eq!(dict.get_hashed(digest, &key), Some(1));
    let dump = dict.diagnosis();
    let home = (digest % 64) as usize;
    assert_eq!(dump[home], (home, Some((key, 1))));
}
