use intmap::int_map::{ideal_slot, scramble, capacity_for, cyclic_distance};
use intmap::IntMap;

#[test]
fn thousand_keys_mapped_to_themselves() {
    let mut m: IntMap<u32> = IntMap::new();
    for k in 0..1000u32 {
        assert_eq!(m.insert(k, k), None);
    }
    assert_eq!(m.len(), 1000);
    assert_eq!(m.get(500), Some(&500));
    assert_eq!(m.get(1000), None);
    for k in 0..1000u32 {
        assert_eq!(m.get(k), Some(&k));
    }
}

#[test]
fn insert_twice_replaces_value() {
    let mut m: IntMap<String> = IntMap::new();
    assert_eq!(m.insert(7, "a".to_string()), None);
    assert_eq!(m.insert(7, "b".to_string()), Some("a".to_string()));
    assert_eq!(m.get(7), Some(&"b".to_string()));
    assert_eq!(m.len(), 1);
}

#[test]
fn remove_from_empty_table() {
    let mut m: IntMap<u32> = IntMap::new();
    assert_eq!(m.remove(42), None);
    assert_eq!(m.len(), 0);
    assert!(m.is_empty());
}

#[test]
fn reserve_then_insert_does_not_grow() {
    let mut m: IntMap<u32> = IntMap::new();
    m.reserve(1000);
    let cap = m.capacity();
    assert_eq!(cap, 2048);
    for k in 0..1000u32 {
        m.insert(k.wrapping_mul(7919), k);
    }
    assert_eq!(m.len(), 1000);
    assert_eq!(m.capacity(), cap);
}

#[test]
fn remove_middle_of_colliding_keys() {
    let mut m: IntMap<u32> = IntMap::with_capacity(16);
    let cap = m.capacity();
    assert_eq!(cap, 32);
    let target = ideal_slot(1, cap);
    let mut keys = Vec::new();
    let mut k: u32 = 1;
    while keys.len() < 3 {
        if ideal_slot(k, cap) == target {
            keys.push(k);
        }
        k += 1;
    }
    for (i, key) in keys.iter().enumerate() {
        assert_eq!(m.insert(*key, i as u32), None);
    }
    assert_eq!(m.remove(keys[1]), Some(1));
    assert_eq!(m.get(keys[0]), Some(&0));
    assert_eq!(m.get(keys[2]), Some(&2));
    assert!(!m.contains_key(keys[1]));
    assert_eq!(m.len(), 2);
    assert_eq!(m.capacity(), cap);
}

#[test]
fn remove_keeps_other_keys_findable() {
    let mut m: IntMap<u32> = IntMap::new();
    for k in 0..2000u32 {
        m.insert(k, k + 1);
    }
    for k in (0..2000u32).step_by(2) {
        assert_eq!(m.remove(k), Some(k + 1));
    }
    assert_eq!(m.len(), 1000);
    for k in 0..2000u32 {
        if k % 2 == 0 {
            assert_eq!(m.get(k), None);
        } else {
            assert_eq!(m.get(k), Some(&(k + 1)));
        }
    }
}

#[test]
fn insert_then_remove_restores_state() {
    let mut m: IntMap<u32> = IntMap::new();
    for k in 0..10u32 {
        m.insert(k * 3, k);
    }
    let before = m.keys();
    m.insert(100, 5);
    assert_eq!(m.len(), 11);
    assert_eq!(m.remove(100), Some(5));
    assert_eq!(m.len(), 10);
    let mut after = m.keys();
    let mut before_sorted = before.clone();
    before_sorted.sort();
    after.sort();
    assert_eq!(before_sorted, after);
    assert!(!m.contains_key(100));
}

#[test]
fn growth_keeps_entries() {
    let mut m: IntMap<u32> = IntMap::new();
    assert_eq!(m.capacity(), 0);
    for k in 0..7u32 {
        m.insert(k, k * 10);
    }
    assert_eq!(m.capacity(), 8);
    m.insert(7, 70);
    assert_eq!(m.capacity(), 16);
    for k in 0..8u32 {
        assert_eq!(m.get(k), Some(&(k * 10)));
    }
    assert_eq!(m.len(), 8);
}

#[test]
fn insert_checked_leaves_present_key() {
    let mut m: IntMap<u32> = IntMap::new();
    assert!(m.insert_checked(5, 1));
    assert!(!m.insert_checked(5, 2));
    assert_eq!(m.get(5), Some(&1));
    assert_eq!(m.len(), 1);
}

#[test]
fn clear_keeps_capacity() {
    let mut m: IntMap<u32> = IntMap::with_capacity(100);
    for k in 0..50u32 {
        m.insert(k, k);
    }
    let cap = m.capacity();
    m.clear();
    assert_eq!(m.len(), 0);
    assert_eq!(m.capacity(), cap);
    assert_eq!(m.get(3), None);
    m.insert(3, 4);
    assert_eq!(m.get(3), Some(&4));
}

#[test]
fn retain_keeps_accepted_keys() {
    let mut m: IntMap<u32> = IntMap::new();
    for k in 0..300u32 {
        m.insert(k, k);
    }
    m.retain(|k| k % 3 == 0);
    assert_eq!(m.len(), 100);
    for k in 0..300u32 {
        assert_eq!(m.contains_key(k), k % 3 == 0);
    }
}

#[test]
fn keys_lists_each_key_once() {
    let mut m: IntMap<u32> = IntMap::new();
    for k in [9u32, 4, 4000000000, 0, 9] {
        m.insert(k, 1);
    }
    let mut keys = m.keys();
    keys.sort();
    assert_eq!(keys, vec![0, 4, 9, 4000000000]);
}

#[test]
fn with_capacity_sizes() {
    let a: IntMap<u32> = IntMap::with_capacity(0);
    assert_eq!(a.capacity(), 0);
    let b: IntMap<u32> = IntMap::with_capacity(7);
    assert_eq!(b.capacity(), 8);
    let c: IntMap<u32> = IntMap::with_capacity(8);
    assert_eq!(c.capacity(), 16);
    assert_eq!(capacity_for(1), 8);
    assert_eq!(capacity_for(1000), 2048);
    assert_eq!(capacity_for(921), 1024);
    assert_eq!(capacity_for(922), 2048);
}

#[test]
fn scramble_values() {
    assert_eq!(scramble(0), 0);
    assert_eq!(scramble(1), 40503);
    assert_eq!(scramble(u32::MAX), (u32::MAX as u64 * 2654435769) >> 16);
    assert_eq!(ideal_slot(1, 8), 7);
    assert_eq!(scramble(2), 81006);
    assert_eq!(ideal_slot(2, 16), 14);
}

#[test]
fn cyclic_distance_values() {
    assert_eq!(cyclic_distance(2, 5, 8), 3);
    assert_eq!(cyclic_distance(6, 1, 8), 3);
    assert_eq!(cyclic_distance(4, 4, 8), 0);
}

#[test]
fn large_keys_round_trip() {
    let mut m: IntMap<u64> = IntMap::new();
    for i in 0..500u32 {
        let k = u32::MAX - i * 65536;
        m.insert(k, k as u64);
    }
    for i in 0..500u32 {
        let k = u32::MAX - i * 65536;
        assert_eq!(m.remove(k), Some(k as u64));
    }
    assert!(m.is_empty());
}

fn keys_with_ideal(slot: usize, cap: usize, n: usize) -> Vec<u32> {
    let mut keys = Vec::new();
    let mut k: u32 = 0;
    while keys.len() < n {
        if ideal_slot(k, cap) == slot {
            keys.push(k);
        }
        k += 1;
    }
    keys
}

#[test]
fn cluster_wrapping_past_last_slot() {
    let mut m: IntMap<u32> = IntMap::with_capacity(6);
    let cap = m.capacity();
    assert_eq!(cap, 8);
    let last = keys_with_ideal(cap - 1, cap, 3);
    let first = keys_with_ideal(0, cap, 2);
    m.insert(last[0], 1);
    m.insert(last[1], 2);
    m.insert(first[0], 3);
    m.insert(last[2], 4);
    m.insert(first[1], 5);
    assert_eq!(m.capacity(), cap);
    assert_eq!(m.remove(last[0]), Some(1));
    assert_eq!(m.get(last[1]), Some(&2));
    assert_eq!(m.get(first[0]), Some(&3));
    assert_eq!(m.get(last[2]), Some(&4));
    assert_eq!(m.get(first[1]), Some(&5));
    assert_eq!(m.remove(first[0]), Some(3));
    assert_eq!(m.get(last[1]), Some(&2));
    assert_eq!(m.get(last[2]), Some(&4));
    assert_eq!(m.get(first[1]), Some(&5));
    assert_eq!(m.len(), 3);
}

#[test]
fn entry_vacant_then_occupied() {
    let mut m: IntMap<u32> = IntMap::new();
    let e = m.entry(12);
    assert!(!e.is_occupied());
    assert_eq!(e.key(), 12);
    m.entry_insert(e, 100);
    assert_eq!(m.get(12), Some(&100));
    let e = m.entry(12);
    assert!(e.is_occupied());
    assert_eq!(*m.entry_get(&e), 100);
    assert_eq!(m.entry_replace(e, 101), 101 - 1);
    assert_eq!(m.get(12), Some(&101));
    let e = m.entry(12);
    assert_eq!(m.entry_remove(e), 101);
    assert_eq!(m.get(12), None);
    assert_eq!(m.len(), 0);
}

#[test]
fn entry_counts_occurrences() {
    let mut m: IntMap<u32> = IntMap::new();
    for k in [3u32, 1, 3, 3, 2, 1] {
        let e = m.entry(k);
        if e.is_occupied() {
            let n = *m.entry_get(&e);
            m.entry_replace(e, n + 1);
        } else {
            m.entry_insert(e, 1);
        }
    }
    assert_eq!(m.get(3), Some(&3));
    assert_eq!(m.get(1), Some(&2));
    assert_eq!(m.get(2), Some(&1));
    assert_eq!(m.len(), 3);
}

#[test]
fn iter_lists_each_entry_once() {
    let mut m: IntMap<u32> = IntMap::new();
    for k in 0..50u32 {
        m.insert(k * 11, k);
    }
    m.remove(22);
    let mut pairs: Vec<(u32, u32)> = m.iter().into_iter().map(|(k, v)| (k, *v)).collect();
    pairs.sort();
    let expected: Vec<(u32, u32)> = (0..50u32).filter(|k| *k != 2).map(|k| (k * 11, k)).collect();
    assert_eq!(pairs, expected);
}

#[test]
fn into_iter_hands_out_values() {
    let mut m: IntMap<String> = IntMap::new();
    m.insert(1, "one".to_string());
    m.insert(2, "two".to_string());
    m.insert(1, "uno".to_string());
    let mut pairs = m.into_iter();
    pairs.sort();
    assert_eq!(pairs, vec![(1, "uno".to_string()), (2, "two".to_string())]);
}
