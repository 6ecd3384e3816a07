use intmap::IntSet;

#[test]
fn set_from_keys_with_duplicates() {
    let s = IntSet::from_iter(vec![1, 2, 2, 3, 1]);
    assert_eq!(s.len(), 3);
    let mut members = s.iter();
    members.sort();
    assert_eq!(members, vec![1, 2, 3]);
}

#[test]
fn set_insert_reports_new_members() {
    let mut s = IntSet::new();
    assert!(s.insert(10));
    assert!(!s.insert(10));
    assert!(s.insert(11));
    assert_eq!(s.len(), 2);
    assert!(s.contains(10));
    assert!(!s.contains(12));
}

#[test]
fn set_remove_reports_presence() {
    let mut s = IntSet::new();
    assert!(!s.remove(42));
    assert_eq!(s.len(), 0);
    s.insert(42);
    assert!(s.remove(42));
    assert!(!s.contains(42));
    assert!(s.is_empty());
}

#[test]
fn set_equality_ignores_order() {
    let a = IntSet::from_iter(vec![5, 1, 9, 300]);
    let mut b = IntSet::with_capacity(100);
    b.extend(vec![300, 9, 1, 5, 5]);
    assert!(a == b);
    b.insert(6);
    assert!(a != b);
    b.remove(6);
    b.remove(5);
    b.insert(7);
    assert!(a != b);
}

#[test]
fn set_retain_and_clear() {
    let mut s = IntSet::from_iter((0..100).collect());
    s.retain(|k| k >= 90);
    assert_eq!(s.len(), 10);
    assert!(s.contains(95));
    assert!(!s.contains(5));
    let cap = s.capacity();
    s.clear();
    assert!(s.is_empty());
    assert_eq!(s.capacity(), cap);
}

#[test]
fn set_into_iter_hands_out_members() {
    let s = IntSet::from_iter(vec![4, 8, 15, 16, 23, 42]);
    let mut it = s.into_iter();
    let mut out = Vec::new();
    while let Some(k) = it.next() {
        out.push(k);
    }
    assert_eq!(it.next(), None);
    out.sort();
    assert_eq!(out, vec![4, 8, 15, 16, 23, 42]);
}

#[test]
fn set_reserve_and_default() {
    let mut s = IntSet::default();
    assert_eq!(s.capacity(), 0);
    assert!(s.is_empty());
    s.reserve(1000);
    let cap = s.capacity();
    for k in 0..1000u32 {
        s.insert(k * 31);
    }
    assert_eq!(s.capacity(), cap);
    assert_eq!(s.len(), 1000);
}

#[test]
fn set_len_counts_distinct_keys() {
    let keys: Vec<u32> = (0..3000u32).map(|i| i % 700).collect();
    let s = IntSet::from_iter(keys);
    assert_eq!(s.len(), 700);
}

#[test]
fn set_clone_has_same_members() {
    let a = IntSet::from_iter(vec![7, 70, 700]);
    let b = a.clone();
    assert!(a == b);
    assert_eq!(b.len(), 3);
    assert!(b.contains(700));
}
