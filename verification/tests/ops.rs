use roaring::{ArrayStore, BitmapStore, Interval};

fn store_of(values: &[u16]) -> BitmapStore {
    let mut store = BitmapStore::new();
    for &v in values {
        store.insert(v);
    }
    store
}

fn members(store: &BitmapStore) -> Vec<u16> {
    store.to_array_store().as_slice().to_vec()
}

#[test]
fn union() {
    let mut a = store_of(&[1, 2, 70]);
    a |= &store_of(&[2, 3, 65535]);
    assert_eq!(members(&a), vec![1, 2, 3, 70, 65535]);
    assert_eq!(a.len(), 5);
    assert_eq!((a.min(), a.max()), (Some(1), Some(65535)));
}

#[test]
fn intersection() {
    let mut a = store_of(&[1, 2, 70, 4000]);
    let b = store_of(&[2, 3, 70, 65535]);
    assert_eq!(a.intersection_len_bitmap(&b), 2);
    a &= &b;
    assert_eq!(members(&a), vec![2, 70]);
    assert_eq!((a.first_nonzero_word(), a.last_nonzero_word()), (0, 1));
    a &= &BitmapStore::new();
    assert!(a.is_empty());
}

#[test]
fn difference() {
    let mut a = store_of(&[1, 2, 70, 4000]);
    a -= &store_of(&[2, 3, 4000]);
    assert_eq!(members(&a), vec![1, 70]);
    assert_eq!((a.len(), a.max()), (2, Some(70)));
}

#[test]
fn symmetric_difference() {
    let mut a = store_of(&[1, 2, 70]);
    let b = store_of(&[2, 3, 65535]);
    a ^= &b;
    assert_eq!(members(&a), vec![1, 3, 70, 65535]);
    a ^= &b;
    assert_eq!(members(&a), vec![1, 2, 70]);
}

#[test]
fn sizes_add_up() {
    let mut a = BitmapStore::new();
    a.insert_range(0..=999);
    let mut b = BitmapStore::new();
    b.insert_range(500..=1999);
    let common = a.intersection_len_bitmap(&b);
    assert_eq!(common, 500);
    let mut union = a.clone();
    union |= &b;
    assert_eq!(union.len() + common, a.len() + b.len());
    let mut difference = a.clone();
    difference -= &b;
    assert_eq!(difference.len() + common, a.len());
    let mut symmetric = a.clone();
    symmetric ^= &b;
    assert_eq!(symmetric.len() + 2 * common, a.len() + b.len());
}

#[test]
fn operations_with_lists() {
    let list = ArrayStore::from_vec_unchecked(vec![2, 3, 70, 65535]);
    let mut a = store_of(&[1, 2, 70]);
    assert_eq!(a.intersection_len_array(&list), 2);
    a |= &list;
    assert_eq!(members(&a), vec![1, 2, 3, 70, 65535]);
    assert_eq!((a.len(), a.max()), (5, Some(65535)));
    let mut a = store_of(&[1, 2, 70]);
    a -= &list;
    assert_eq!(members(&a), vec![1]);
    assert_eq!((a.len(), a.max()), (1, Some(1)));
    let mut a = store_of(&[1, 2, 70]);
    a ^= &list;
    assert_eq!(members(&a), vec![1, 3, 65535]);
    assert_eq!(a.len(), 3);
    let mut a = store_of(&[2, 3, 70, 65535]);
    a ^= &list;
    assert!(a.is_empty());
}

#[test]
fn list_round_trip() {
    let store = store_of(&[0, 63, 64, 12345, 65535]);
    let mut again = BitmapStore::new();
    again |= &store.to_array_store();
    assert!(again == store);
}

#[test]
fn subset_and_disjoint() {
    let a = store_of(&[1, 70]);
    let b = store_of(&[1, 2, 70]);
    let c = store_of(&[3, 71, 9999]);
    assert!(a.is_subset(&b));
    assert!(!b.is_subset(&a));
    assert!(BitmapStore::new().is_subset(&a));
    assert!(a.is_disjoint(&c));
    assert!(!a.is_disjoint(&b));
    assert_eq!(a.intersection_len_bitmap(&c), 0);
    assert_eq!(a.intersection_len_bitmap(&b), a.len());
}

#[test]
fn interval_intersection() {
    let mut store = BitmapStore::new();
    store.insert_range(60..=200);
    assert_eq!(store.intersection_len_interval(&Interval::new(0, 65535)), 141);
    assert_eq!(store.intersection_len_interval(&Interval::new(70, 75)), 6);
    assert_eq!(store.intersection_len_interval(&Interval::new(0, 60)), 1);
    assert_eq!(store.intersection_len_interval(&Interval::new(150, 65535)), 51);
    assert_eq!(store.intersection_len_interval(&Interval::new(64, 127)), 64);
    assert_eq!(store.intersection_len_interval(&Interval::new(201, 300)), 0);
    assert!(store.contains_range(70..=75));
}

#[test]
fn interval_parts() {
    let i = Interval::new(3, 9);
    assert_eq!((i.start(), i.end(), i.is_full()), (3, 9, false));
    assert!(Interval::new(0, u16::MAX).is_full());
}
