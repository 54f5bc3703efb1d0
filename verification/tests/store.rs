use std::ops::RangeInclusive;

use roaring::{bit, key, BitmapStore, ErrorKind, BITMAP_BYTES, BITMAP_LENGTH};

fn store_of(values: &[u16]) -> BitmapStore {
    let mut store = BitmapStore::new();
    for &v in values {
        store.insert(v);
    }
    store
}

fn members(store: &BitmapStore) -> Vec<u16> {
    let mut it = store.iter();
    let mut out = Vec::new();
    while let Some(x) = it.next() {
        out.push(x);
    }
    out
}

#[test]
fn test_bitmap_remove_smallest() {
    let mut store = BitmapStore::new();
    store.insert_range(RangeInclusive::new(1, 3));
    store.insert_range(RangeInclusive::new(5, 65535));
    store.remove_smallest(2);
    assert_eq!(
        store.as_array()[0],
        0b1111111111111111111111111111111111111111111111111111111111101000
    );
}

#[test]
fn test_bitmap_remove_biggest() {
    let mut store = BitmapStore::new();
    store.insert_range(RangeInclusive::new(1, 3));
    store.insert_range(RangeInclusive::new(5, 65535));
    store.remove_biggest(2);
    assert_eq!(
        store.as_array()[1023],
        0b11111111111111111111111111111111111111111111111111111111111111
    );
}

#[test]
fn test_word_bounds_single_insert() {
    let mut store = BitmapStore::new();
    store.insert(1000);
    assert_eq!(store.first_nonzero_word(), 15);
    assert_eq!(store.last_nonzero_word(), 15);
    assert_eq!(store.min(), Some(1000));
    assert_eq!(store.max(), Some(1000));
}

#[test]
fn test_word_bounds_range_insert() {
    let mut store = BitmapStore::new();
    store.insert_range(100..=60000);
    assert_eq!(store.first_nonzero_word(), 1);
    assert_eq!(store.last_nonzero_word(), 937);
    assert_eq!(store.min(), Some(100));
    assert_eq!(store.max(), Some(60000));
}

#[test]
fn test_min_max_o1() {
    let mut store = BitmapStore::new();
    store.insert(500);
    store.insert(60000);
    assert_eq!(store.min(), Some(500));
    assert_eq!(store.max(), Some(60000));
}

#[test]
fn new_store_is_empty() {
    let store = BitmapStore::new();
    assert!(store.is_empty());
    assert_eq!(store.len(), 0);
    assert_eq!(store.min(), None);
    assert_eq!(store.max(), None);
    assert_eq!(store.capacity(), 65536);
    assert_eq!(members(&store), Vec::<u16>::new());
    assert!(members(&BitmapStore::default()).is_empty());
}

#[test]
fn lengths() {
    assert_eq!(BITMAP_LENGTH, 1024);
    assert_eq!(BITMAP_BYTES, 8192);
}

#[test]
fn key_and_bit() {
    assert_eq!((key(0), bit(0)), (0, 0));
    assert_eq!((key(63), bit(63)), (0, 63));
    assert_eq!((key(64), bit(64)), (1, 0));
    assert_eq!((key(1000), bit(1000)), (15, 40));
    assert_eq!((key(65535), bit(65535)), (1023, 63));
}

#[test]
fn insert_reports_news() {
    let mut store = BitmapStore::new();
    assert!(store.insert(7));
    assert!(!store.insert(7));
    assert!(store.insert(0));
    assert!(store.insert(65535));
    assert_eq!(store.len(), 3);
    assert_eq!(store.as_array()[0], 0b1000_0001);
    assert_eq!(store.as_array()[1023], 1 << 63);
    assert!(store.contains(7));
    assert!(!store.contains(8));
}

#[test]
fn remove_moves_the_word_bounds() {
    let mut store = store_of(&[10, 640, 6400, 64000]);
    assert!(!store.remove(11));
    assert!(store.remove(10));
    assert!(!store.remove(10));
    assert_eq!(store.first_nonzero_word(), 10);
    assert_eq!(store.min(), Some(640));
    assert!(store.remove(64000));
    assert_eq!(store.last_nonzero_word(), 100);
    assert_eq!(store.max(), Some(6400));
    assert!(store.remove(640));
    assert!(store.remove(6400));
    assert!(store.is_empty());
    assert_eq!(store.min(), None);
    assert!(store.insert(300));
    assert_eq!((store.min(), store.max()), (Some(300), Some(300)));
}

#[test]
fn insert_undoes_remove() {
    let mut store = store_of(&[3, 500, 501]);
    let words = *store.as_array();
    assert!(store.remove(500));
    assert!(store.insert(500));
    assert_eq!(*store.as_array(), words);
    assert!(store.insert(9));
    assert!(store.remove(9));
    assert_eq!(*store.as_array(), words);
}

#[test]
fn push_only_grows_at_the_end() {
    let mut store = BitmapStore::new();
    assert!(store.push(5));
    assert!(!store.push(5));
    assert!(!store.push(4));
    assert!(store.push(6));
    store.push_unchecked(900);
    assert_eq!(members(&store), vec![5, 6, 900]);
    assert_eq!(store.max(), Some(900));
}

#[test]
fn insert_range_within_one_word() {
    let mut store = BitmapStore::new();
    assert_eq!(store.insert_range(70..=75), 6);
    assert_eq!(store.insert_range(70..=75), 0);
    assert_eq!(store.insert_range(68..=80), 7);
    assert_eq!(store.len(), 13);
    assert_eq!(store.as_array()[1], 0x1fff << 4);
    assert_eq!(store.insert_range(0..=63), 64);
    assert_eq!(store.as_array()[0], u64::MAX);
}

#[test]
fn insert_range_over_words() {
    let mut store = store_of(&[62, 100, 191, 300]);
    assert_eq!(store.insert_range(60..=200), 138);
    assert_eq!(store.len(), 142);
    assert_eq!(store.as_array()[0], 0xf << 60);
    assert_eq!(store.as_array()[1], u64::MAX);
    assert_eq!(store.as_array()[2], u64::MAX);
    assert_eq!(store.as_array()[3], 0x1ff);
    assert_eq!(store.insert_range(0..=65535), 65536 - 142);
    assert_eq!(store.len(), 65536);
}

#[test]
fn insert_range_of_single_values() {
    let mut store = BitmapStore::new();
    assert_eq!(store.insert_range(0..=0), 1);
    assert_eq!(store.insert_range(65535..=65535), 1);
    assert_eq!(members(&store), vec![0, 65535]);
}

#[test]
fn remove_range_within_one_word() {
    let mut store = store_of(&[5, 6, 7, 9]);
    assert_eq!(store.remove_range(6..=8), 2);
    assert_eq!(members(&store), vec![5, 9]);
    assert_eq!(store.remove_range(0..=63), 2);
    assert!(store.is_empty());
}

#[test]
#[allow(clippy::reversed_empty_ranges)]
fn remove_range_with_ends_out_of_order() {
    let mut store = store_of(&[5, 6, 7]);
    assert_eq!(store.remove_range(RangeInclusive::new(7, 5)), 0);
    assert_eq!(members(&store), vec![5, 6, 7]);
}

#[test]
fn remove_range_over_words() {
    let mut store = BitmapStore::new();
    store.insert_range(10..=1000);
    assert_eq!(store.remove_range(0..=500), 491);
    assert_eq!(store.first_nonzero_word(), 7);
    assert_eq!(store.min(), Some(501));
    assert_eq!(store.remove_range(700..=65535), 301);
    assert_eq!(store.last_nonzero_word(), 10);
    assert_eq!(store.max(), Some(699));
    assert_eq!(store.len(), 199);
}

#[test]
fn insert_range_then_remove_range() {
    let mut store = store_of(&[1, 150, 400]);
    assert_eq!(store.insert_range(100..=300), 200);
    assert_eq!(store.remove_range(100..=300), 201);
    assert_eq!(members(&store), vec![1, 400]);
}

#[test]
fn contains_range_cases() {
    let mut store = BitmapStore::new();
    store.insert_range(60..=200);
    assert!(store.contains_range(60..=200));
    assert!(store.contains_range(64..=127));
    assert!(store.contains_range(65..=70));
    assert!(!store.contains_range(59..=200));
    assert!(!store.contains_range(60..=201));
    assert!(!store.contains_range(0..=65535));
    store.insert_range(300..=400);
    store.remove(100);
    assert!(!store.contains_range(60..=200));
    assert!(!store.contains_range(99..=101));
    assert!(store.contains_range(101..=200));
    assert!(!store.contains_range(201..=201));
    assert!(!store.contains_range(198..=290));
}

#[test]
fn clear_removes_all() {
    let mut store = store_of(&[1, 2, 65535]);
    store.clear();
    assert!(store.is_empty());
    assert_eq!(*store.as_array(), [0u64; BITMAP_LENGTH]);
}

#[test]
fn try_from_checks_the_cardinality() {
    let mut words = Box::new([0u64; BITMAP_LENGTH]);
    words[2] = 0b101;
    words[9] = 1 << 63;
    match BitmapStore::try_from(3, words.clone()) {
        Ok(store) => {
            assert_eq!(store.len(), 3);
            assert_eq!(members(&store), vec![128, 130, 639]);
            assert_eq!((store.first_nonzero_word(), store.last_nonzero_word()), (2, 9));
        }
        Err(_) => panic!("the cardinality is right"),
    }
    match BitmapStore::try_from(4, words) {
        Ok(_) => panic!("the cardinality is wrong"),
        Err(e) => {
            let ErrorKind::Cardinality { expected, actual } = e.kind;
            assert_eq!((expected, actual), (4, 3));
            assert_eq!(e.to_string(), "Expected cardinality was 4 but was 3");
        }
    }
}

#[test]
fn error_text_of_large_numbers() {
    let words = Box::new([u64::MAX; BITMAP_LENGTH]);
    match BitmapStore::try_from(u64::MAX, words) {
        Ok(_) => panic!("the cardinality is wrong"),
        Err(e) => assert_eq!(
            e.to_string(),
            "Expected cardinality was 18446744073709551615 but was 65536"
        ),
    }
}

#[test]
fn from_unchecked_rebuilds_a_store() {
    let store = store_of(&[17, 4000, 65000]);
    let again = BitmapStore::from_unchecked(store.len(), Box::new(*store.as_array()));
    assert_eq!(members(&again), vec![17, 4000, 65000]);
    assert!(again == store);
}

#[test]
fn validation() {
    let mut store = BitmapStore::new();
    store.insert_range(1..=4096);
    assert_eq!(
        store.internal_validate(),
        Err("cardinality is too small for a bitmap container")
    );
    store.insert(0);
    assert_eq!(store.internal_validate(), Ok(()));
}

#[test]
fn equality_and_clone() {
    let a = store_of(&[1, 70, 7000]);
    let b = store_of(&[7000, 1, 70]);
    let c = store_of(&[1, 70, 7001]);
    assert!(a == b);
    assert!(a != c);
    let mut d = a.clone();
    assert!(a == d);
    d.remove(70);
    assert!(a != d);
    assert_eq!(members(&a), vec![1, 70, 7000]);
}

#[test]
fn empty_stores_may_differ_in_their_cached_words() {
    let mut emptied = store_of(&[1000]);
    emptied.remove(1000);
    assert_eq!(*emptied.as_array(), *BitmapStore::new().as_array());
    assert!(emptied != BitmapStore::new());
}
