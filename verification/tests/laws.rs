use roaring::{BitmapStore, Interval};

fn store_of(values: &[u16]) -> BitmapStore {
    let mut store = BitmapStore::new();
    for &v in values {
        store.insert(v);
    }
    store
}

const VALUES: [u16; 7] = [2, 63, 64, 65, 640, 30000, 65535];

#[test]
fn below_and_above_make_up_the_set() {
    let store = store_of(&VALUES);
    for &v in &VALUES {
        let below = store.rank(v) - 1;
        let mut above = store.iter();
        above.advance_to(v);
        assert_eq!(above.next(), Some(v));
        assert_eq!(below + 1 + above.len() as u64, store.len());
    }
}

#[test]
fn symmetric_difference_is_union_without_intersection() {
    let a = store_of(&VALUES);
    let b = store_of(&[2, 3, 64, 30001]);
    let mut left = a.clone();
    left ^= &b;
    let mut common = a.clone();
    common &= &b;
    let mut right = a.clone();
    right |= &b;
    right -= &common;
    assert!(left == right);
}

#[test]
fn a_range_is_contained_when_it_is_full() {
    let store = store_of(&VALUES);
    for (start, end) in [(63, 65), (62, 65), (63, 66), (2, 2), (3, 3)] {
        let size = (end - start) as u64 + 1;
        let count = store.intersection_len_interval(&Interval::new(start, end));
        assert_eq!(store.contains_range(start..=end), count == size);
    }
    assert!(store.contains_range(63..=65));
    assert!(!store.contains_range(62..=65));
}

#[test]
fn a_range_of_one_value_is_that_value() {
    for v in [0u16, 63, 64, 640, 65535] {
        let mut a = store_of(&VALUES);
        let mut b = store_of(&VALUES);
        assert_eq!(a.contains(v), a.contains_range(v..=v));
        assert_eq!(a.insert(v) as u64, b.insert_range(v..=v));
        assert!(a == b);
        assert_eq!(a.remove(v) as u64, b.remove_range(v..=v));
        assert!(a == b);
    }
}

#[test]
fn a_list_is_in_the_order_of_rank() {
    let store = store_of(&VALUES);
    let list = store.to_array_store();
    assert_eq!(list.as_slice().len() as u64, store.len());
    for (i, &v) in list.as_slice().iter().enumerate() {
        assert_eq!(store.select(i as u16), Some(v));
    }
}

#[test]
fn an_ascending_list_can_be_pushed() {
    let mut store = BitmapStore::new();
    for &v in &VALUES {
        assert!(store.push(v));
        assert_eq!(store.max(), Some(v));
    }
    assert!(store == store_of(&VALUES));
}

#[test]
fn visits_count_down() {
    let store = store_of(&VALUES);
    let mut it = store.iter();
    let mut left = VALUES.len();
    loop {
        assert_eq!(it.len(), left);
        let front = it.next();
        if front.is_none() {
            break;
        }
        left -= 1;
        assert_eq!(it.len(), left);
        let back = it.next_back();
        if back.is_none() {
            break;
        }
        left -= 1;
        assert!(front < back);
    }
    assert_eq!(left, 0);
}

#[test]
fn advancing_both_ends_cuts_out_an_interval() {
    let store = store_of(&VALUES);
    for (lo, hi) in [(0, 65535), (63, 640), (64, 64), (66, 600), (641, 65534)] {
        let mut it = store.iter();
        it.advance_to(lo);
        it.advance_back_to(hi);
        let count = store.intersection_len_interval(&Interval::new(lo, hi));
        assert_eq!(it.len() as u64, count);
        while let Some(x) = it.next() {
            assert!(lo <= x && x <= hi && store.contains(x));
        }
    }
}

#[test]
fn runs_from_both_ends_are_the_same() {
    let store = store_of(&VALUES);
    let mut forward = Vec::new();
    let mut it = store.iter();
    while let Some(run) = it.next_range() {
        forward.push(run);
    }
    let mut backward = Vec::new();
    let mut it = store.iter();
    while let Some(run) = it.next_range_back() {
        backward.push(run);
    }
    backward.reverse();
    assert_eq!(forward, backward);
    assert_eq!(forward, vec![2..=2, 63..=65, 640..=640, 30000..=30000, 65535..=65535]);
}

#[test]
fn emptying_keeps_the_cached_words() {
    let mut store = store_of(&[1000]);
    store.clear();
    assert_eq!((store.first_nonzero_word(), store.last_nonzero_word()), (15, 15));
    store.insert(64);
    assert_eq!((store.first_nonzero_word(), store.last_nonzero_word()), (1, 1));
    store.remove_range(0..=65535);
    assert!(store.is_empty());
    assert_eq!((store.first_nonzero_word(), store.last_nonzero_word()), (1, 1));
}
