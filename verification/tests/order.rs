use roaring::word::select;
use roaring::BitmapStore;

fn store_of(values: &[u16]) -> BitmapStore {
    let mut store = BitmapStore::new();
    for &v in values {
        store.insert(v);
    }
    store
}

fn members(store: &BitmapStore) -> Vec<u16> {
    store.to_array_store().as_slice().to_vec()
}

#[test]
fn rank_counts_up_to_a_value() {
    let store = store_of(&[0, 63, 64, 200, 65535]);
    assert_eq!(store.rank(0), 1);
    assert_eq!(store.rank(62), 1);
    assert_eq!(store.rank(63), 2);
    assert_eq!(store.rank(64), 3);
    assert_eq!(store.rank(199), 3);
    assert_eq!(store.rank(200), 4);
    assert_eq!(store.rank(65534), 4);
    assert_eq!(store.rank(65535), 5);
}

#[test]
fn select_by_rank() {
    let store = store_of(&[0, 63, 64, 200, 65535]);
    assert_eq!(store.select(0), Some(0));
    assert_eq!(store.select(1), Some(63));
    assert_eq!(store.select(2), Some(64));
    assert_eq!(store.select(3), Some(200));
    assert_eq!(store.select(4), Some(65535));
    assert_eq!(store.select(5), None);
    assert_eq!(BitmapStore::new().select(0), None);
}

#[test]
fn select_and_rank_are_inverse() {
    let mut store = BitmapStore::new();
    let mut x: u32 = 3;
    while x < 65536 {
        store.insert(x as u16);
        x += 97;
    }
    for n in 0..store.len() as u16 {
        match store.select(n) {
            Some(v) => assert_eq!(store.rank(v), n as u64 + 1),
            None => panic!("there are more members"),
        }
    }
    assert_eq!(store.select(0), store.min());
    assert_eq!(store.select(store.len() as u16 - 1), store.max());
}

#[test]
fn select_within_a_word() {
    assert_eq!(select(0b1011_0100, 0), 2);
    assert_eq!(select(0b1011_0100, 2), 5);
    assert_eq!(select(0b1011_0100, 3), 7);
    assert_eq!(select(0b1011_0100, 4), 64);
    assert_eq!(select(0, 0), 64);
    assert_eq!(select(u64::MAX, 63), 63);
}

#[test]
fn remove_smallest_cases() {
    let values = [1, 5, 64, 70, 9000, 65535];
    let mut store = store_of(&values);
    store.remove_smallest(0);
    assert_eq!(members(&store), values);
    store.remove_smallest(3);
    assert_eq!(members(&store), vec![70, 9000, 65535]);
    assert_eq!((store.len(), store.min()), (3, Some(70)));
    assert_eq!(store.first_nonzero_word(), 1);
    store.remove_smallest(3);
    assert!(store.is_empty());
    let mut store = store_of(&values);
    store.remove_smallest(7);
    assert!(store.is_empty());
    store.remove_smallest(0);
    assert!(store.is_empty());
}

#[test]
fn remove_biggest_cases() {
    let values = [1, 5, 64, 70, 9000, 65535];
    let mut store = store_of(&values);
    store.remove_biggest(0);
    assert_eq!(members(&store), values);
    store.remove_biggest(3);
    assert_eq!(members(&store), vec![1, 5, 64]);
    assert_eq!((store.len(), store.max()), (3, Some(64)));
    assert_eq!(store.last_nonzero_word(), 1);
    store.remove_biggest(2);
    assert_eq!(members(&store), vec![1]);
    store.remove_biggest(1);
    assert!(store.is_empty());
    let mut store = store_of(&values);
    store.remove_biggest(u64::MAX);
    assert!(store.is_empty());
}

#[test]
fn removing_in_steps() {
    let mut values = Vec::new();
    let mut x: u32 = 0;
    while x < 65536 {
        values.push(x as u16);
        x += 31;
    }
    let mut steps = store_of(&values);
    steps.remove_smallest(300);
    steps.remove_smallest(500);
    let mut once = store_of(&values);
    once.remove_smallest(800);
    assert_eq!(members(&steps), members(&once));
    assert_eq!(once.min(), store_of(&values).select(800));
    let mut steps = store_of(&values);
    steps.remove_biggest(300);
    steps.remove_biggest(500);
    let mut once = store_of(&values);
    once.remove_biggest(800);
    assert_eq!(members(&steps), members(&once));
    assert_eq!(members(&once), values[..values.len() - 800]);
}

#[test]
fn ends_meet() {
    let values = [3, 66, 130, 131, 5000];
    let mut upper = store_of(&values);
    upper.remove_smallest(2);
    let mut lower = store_of(&values);
    lower.remove_biggest(3);
    assert!(upper.is_disjoint(&lower));
    let mut all = members(&lower);
    all.extend(members(&upper));
    assert_eq!(all, values);
}
