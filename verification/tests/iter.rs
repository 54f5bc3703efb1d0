use roaring::BitmapStore;

fn store_of(values: &[u16]) -> BitmapStore {
    let mut store = BitmapStore::new();
    for &v in values {
        store.insert(v);
    }
    store
}

const VALUES: [u16; 8] = [0, 5, 63, 64, 127, 1000, 65534, 65535];

#[test]
fn forward() {
    let store = store_of(&VALUES);
    let mut it = store.iter();
    let mut out = Vec::new();
    while let Some(x) = it.next() {
        out.push(x);
    }
    assert_eq!(out, VALUES);
    assert_eq!(it.next(), None);
    assert_eq!(it.next_back(), None);
    assert_eq!(it.peek(), None);
    assert_eq!(it.peek_back(), None);
    assert_eq!(it.len(), 0);
}

#[test]
fn backward() {
    let store = store_of(&VALUES);
    let mut it = store.into_iter();
    let mut out = Vec::new();
    while let Some(x) = it.next_back() {
        out.push(x);
    }
    out.reverse();
    assert_eq!(out, VALUES);
    assert_eq!(it.next(), None);
}

#[test]
fn both_ends_meet_in_one_word() {
    let store = store_of(&[70, 71, 72, 73, 74]);
    let mut it = store.iter();
    assert_eq!(it.size_hint(), (5, Some(5)));
    assert_eq!(it.next(), Some(70));
    assert_eq!(it.next_back(), Some(74));
    assert_eq!(it.next_back(), Some(73));
    assert_eq!(it.next(), Some(71));
    assert_eq!(it.len(), 1);
    assert_eq!(it.peek(), Some(72));
    assert_eq!(it.peek_back(), Some(72));
    assert_eq!(it.next_back(), Some(72));
    assert_eq!(it.next(), None);
    assert_eq!(it.next_back(), None);
}

#[test]
fn peek_leaves_the_cursor() {
    let store = store_of(&VALUES);
    let mut it = store.iter();
    assert_eq!(it.peek(), Some(0));
    assert_eq!(it.peek(), Some(0));
    assert_eq!(it.peek_back(), Some(65535));
    assert_eq!(it.next(), Some(0));
    assert_eq!(it.peek(), Some(5));
    assert_eq!(it.clone().count(), 7);
    assert_eq!(it.next(), Some(5));
    assert_eq!(it.count(), 6);
}

#[test]
fn empty_cursor() {
    let store = BitmapStore::new();
    let mut it = store.iter();
    assert_eq!(it.peek(), None);
    assert_eq!(it.peek_back(), None);
    assert_eq!(it.size_hint(), (0, Some(0)));
    assert!(it.next_range().is_none());
    assert!(it.next_range_back().is_none());
    it.advance_to(100);
    it.advance_back_to(50);
    assert_eq!(it.next(), None);
    assert_eq!(it.next_back(), None);
}

#[test]
fn advance_to_cases() {
    let store = store_of(&VALUES);
    let mut it = store.iter();
    it.advance_to(6);
    assert_eq!(it.peek(), Some(63));
    it.advance_to(0);
    assert_eq!(it.next(), Some(63));
    it.advance_to(127);
    assert_eq!(it.next(), Some(127));
    it.advance_to(65535);
    assert_eq!(it.len(), 1);
    assert_eq!(it.next(), Some(65535));
    it.advance_to(65535);
    assert_eq!(it.next(), None);
}

#[test]
fn advance_back_to_cases() {
    let store = store_of(&VALUES);
    let mut it = store.iter();
    it.advance_back_to(65534);
    assert_eq!(it.peek_back(), Some(65534));
    it.advance_back_to(999);
    assert_eq!(it.next_back(), Some(127));
    it.advance_back_to(64000);
    assert_eq!(it.next_back(), Some(64));
    it.advance_back_to(62);
    assert_eq!(it.len(), 2);
    assert_eq!(it.next_back(), Some(5));
    assert_eq!(it.next(), Some(0));
    assert_eq!(it.next_back(), None);
}

#[test]
fn advancing_past_each_other() {
    let store = store_of(&VALUES);
    let mut it = store.iter();
    it.advance_back_to(100);
    it.advance_to(200);
    assert_eq!(it.len(), 0);
    assert_eq!(it.next(), None);
    let mut it = store.iter();
    it.advance_to(200);
    it.advance_back_to(100);
    assert_eq!(it.len(), 0);
    assert_eq!(it.next_back(), None);
    let mut it = store.iter();
    it.advance_to(64);
    it.advance_back_to(127);
    assert_eq!(it.next_back(), Some(127));
    assert_eq!(it.next_back(), Some(64));
    assert_eq!(it.next_back(), None);
}

#[test]
fn ranges_forward() {
    let mut store = BitmapStore::new();
    store.insert_range(3..=5);
    store.insert_range(60..=200);
    store.insert_range(256..=319);
    store.insert(321);
    store.insert_range(65500..=65535);
    let mut it = store.iter();
    assert_eq!(it.next_range(), Some(3..=5));
    assert_eq!(it.next_range(), Some(60..=200));
    assert_eq!(it.len(), 64 + 1 + 36);
    assert_eq!(it.next_range(), Some(256..=319));
    assert_eq!(it.next_range(), Some(321..=321));
    assert_eq!(it.next_range(), Some(65500..=65535));
    assert_eq!(it.next_range(), None);
    assert_eq!(it.next_range_back(), None);
}

#[test]
fn ranges_backward() {
    let mut store = BitmapStore::new();
    store.insert_range(0..=5);
    store.insert_range(60..=200);
    store.insert_range(256..=319);
    store.insert(321);
    store.insert_range(65500..=65535);
    let mut it = store.iter();
    assert_eq!(it.next_range_back(), Some(65500..=65535));
    assert_eq!(it.next_range_back(), Some(321..=321));
    assert_eq!(it.next_range_back(), Some(256..=319));
    assert_eq!(it.len(), 141 + 6);
    assert_eq!(it.next_range_back(), Some(60..=200));
    assert_eq!(it.next_range_back(), Some(0..=5));
    assert_eq!(it.next_range_back(), None);
    assert_eq!(it.next_range(), None);
}

#[test]
fn full_store_is_one_range() {
    let mut store = BitmapStore::new();
    store.insert_range(0..=65535);
    assert_eq!(store.iter().next_range(), Some(0..=65535));
    assert_eq!(store.iter().next_range_back(), Some(0..=65535));
    assert_eq!(store.iter().len(), 65536);
}

#[test]
fn ranges_after_partial_visits() {
    let mut store = BitmapStore::new();
    store.insert_range(100..=400);
    let mut it = store.iter();
    assert_eq!(it.next(), Some(100));
    assert_eq!(it.next_back(), Some(400));
    it.advance_back_to(350);
    assert_eq!(it.clone().next_range(), Some(101..=350));
    assert_eq!(it.next_range_back(), Some(101..=350));
    assert_eq!(it.next(), None);
}

#[test]
fn list_is_visiting_order() {
    let store = store_of(&[9, 3, 70, 4444, 128]);
    let list = store.to_array_store();
    let mut it = store.iter();
    for &v in list.as_slice() {
        assert_eq!(it.next(), Some(v));
    }
    assert_eq!(it.next(), None);
    assert_eq!(list.as_slice(), &[3, 9, 70, 128, 4444]);
}
