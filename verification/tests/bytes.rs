use roaring::{BitmapStore, BITMAP_BYTES};

fn members(store: &BitmapStore) -> Vec<u16> {
    store.to_array_store().as_slice().to_vec()
}

#[test]
fn bytes_at_an_offset() {
    let store = BitmapStore::from_lsb0_bytes_unchecked(&[0b0000_0101, 0, 0b1000_0000], 9, 3);
    assert_eq!(members(&store), vec![72, 74, 95]);
    assert_eq!(store.len(), 3);
    assert_eq!(store.as_array()[1], 0x8000_0500);
    assert_eq!((store.min(), store.max()), (Some(72), Some(95)));
}

#[test]
fn no_bytes() {
    let store = BitmapStore::from_lsb0_bytes_unchecked(&[], BITMAP_BYTES, 0);
    assert!(store.is_empty());
}

#[test]
fn last_byte() {
    let store = BitmapStore::from_lsb0_bytes_unchecked(&[0b1000_0000], BITMAP_BYTES - 1, 1);
    assert_eq!(members(&store), vec![65535]);
}

#[test]
fn all_bytes_round_trip() {
    let mut store = BitmapStore::new();
    store.insert_range(5..=77);
    store.insert(3000);
    store.insert(65535);
    let mut bytes = Vec::new();
    for word in store.as_array() {
        bytes.extend_from_slice(&word.to_le_bytes());
    }
    assert_eq!(bytes.len(), BITMAP_BYTES);
    let again = BitmapStore::from_lsb0_bytes_unchecked(&bytes, 0, store.len());
    assert!(again == store);
}

#[test]
fn bytes_in_two_parts() {
    let bytes = [0x11u8, 0x80, 0xff, 0x00, 0x3c];
    let whole = BitmapStore::from_lsb0_bytes_unchecked(&bytes, 6, 15);
    let mut parts = BitmapStore::from_lsb0_bytes_unchecked(&bytes[..2], 6, 3);
    parts |= &BitmapStore::from_lsb0_bytes_unchecked(&bytes[2..], 8, 12);
    assert_eq!(members(&parts), members(&whole));
}
