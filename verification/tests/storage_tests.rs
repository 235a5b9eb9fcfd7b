use provisioner::storage::{MockStorage, MockStorageError, Storage};

#[test]
fn new_storage_is_empty() {
    let storage: MockStorage<32> = MockStorage::new();
    assert!(storage.is_empty());
    assert_eq!(storage.len(), 0);
    assert_eq!(storage.capacity(), 32);
}

#[test]
fn store_and_load_roundtrip() {
    let mut storage: MockStorage<64> = MockStorage::new();
    storage.store(b"hello world").unwrap();

    let mut buf = [0u8; 64];
    let len = storage.load(&mut buf).unwrap();
    assert_eq!(&buf[..len], b"hello world");
    assert_eq!(storage.as_slice(), b"hello world");
}

#[test]
fn load_into_smaller_buffer_is_truncated() {
    let mut storage: MockStorage<64> = MockStorage::new();
    storage.store(b"long payload").unwrap();

    let mut buf = [0u8; 4];
    let len = storage.load(&mut buf).unwrap();
    assert_eq!(len, 4);
    assert_eq!(&buf, b"long");
}

#[test]
fn store_too_large_fails() {
    let mut storage: MockStorage<4> = MockStorage::new();
    assert_eq!(
        storage.store(b"hello"),
        Err(MockStorageError::BufferTooSmall)
    );
}

#[test]
fn clear_removes_payload() {
    let mut storage: MockStorage<32> = MockStorage::new();
    storage.store(b"data").unwrap();
    assert!(!storage.is_empty());

    storage.clear();
    assert!(storage.is_empty());
    assert_eq!(storage.as_slice(), b"");
}

#[test]
fn store_overwrites_previous_payload() {
    let mut storage: MockStorage<32> = MockStorage::new();
    storage.store(b"first").unwrap();
    storage.store(b"second").unwrap();

    assert_eq!(storage.as_slice(), b"second");
}

#[test]
fn default_is_empty() {
    let storage: MockStorage<16> = MockStorage::default();
    assert!(storage.is_empty());
}

#[test]
fn failed_store_keeps_previous_payload() {
    let mut storage: MockStorage<4> = MockStorage::new();
    storage.store(b"abc").unwrap();
    assert_eq!(
        storage.store(b"too long"),
        Err(MockStorageError::BufferTooSmall)
    );
    assert_eq!(storage.as_slice(), b"abc");
    assert_eq!(storage.len(), 3);
}

#[test]
fn store_exactly_capacity_fits() {
    let mut storage: MockStorage<4> = MockStorage::new();
    storage.store(b"abcd").unwrap();
    assert_eq!(storage.len(), 4);
    assert_eq!(storage.as_slice(), b"abcd");
}

#[test]
fn load_leaves_tail_of_larger_buffer() {
    let mut storage: MockStorage<8> = MockStorage::new();
    storage.store(b"ab").unwrap();
    let mut buf = [9u8; 5];
    let len = storage.load(&mut buf).unwrap();
    assert_eq!(len, 2);
    assert_eq!(buf, [b'a', b'b', 9, 9, 9]);
    assert_eq!(storage.as_slice(), b"ab");
}

#[test]
fn load_from_empty_store() {
    let mut storage: MockStorage<8> = MockStorage::new();
    let mut buf = [5u8; 3];
    assert_eq!(storage.load(&mut buf), Ok(0));
    assert_eq!(buf, [5u8; 3]);
}

#[test]
fn clone_keeps_payload() {
    let mut storage: MockStorage<8> = MockStorage::new();
    storage.store(b"xy").unwrap();
    let copy = storage.clone();
    assert_eq!(copy.as_slice(), b"xy");
    assert_eq!(copy.capacity(), 8);
}

#[test]
fn store_empty_payload() {
    let mut storage: MockStorage<8> = MockStorage::new();
    storage.store(b"xy").unwrap();
    storage.store(b"").unwrap();
    assert!(storage.is_empty());
}
