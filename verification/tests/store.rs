use chunklog::store::StoreError;
use chunklog::{MemoryStore, Object, ObjectStore};

#[test]
fn write_read_roundtrip() {
    let mut store = MemoryStore::new();
    let object = Object::Blob(vec![1, 2, 3]).to_bytes();
    let hash = store.write(&object).unwrap();
    assert_eq!(store.read(hash).unwrap(), object);
}

#[test]
fn deduplicates_identical_objects() {
    let mut store = MemoryStore::new();
    let object = Object::Blob(vec![5, 6]).to_bytes();
    let h1 = store.write(&object).unwrap();
    let h2 = store.write(&object).unwrap();
    assert_eq!(h1, h2);
    assert_eq!(store.list().unwrap().len(), 1);
}

#[test]
fn hash_is_deterministic() {
    let a = Object::Blob(vec![1, 2, 3]);
    let b = Object::Blob(vec![1, 2, 3]);
    assert_eq!(a.hash(), b.hash());
    assert_ne!(a.hash(), Object::Blob(vec![1, 2, 4]).hash());
}

#[test]
fn missing_objects_are_not_found_and_delete_is_idempotent() {
    let mut store = MemoryStore::new();
    let h = chunklog::hash::Hash::digest(b"absent");
    assert_eq!(store.read(h), Err(StoreError::NotFound(h)));
    store.delete(h).unwrap();
    let written = store.write(b"present").unwrap();
    assert_eq!(written, chunklog::hash::Hash::digest(b"present"));
    store.delete(written).unwrap();
    assert_eq!(store.read(written), Err(StoreError::NotFound(written)));
    assert!(store.list().unwrap().is_empty());
}

#[test]
fn batches_are_no_ops_for_the_memory_store() {
    let mut store = MemoryStore::new();
    store.begin_batch().unwrap();
    let h = store.write(b"x").unwrap();
    store.commit_batch().unwrap();
    store.rollback_batch().unwrap();
    assert_eq!(store.read(h).unwrap(), b"x".to_vec());
}
