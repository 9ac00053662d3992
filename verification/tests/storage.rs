use store::storage::mem_store::MemStore;
use store::storage::{read_part_of, write_part_into, StorageBackend};
use store::{ObjectId, PoolName};

fn test_backend<S: StorageBackend>(mut storage: S) {
    let pool1 = PoolName("mapoule".to_owned());
    let obj1 = ObjectId((b"greeting" as &[u8]).to_owned());
    let obj2 = ObjectId((b"other" as &[u8]).to_owned());
    let obj3 = ObjectId((b"maybe" as &[u8]).to_owned());

    // Write whole object
    storage.write_object(&pool1, &obj1, b"hello world!").unwrap();
    assert_eq!(
        storage.read_object(&pool1, &obj1).unwrap().as_deref(),
        Some(b"hello world!" as &[u8])
    );

    // Write part into new object
    storage.write_part(&pool1, &obj2, 5, b"hi").unwrap();
    assert_eq!(
        storage.read_object(&pool1, &obj2).unwrap().as_deref(),
        Some(b"\x00\x00\x00\x00\x00hi" as &[u8])
    );

    // Write part into existing object
    storage.write_part(&pool1, &obj1, 3, b"xxx").unwrap();
    assert_eq!(
        storage.read_object(&pool1, &obj1).unwrap().as_deref(),
        Some(b"helxxxworld!" as &[u8])
    );

    // Write part past end of existing object
    storage.write_part(&pool1, &obj1, 10, b"!!!").unwrap();
    assert_eq!(
        storage.read_object(&pool1, &obj1).unwrap().as_deref(),
        Some(b"helxxxworl!!!" as &[u8])
    );

    // Read part of object
    assert_eq!(
        storage.read_part(&pool1, &obj1, 4, 3).unwrap().as_deref(),
        Some(b"xxw" as &[u8])
    );

    // Read too big a part
    assert_eq!(
        storage.read_part(&pool1, &obj1, 4, 20).unwrap().as_deref(),
        Some(b"xxworl!!!" as &[u8])
    );

    // Read fully outside part
    assert_eq!(
        storage.read_part(&pool1, &obj1, 20, 20).unwrap().as_deref(),
        Some(b"" as &[u8])
    );

    // Read non-existent object
    assert_eq!(storage.read_object(&pool1, &obj3).unwrap(), None);
    assert_eq!(storage.read_part(&pool1, &obj3, 3, 2).unwrap(), None);
}

#[test]
fn test_memstore_common() {
    let storage = MemStore::default();
    test_backend(storage);
}

#[test]
fn deleted_object_is_gone_and_delete_is_idempotent() {
    let mut storage = MemStore::new();
    let pool = PoolName("p".to_owned());
    let other_pool = PoolName("q".to_owned());
    let id = ObjectId(b"o".to_vec());
    storage.write_object(&pool, &id, b"data").unwrap();
    storage.write_object(&other_pool, &id, b"elsewhere").unwrap();
    storage.delete_object(&pool, &id).unwrap();
    assert_eq!(storage.read_object(&pool, &id).unwrap(), None);
    assert_eq!(storage.read_part(&pool, &id, 0, 10).unwrap(), None);
    storage.delete_object(&pool, &id).unwrap();
    assert_eq!(storage.read_object(&pool, &id).unwrap(), None);
    // The object of the same name in another pool is untouched.
    assert_eq!(
        storage.read_object(&other_pool, &id).unwrap(),
        Some(b"elsewhere".to_vec())
    );
}

#[test]
fn write_replaces_the_whole_object() {
    let mut storage = MemStore::new();
    let pool = PoolName("p".to_owned());
    let id = ObjectId(b"o".to_vec());
    storage.write_object(&pool, &id, b"a long value").unwrap();
    storage.write_object(&pool, &id, b"short").unwrap();
    assert_eq!(storage.read_object(&pool, &id).unwrap(), Some(b"short".to_vec()));
    storage.write_object(&pool, &id, b"").unwrap();
    assert_eq!(storage.read_object(&pool, &id).unwrap(), Some(vec![]));
}

#[test]
fn parts_are_cut_where_the_object_ends() {
    assert_eq!(read_part_of(b"hello world!", 4, 20), b"o world!");
    assert_eq!(read_part_of(b"hello", 0, 0), b"");
    assert_eq!(read_part_of(b"hello", 5, 1), b"");
    assert_eq!(read_part_of(b"hello", 1, 3), b"ell");
    assert_eq!(read_part_of(b"hello", usize::MAX, usize::MAX), b"");
    assert_eq!(read_part_of(b"hello", 2, usize::MAX), b"llo");
}

#[test]
fn writes_past_the_end_fill_with_zeros() {
    let mut object = Vec::new();
    write_part_into(&mut object, 5, b"hi");
    assert_eq!(object, b"\0\0\0\0\0hi");
    write_part_into(&mut object, 9, b"!");
    assert_eq!(object, b"\0\0\0\0\0hi\0\0!");
    write_part_into(&mut object, 0, b"abc");
    assert_eq!(object, b"abc\0\0hi\0\0!");
    write_part_into(&mut object, 3, b"");
    assert_eq!(object, b"abc\0\0hi\0\0!");
    write_part_into(&mut object, 12, b"");
    assert_eq!(object, b"abc\0\0hi\0\0!\0\0");
}
