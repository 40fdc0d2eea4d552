use envy::error::ErrorKind;
use envy::store::{address, BlobStore};

#[test]
fn address_is_hex_sha256() {
    assert_eq!(
        address(b"abc"),
        "ba7816bf8f01cfea414140de5dae2223b00361a396177a9cb410ff61f20015ad"
    );
    assert_eq!(
        address(b""),
        "e3b0c44298fc1c149afbf4c8996fb92427ae41e4649b934ca495991b7852b855"
    );
}

#[test]
fn put_then_get_verified() {
    let mut s = BlobStore::new();
    let b = b"sealed bytes".to_vec();
    let a = s.put(b.clone());
    assert_eq!(a, address(&b));
    assert!(s.contains(&a));
    assert_eq!(s.get_verified(&a).unwrap(), b);
}

#[test]
fn storing_twice_keeps_one_copy() {
    let mut s = BlobStore::new();
    let a1 = s.put(b"x".to_vec());
    let a2 = s.put(b"x".to_vec());
    assert_eq!(a1, a2);
    assert_eq!(s.len(), 1);
    s.put(b"y".to_vec());
    assert_eq!(s.len(), 2);
    assert_eq!(s.addresses().len(), 2);
}

#[test]
fn missing_blob_is_not_found() {
    let s = BlobStore::new();
    let a = address(b"nothing");
    assert!(!s.contains(&a));
    assert_eq!(s.get_verified(&a), Err(ErrorKind::NotFoundError));
    assert!(s.get(&a).is_none());
}

#[test]
fn corrupted_entry_is_integrity_error() {
    let mut s = BlobStore::new();
    let a = address(b"original");
    s.load_entry(a.clone(), b"corrupted".to_vec());
    assert_eq!(s.get_verified(&a), Err(ErrorKind::IntegrityError));
    assert_eq!(s.get(&a).unwrap(), &b"corrupted".to_vec());
}

#[test]
fn insert_verified_checks_hash() {
    let mut s = BlobStore::new();
    let a = address(b"payload");
    assert_eq!(s.insert_verified(&a, b"other".to_vec()), Err(ErrorKind::IntegrityError));
    assert!(!s.contains(&a));
    assert_eq!(s.insert_verified(&a, b"payload".to_vec()), Ok(()));
    assert_eq!(s.get_verified(&a).unwrap(), b"payload".to_vec());
}
