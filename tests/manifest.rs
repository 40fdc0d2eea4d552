use envy::error::ErrorKind;
use envy::manifest::Manifest;

fn manifest_of(pairs: &[(&str, &str)]) -> Manifest {
    let mut m = Manifest::new();
    for (p, a) in pairs {
        m.insert(p.to_string(), a.to_string());
    }
    m
}

#[test]
fn new_manifest_is_empty() {
    let m = Manifest::new();
    assert_eq!(m.len(), 0);
    assert!(m.entries().is_empty());
}

#[test]
fn fingerprint_ignores_insertion_order() {
    let a = manifest_of(&[("a.env", "hashA"), ("b/.env", "hashB"), ("c.env", "hashC")]);
    let b = manifest_of(&[("c.env", "hashC"), ("a.env", "hashA"), ("b/.env", "hashB")]);
    assert_eq!(a.content_fingerprint(), b.content_fingerprint());
    assert_eq!(a.encode(), b.encode());
}

#[test]
fn fingerprint_changes_with_path_or_hash() {
    let base = manifest_of(&[("a.env", "hashA"), ("b.env", "hashB")]);
    let other_hash = manifest_of(&[("a.env", "hashA"), ("b.env", "hashX")]);
    let other_path = manifest_of(&[("a.env", "hashA"), ("c.env", "hashB")]);
    assert_ne!(base.content_fingerprint(), other_hash.content_fingerprint());
    assert_ne!(base.content_fingerprint(), other_path.content_fingerprint());
    assert_eq!(base.content_fingerprint().len(), 64);
}

#[test]
fn entries_are_sorted_and_replaced() {
    let mut m = manifest_of(&[("z.env", "1"), ("a.env", "2"), ("m.env", "3")]);
    m.insert("m.env".to_string(), "4".to_string());
    let e = m.entries();
    let paths: Vec<&str> = e.iter().map(|(p, _)| p.as_str()).collect();
    assert_eq!(paths, vec!["a.env", "m.env", "z.env"]);
    assert_eq!(m.get(&"m.env".to_string()), Some("4".to_string()));
    assert_eq!(m.blob_addresses(), vec!["2".to_string(), "4".to_string(), "1".to_string()]);
}

#[test]
fn remove_tracks_presence() {
    let mut m = manifest_of(&[("a.env", "1"), ("b.env", "2")]);
    assert!(m.remove(&"a.env".to_string()));
    assert!(!m.remove(&"a.env".to_string()));
    assert_eq!(m.get(&"a.env".to_string()), None);
    assert_eq!(m.len(), 1);
}

#[test]
fn encode_decode_round_trip() {
    let m = manifest_of(&[("dir/é.env", "hash1"), ("a.env", "hash2")]);
    let bytes = m.encode();
    assert_eq!(bytes[0], 1);
    let back = Manifest::decode(&bytes).unwrap();
    assert_eq!(back.entries(), m.entries());
    assert_eq!(back.content_fingerprint(), m.content_fingerprint());
}

#[test]
fn decode_rejects_bad_input() {
    let m = manifest_of(&[("a.env", "1")]);
    let mut bytes = m.encode();
    assert_eq!(Manifest::decode(&[]).err(), Some(ErrorKind::MalformedData));
    bytes[0] = 2;
    assert_eq!(Manifest::decode(&bytes).err(), Some(ErrorKind::VersionError));
    bytes[0] = 1;
    bytes.push(0);
    assert_eq!(Manifest::decode(&bytes).err(), Some(ErrorKind::MalformedData));
    bytes.pop();
    bytes.pop();
    assert_eq!(Manifest::decode(&bytes).err(), Some(ErrorKind::MalformedData));
}

#[test]
fn decode_rejects_unsorted_paths() {
    let mut bytes = vec![1u8];
    bytes.extend_from_slice(&2u64.to_le_bytes());
    for (p, a) in [("b", "1"), ("a", "2")] {
        bytes.extend_from_slice(&(p.len() as u64).to_le_bytes());
        bytes.extend_from_slice(p.as_bytes());
        bytes.extend_from_slice(&(a.len() as u64).to_le_bytes());
        bytes.extend_from_slice(a.as_bytes());
    }
    assert_eq!(Manifest::decode(&bytes).err(), Some(ErrorKind::MalformedData));
}
