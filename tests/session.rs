use envy::session::{
    cached_project_key, clear_session, derive_and_remember, derive_manifest_key_from_passphrase,
    load_session, save_session, MachineSecret, Session, SessionStore, SESSION_TTL_SECS,
};

fn secret() -> MachineSecret {
    MachineSecret::from_bytes(vec![42u8; 32]).unwrap()
}

fn pid() -> String {
    "project-1".to_string()
}

#[test]
fn machine_secret_length() {
    assert!(MachineSecret::from_bytes(vec![0u8; 31]).is_none());
    let s = MachineSecret::generate().unwrap();
    assert_eq!(s.as_bytes().len(), 32);
}

#[test]
fn project_key_is_deterministic_per_project() {
    let a = derive_manifest_key_from_passphrase("pass phrase", "alpha");
    let b = derive_manifest_key_from_passphrase("pass phrase", "alpha");
    let c = derive_manifest_key_from_passphrase("pass phrase", "beta");
    assert_eq!(a.len(), 32);
    assert_eq!(a, b);
    assert_ne!(a, c);
}

#[test]
fn saved_session_opens_until_expiry() {
    let mut store = SessionStore::new();
    let key = vec![7u8; 32];
    save_session(&mut store, &secret(), &pid(), &key, 1000).unwrap();
    let s = store.lookup(&pid()).unwrap();
    assert_eq!(s.expires_at, 1000 + SESSION_TTL_SECS);
    assert_ne!(s.encrypted_manifest_key, key);
    let opened = load_session(&mut store, &secret(), &pid(), 1000 + SESSION_TTL_SECS).unwrap();
    assert_eq!(opened.encrypted_manifest_key, key);
}

#[test]
fn expired_session_is_removed() {
    let mut store = SessionStore::new();
    save_session(&mut store, &secret(), &pid(), &[7u8; 32], 1000).unwrap();
    assert!(cached_project_key(&mut store, &secret(), &pid(), 1000 + SESSION_TTL_SECS + 1).is_none());
    assert!(store.lookup(&pid()).is_none());
}

#[test]
fn use_renews_session() {
    let mut store = SessionStore::new();
    save_session(&mut store, &secret(), &pid(), &[7u8; 32], 1000).unwrap();
    let k = cached_project_key(&mut store, &secret(), &pid(), 1500).unwrap();
    assert_eq!(k, vec![7u8; 32]);
    assert_eq!(store.lookup(&pid()).unwrap().expires_at, 1500 + SESSION_TTL_SECS);
}

#[test]
fn tampered_session_is_removed() {
    let mut store = SessionStore::new();
    save_session(&mut store, &secret(), &pid(), &[7u8; 32], 1000).unwrap();
    let mut s = store.lookup(&pid()).unwrap();
    s.expires_at += 60;
    store.insert(s);
    assert!(load_session(&mut store, &secret(), &pid(), 1000).is_none());
    assert!(store.lookup(&pid()).is_none());
}

#[test]
fn other_machine_secret_cannot_open() {
    let mut store = SessionStore::new();
    save_session(&mut store, &secret(), &pid(), &[7u8; 32], 1000).unwrap();
    let other = MachineSecret::from_bytes(vec![1u8; 32]).unwrap();
    assert!(cached_project_key(&mut store, &other, &pid(), 1000).is_none());
    assert!(store.lookup(&pid()).is_none());
}

#[test]
fn clear_only_touches_one_project() {
    let mut store = SessionStore::new();
    save_session(&mut store, &secret(), &pid(), &[1u8; 32], 10).unwrap();
    save_session(&mut store, &secret(), &"other".to_string(), &[2u8; 32], 10).unwrap();
    clear_session(&mut store, &pid());
    assert!(store.lookup(&pid()).is_none());
    assert_eq!(cached_project_key(&mut store, &secret(), &"other".to_string(), 10), Some(vec![2u8; 32]));
    assert_eq!(store.sessions().len(), 1);
}

#[test]
fn derive_then_cached() {
    let mut store = SessionStore::new();
    let k = derive_and_remember(&mut store, &secret(), &pid(), "hunter2", 50).unwrap();
    assert_eq!(cached_project_key(&mut store, &secret(), &pid(), 60), Some(k));
}

#[test]
fn insert_replaces_session() {
    let mut store = SessionStore::new();
    store.insert(Session { project_id: pid(), encrypted_manifest_key: vec![1], expires_at: 5 });
    store.insert(Session { project_id: pid(), encrypted_manifest_key: vec![2], expires_at: 6 });
    assert_eq!(store.sessions().len(), 1);
    assert_eq!(store.lookup(&pid()).unwrap().expires_at, 6);
}
