//! Project-key derivation and the session cache.
//!
//! The project key is derived from a passphrase and the project id with the
//! format's Argon2id parameters. So that the passphrase is not asked for on
//! every command, the key is kept in a session: sealed under a secret of the
//! machine, bound by associated data to `project_id:expires_at`, and valid
//! for fifteen minutes from its last use.
use crate::envelope::{
    kdf_of, open_key_blob, opened_with_key, opens_with_key, seal_key_blob, seals_with_key, utf8_of,
    KDF_ITERATIONS, KDF_MEMORY_KIB, KDF_PARALLELISM, KEY_LEN, NONCE_LEN, PAYLOAD_LIMIT,
};
use crate::error::ErrorKind;
use crate::codec::{concat_str, decimal, decimal_of};
use crate::primitives::{aead_msg_ok, argon2id, random_bytes, sha256, sha256_of, wipe};
use vstd::prelude::*;
use vstd::slice::slice_to_vec;

verus! {

/// How long a session stays valid after it is saved, in seconds.
pub const SESSION_TTL_SECS: u64 = 900;

/// Length of the machine secret.
pub const MACHINE_SECRET_LEN: usize = 32;

/// The salt of a project's key: the first 16 bytes of the SHA-256 of its id.
pub open spec fn project_salt(project_id: Seq<char>) -> Seq<u8> {
    sha256_of(utf8_of(project_id)).subrange(0, 16)
}

/// The project key for a passphrase and a project.
pub open spec fn project_key_of(passphrase: Seq<char>, project_id: Seq<char>) -> Seq<u8> {
    kdf_of(utf8_of(passphrase), project_salt(project_id))
}

/// Derives the 256-bit project key from a passphrase and the project id.
/// The copy of the passphrase is zeroed before returning.
pub fn derive_manifest_key_from_passphrase(passphrase: &str, project_id: &str) -> (r: Vec<u8>)
    requires
        utf8_of(passphrase@).len() <= 0xffff_ffff,
    ensures
        r@ == project_key_of(passphrase@, project_id@),
        r@.len() == KEY_LEN,
{
    let digest = sha256(project_id.as_bytes());
    let salt = slice_to_vec(&digest.as_slice()[0..16]);
    let mut pass = slice_to_vec(passphrase.as_bytes());
    let key = argon2id(
        pass.as_slice(),
        salt.as_slice(),
        KDF_MEMORY_KIB,
        KDF_ITERATIONS,
        KDF_PARALLELISM,
        KEY_LEN,
    );
    wipe(&mut pass);
    assert(salt@ =~= project_salt(project_id@));
    key
}

/// The machine-local secret that seals sessions: 32 bytes.
pub struct MachineSecret {
    key: Vec<u8>,
}

impl View for MachineSecret {
    type V = Seq<u8>;

    closed spec fn view(&self) -> Seq<u8> {
        self.key@
    }
}

impl MachineSecret {
    pub closed spec fn wf(&self) -> bool {
        self.key@.len() == MACHINE_SECRET_LEN
    }

    /// A secret from its stored bytes, which must be exactly 32.
    pub fn from_bytes(bytes: Vec<u8>) -> (r: Option<MachineSecret>)
        ensures
            bytes@.len() == MACHINE_SECRET_LEN ==> (r matches Some(s) && s.wf() && s@ == bytes@),
            bytes@.len() != MACHINE_SECRET_LEN ==> r is None,
    {
        if bytes.len() == MACHINE_SECRET_LEN {
            Some(MachineSecret { key: bytes })
        } else {
            None
        }
    }

    /// A fresh secret from the system's random number generator.
    pub fn generate() -> (r: Result<MachineSecret, ErrorKind>)
        ensures
            r matches Ok(s) ==> s.wf(),
            r matches Err(e) ==> e == ErrorKind::EntropyUnavailable,
    {
        match random_bytes(MACHINE_SECRET_LEN) {
            Some(b) => Ok(MachineSecret { key: b }),
            None => Err(ErrorKind::EntropyUnavailable),
        }
    }

    /// The secret's bytes, to be stored with owner-only permissions.
    pub fn as_bytes(&self) -> (r: &[u8])
        ensures
            r@ == self@,
    {
        self.key.as_slice()
    }
}

/// A cached project key: sealed under the machine secret, valid until
/// `expires_at` (Unix seconds).
#[derive(Debug, Clone)]
pub struct Session {
    pub project_id: String,
    pub encrypted_manifest_key: Vec<u8>,
    pub expires_at: u64,
}

pub struct SessionV {
    pub project_id: Seq<char>,
    pub encrypted_manifest_key: Seq<u8>,
    pub expires_at: u64,
}

impl View for Session {
    type V = SessionV;

    open spec fn view(&self) -> SessionV {
        SessionV {
            project_id: self.project_id@,
            encrypted_manifest_key: self.encrypted_manifest_key@,
            expires_at: self.expires_at,
        }
    }
}

/// The associated data that binds a sealed key to its project and expiry.
pub open spec fn session_aad(project_id: Seq<char>, expires_at: u64) -> Seq<u8> {
    utf8_of(project_id + ":"@ + decimal_of(expires_at as nat))
}

/// When a session saved at `now` expires.
pub open spec fn expiry_after(now: u64) -> u64 {
    if now <= u64::MAX - SESSION_TTL_SECS {
        (now + SESSION_TTL_SECS) as u64
    } else {
        u64::MAX
    }
}

/// The session a sequence of entries holds for `project_id`: the last one
/// saved for it.
pub open spec fn session_for(s: Seq<SessionV>, project_id: Seq<char>) -> Option<SessionV>
    decreases s.len(),
{
    if s.len() == 0 {
        None
    } else if s.last().project_id == project_id {
        Some(s.last())
    } else {
        session_for(s.drop_last(), project_id)
    }
}

pub open spec fn sessions_view(v: Seq<Session>) -> Seq<SessionV> {
    v.map_values(|s: Session| s@)
}

/// The sessions of this machine, by project.
pub struct SessionStore {
    sessions: Vec<Session>,
}

impl View for SessionStore {
    type V = Seq<SessionV>;

    closed spec fn view(&self) -> Seq<SessionV> {
        sessions_view(self.sessions@)
    }
}

impl SessionStore {
    /// The session held for `project_id`.
    pub open spec fn get(&self, project_id: Seq<char>) -> Option<SessionV> {
        session_for(self@, project_id)
    }

    /// A store without sessions.
    pub fn new() -> (r: SessionStore)
        ensures
            forall|p: Seq<char>| r.get(p) is None,
    {
        let r = SessionStore { sessions: Vec::new() };
        assert(r@ =~= Seq::<SessionV>::empty());
        r
    }

    /// Takes a session as read from storage, in place of any held for its project.
    pub fn insert(&mut self, session: Session)
        ensures
            session_for(final(self)@, session.project_id@) == Some(session@),
            forall|p: Seq<char>| p != session.project_id@ ==> #[trigger] session_for(final(self)@, p) == session_for(old(self)@, p),
    {
        let ghost pid = session.project_id@;
        let ghost v = session@;
        clear_session(self, &session.project_id);
        let ghost mid = self@;
        self.sessions.push(session);
        proof {
            assert(self@ =~= mid.push(v));
            assert(self@.drop_last() =~= mid);
            assert forall|p: Seq<char>| p != pid implies #[trigger] session_for(self@, p) == session_for(mid, p) by {
                assert(self@.last() == v);
            }
        }
    }

    /// The sessions held, oldest first, to be written back to storage.
    pub fn sessions(&self) -> (r: &Vec<Session>)
        ensures
            sessions_view(r@) == self@,
    {
        &self.sessions
    }
}

fn copy_session(s: &Session) -> (r: Session)
    ensures
        r@ == s@,
{
    Session {
        project_id: s.project_id.clone(),
        encrypted_manifest_key: slice_to_vec(s.encrypted_manifest_key.as_slice()),
        expires_at: s.expires_at,
    }
}

/// Drops any session held for `project_id`.
pub fn clear_session(store: &mut SessionStore, project_id: &String)
    ensures
        session_for(final(store)@, project_id@) is None,
        forall|p: Seq<char>| p != project_id@ ==> #[trigger] session_for(final(store)@, p) == session_for(old(store)@, p),
{
    let ghost s = store@;
    let mut kept: Vec<Session> = Vec::new();
    let mut i: usize = 0;
    assert(sessions_view(kept@) =~= Seq::<SessionV>::empty());
    while i < store.sessions.len()
        invariant
            i <= store.sessions@.len(),
            s == sessions_view(store.sessions@),
            session_for(sessions_view(kept@), project_id@) is None,
            forall|p: Seq<char>|
                p != project_id@ ==> #[trigger] session_for(sessions_view(kept@), p)
                    == session_for(s.subrange(0, i as int), p),
        decreases store.sessions@.len() - i,
    {
        let ghost before = sessions_view(kept@);
        let ghost t = s.subrange(0, i + 1);
        proof {
            assert(t.drop_last() =~= s.subrange(0, i as int));
            assert(t.last() == store.sessions@[i as int]@);
        }
        if store.sessions[i].project_id != *project_id {
            let e = copy_session(&store.sessions[i]);
            let ghost ev = store.sessions@[i as int]@;
            kept.push(e);
            proof {
                assert(sessions_view(kept@) =~= before.push(ev));
                assert(sessions_view(kept@).drop_last() =~= before);
                assert(sessions_view(kept@).last() == ev);
                assert(ev.project_id != project_id@);
                assert(t.last() == ev);
                assert forall|p: Seq<char>| p != project_id@ implies #[trigger] session_for(sessions_view(kept@), p)
                    == session_for(t, p) by {
                    if p != ev.project_id {
                        assert(session_for(sessions_view(kept@), p) == session_for(before, p));
                    }
                }
            }
        } else {
            proof {
                assert forall|p: Seq<char>| p != project_id@ implies #[trigger] session_for(sessions_view(kept@), p)
                    == session_for(t, p) by {
                    assert(t.last().project_id == project_id@);
                }
            }
        }
        i = i + 1;
    }
    proof {
        assert(s.subrange(0, i as int) =~= s);
    }
    store.sessions = kept;
}

impl SessionStore {
    /// A copy of the session held for `project_id`.
    pub fn lookup(&self, project_id: &String) -> (r: Option<Session>)
        ensures
            match session_for(self@, project_id@) {
                None => r is None,
                Some(v) => r matches Some(s) && s@ == v,
            },
    {
        let mut i: usize = self.sessions.len();
        assert(self@.subrange(0, i as int) =~= self@);
        while i > 0
            invariant
                i <= self.sessions@.len(),
                self@ == sessions_view(self.sessions@),
                session_for(self@, project_id@) == session_for(self@.subrange(0, i as int), project_id@),
            decreases i,
        {
            let ghost t = self@.subrange(0, i as int);
            proof {
                assert(t.drop_last() =~= self@.subrange(0, i - 1));
                assert(t.last() == self.sessions@[i - 1]@);
            }
            if self.sessions[i - 1].project_id == *project_id {
                return Some(copy_session(&self.sessions[i - 1]));
            }
            i = i - 1;
        }
        None
    }
}

/// The associated data for a session, as bytes.
fn session_aad_bytes(project_id: &str, expires_at: u64) -> (r: Vec<u8>)
    ensures
        r@ == session_aad(project_id@, expires_at),
{
    let head = concat_str(project_id, ":");
    let digits = decimal(expires_at);
    let full = concat_str(head.as_str(), digits.as_str());
    slice_to_vec(full.as_str().as_bytes())
}

/// Saves `key` as the session of `project_id`, sealed under the machine
/// secret with a fresh nonce, to expire `SESSION_TTL_SECS` after `now`.
pub fn save_session(
    store: &mut SessionStore,
    secret: &MachineSecret,
    project_id: &String,
    key: &[u8],
    now: u64,
) -> (r: Result<(), ErrorKind>)
    requires
        secret.wf(),
    ensures
        match r {
            Ok(()) => {
                &&& aead_msg_ok(key@.len())
                &&& session_for(final(store)@, project_id@) matches Some(v) && {
                    &&& v.project_id == project_id@
                    &&& v.expires_at == expiry_after(now)
                    &&& seals_with_key(
                        v.encrypted_manifest_key,
                        secret@,
                        session_aad(project_id@, v.expires_at),
                        key@,
                    )
                }
                &&& forall|p: Seq<char>| p != project_id@ ==> #[trigger] session_for(final(store)@, p)
                    == session_for(old(store)@, p)
            },
            Err(e) => final(store)@ == old(store)@ && (e == ErrorKind::EntropyUnavailable || e
                == ErrorKind::PayloadTooLarge),
        },
        !aead_msg_ok(key@.len()) ==> r == Err::<(), ErrorKind>(ErrorKind::PayloadTooLarge),
        aead_msg_ok(key@.len()) && r is Err ==> r == Err::<(), ErrorKind>(ErrorKind::EntropyUnavailable),
{
    if key.len() as u64 >= PAYLOAD_LIMIT {
        return Err(ErrorKind::PayloadTooLarge);
    }
    let expires_at = if now <= u64::MAX - SESSION_TTL_SECS {
        now + SESSION_TTL_SECS
    } else {
        u64::MAX
    };
    let nonce = match random_bytes(NONCE_LEN) {
        Some(n) => n,
        None => return Err(ErrorKind::EntropyUnavailable),
    };
    let aad = session_aad_bytes(project_id.as_str(), expires_at);
    let blob = seal_key_blob(key, secret.as_bytes(), nonce.as_slice(), aad.as_slice());
    proof {
        crate::envelope::lemma_key_blob_seals(secret@, nonce@, aad@, key@);
    }
    store.insert(Session { project_id: project_id.clone(), encrypted_manifest_key: blob, expires_at });
    Ok(())
}

/// Looks up the session of `project_id` at time `now` and opens its key.
/// An expired session, or one that does not open, is removed and treated
/// as absent. The session returned carries the opened key.
pub fn load_session(store: &mut SessionStore, secret: &MachineSecret, project_id: &String, now: u64) -> (r: Option<Session>)
    requires
        secret.wf(),
    ensures
        match session_for(old(store)@, project_id@) {
            None => r is None && final(store)@ == old(store)@,
            Some(v) => if v.expires_at < now {
                &&& r is None
                &&& session_for(final(store)@, project_id@) is None
                &&& forall|p: Seq<char>| p != project_id@ ==> #[trigger] session_for(final(store)@, p)
                    == session_for(old(store)@, p)
            } else {
                match opened_with_key(v.encrypted_manifest_key, secret@, session_aad(project_id@, v.expires_at)) {
                    Ok(k) => {
                        &&& r matches Some(s) && s.project_id@ == project_id@
                            && s.encrypted_manifest_key@ == k && s.expires_at == v.expires_at
                        &&& opens_with_key(
                            v.encrypted_manifest_key,
                            secret@,
                            session_aad(project_id@, v.expires_at),
                            Ok::<Seq<u8>, ErrorKind>(k),
                        )
                        &&& final(store)@ == old(store)@
                    },
                    Err(_) => {
                        &&& r is None
                        &&& session_for(final(store)@, project_id@) is None
                        &&& forall|p: Seq<char>| p != project_id@ ==> #[trigger] session_for(final(store)@, p)
                            == session_for(old(store)@, p)
                    },
                }
            },
        },
{
    let s = match store.lookup(project_id) {
        None => return None,
        Some(s) => s,
    };
    if s.expires_at < now {
        clear_session(store, project_id);
        return None;
    }
    let aad = session_aad_bytes(project_id.as_str(), s.expires_at);
    match open_key_blob(s.encrypted_manifest_key.as_slice(), secret.as_bytes(), aad.as_slice()) {
        Ok(k) => Some(Session { project_id: project_id.clone(), encrypted_manifest_key: k, expires_at: s.expires_at }),
        Err(_) => {
            clear_session(store, project_id);
            None
        },
    }
}

/// The project key from a live session of `project_id`, if there is one.
/// Using a session renews it: it is saved again to expire
/// `SESSION_TTL_SECS` after `now`. Expired or unreadable sessions are
/// removed.
pub fn cached_project_key(store: &mut SessionStore, secret: &MachineSecret, project_id: &String, now: u64) -> (r: Option<Vec<u8>>)
    requires
        secret.wf(),
    ensures
        match session_for(old(store)@, project_id@) {
            None => r is None,
            Some(v) => if v.expires_at < now {
                r is None && session_for(final(store)@, project_id@) is None
            } else {
                match opened_with_key(v.encrypted_manifest_key, secret@, session_aad(project_id@, v.expires_at)) {
                    Ok(k) => if k.len() == KEY_LEN {
                        &&& r matches Some(key) && key@ == k
                        &&& opens_with_key(
                            v.encrypted_manifest_key,
                            secret@,
                            session_aad(project_id@, v.expires_at),
                            Ok::<Seq<u8>, ErrorKind>(k),
                        )
                        &&& session_for(final(store)@, project_id@) matches Some(renewed) && (renewed
                            == v || {
                            &&& renewed.project_id == project_id@
                            &&& renewed.expires_at == expiry_after(now)
                            &&& seals_with_key(
                                renewed.encrypted_manifest_key,
                                secret@,
                                session_aad(project_id@, renewed.expires_at),
                                k,
                            )
                        })
                    } else {
                        r is None && session_for(final(store)@, project_id@) is None
                    },
                    Err(_) => r is None && session_for(final(store)@, project_id@) is None,
                }
            },
        },
        forall|p: Seq<char>| p != project_id@ ==> #[trigger] session_for(final(store)@, p)
            == session_for(old(store)@, p),
{
    let s = match load_session(store, secret, project_id, now) {
        None => return None,
        Some(s) => s,
    };
    if s.encrypted_manifest_key.len() != KEY_LEN {
        clear_session(store, project_id);
        return None;
    }
    let _ = save_session(store, secret, project_id, s.encrypted_manifest_key.as_slice(), now);
    Some(s.encrypted_manifest_key)
}

/// Derives the project key from `passphrase` and saves it as the session of
/// `project_id`.
pub fn derive_and_remember(
    store: &mut SessionStore,
    secret: &MachineSecret,
    project_id: &String,
    passphrase: &str,
    now: u64,
) -> (r: Result<Vec<u8>, ErrorKind>)
    requires
        secret.wf(),
        utf8_of(passphrase@).len() <= 0xffff_ffff,
    ensures
        match r {
            Ok(k) => {
                &&& k@ == project_key_of(passphrase@, project_id@)
                &&& session_for(final(store)@, project_id@) matches Some(v) && {
                    &&& v.expires_at == expiry_after(now)
                    &&& seals_with_key(
                        v.encrypted_manifest_key,
                        secret@,
                        session_aad(project_id@, v.expires_at),
                        k@,
                    )
                }
            },
            Err(e) => e == ErrorKind::EntropyUnavailable && final(store)@ == old(store)@,
        },
        forall|p: Seq<char>| p != project_id@ ==> #[trigger] session_for(final(store)@, p)
            == session_for(old(store)@, p),
{
    let key = derive_manifest_key_from_passphrase(passphrase, project_id.as_str());
    match save_session(store, secret, project_id, key.as_slice(), now) {
        Ok(()) => Ok(key),
        Err(e) => Err(e),
    }
}

/// Saving a key in a session and opening that session gives the key back:
/// whatever result the contract of `load_session` allows for a session that
/// `save_session` sealed from `key` is `key`.
pub proof fn lemma_session_round_trip(
    blob: Seq<u8>,
    secret: Seq<u8>,
    project_id: Seq<char>,
    expires_at: u64,
    key: Seq<u8>,
    opened: Seq<u8>,
)
    requires
        aead_msg_ok(key.len()),
        seals_with_key(blob, secret, session_aad(project_id, expires_at), key),
        opens_with_key(blob, secret, session_aad(project_id, expires_at), Ok::<Seq<u8>, ErrorKind>(opened)),
    ensures
        opened == key,
{
}

} // verus!
