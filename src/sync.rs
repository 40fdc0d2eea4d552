//! Committing, status, and the push and pull protocols.
//!
//! The network is not touched here. Push is planned from the local state
//! and the remote HEAD the caller fetched; the caller uploads what the plan
//! lists, attempts the compare-and-swap of the remote HEAD, and reports the
//! answer back. Pull is driven the same way: the library says which commit
//! or blob to fetch next, checks what the caller brings back, and moves the
//! refs only once everything they point to is stored.
use crate::codec::{clone_opt, opt_view, same_opt};
use crate::commit::{commit_bytes, Commit, CommitV, COMMIT_VERSION};
use crate::primitives::aead_msg_ok;
use crate::envelope::{decrypt_bytes_with_key, encrypt_bytes_with_key, opened_with_key, seals_with_key, KEY_LEN};
use crate::error::ErrorKind;
use crate::manifest::{fingerprint_of, manifest_bytes, Manifest, MANIFEST_VERSION};
use crate::primitives::unix_now;
use crate::commit::decoded_commit;
use crate::repo::{ahead, chain, stored_commit, stored_manifest, walk_bound, CommitOutcome, Repo};
use crate::store::{address, address_of};
use vstd::prelude::*;

verus! {

/// The tracked files as they now are: the manifest `latest` points to, or
/// none at all.
pub open spec fn working_manifest(r: Repo, key: Seq<u8>) -> Result<Seq<(Seq<char>, Seq<char>)>, ErrorKind> {
    match r.latest {
        None => Ok(Seq::empty()),
        Some(l) => stored_manifest(r.blobs@, key, l@),
    }
}

/// The manifest of the commit at HEAD, when both load.
pub open spec fn head_manifest(r: Repo, key: Seq<u8>) -> Option<Seq<(Seq<char>, Seq<char>)>> {
    match r.head {
        None => None,
        Some(h) => match stored_commit(r.commits@, key, h@) {
            Ok(c) => match stored_manifest(r.blobs@, key, c.manifest_hash) {
                Ok(s) => Some(s),
                Err(_) => None,
            },
            Err(_) => None,
        },
    }
}

pub open spec fn head_fingerprint(r: Repo, key: Seq<u8>) -> Option<Seq<char>> {
    match head_manifest(r, key) {
        Some(s) => Some(fingerprint_of(s)),
        None => None,
    }
}

/// `store` holds, under `a`, a blob addressed by its content that seals `p`.
pub open spec fn holds_sealed(store: Map<Seq<char>, Seq<u8>>, a: Seq<char>, key: Seq<u8>, p: Seq<u8>) -> bool {
    &&& store.contains_key(a)
    &&& a == address_of(store[a])
    &&& seals_with_key(store[a], key, seq![], p)
}

/// Why sealing `plain` may fail: it is too long for the cipher, or, when it
/// is not, the random number generator could not give a nonce.
pub open spec fn sealing_failed(e: ErrorKind, plain: Seq<u8>) -> bool {
    if aead_msg_ok(plain.len()) {
        e == ErrorKind::EntropyUnavailable
    } else {
        e == ErrorKind::PayloadTooLarge
    }
}

/// The state after a commit of working files `w` at address `a`.
pub open spec fn committed(
    old: Repo,
    new: Repo,
    key: Seq<u8>,
    w: Seq<(Seq<char>, Seq<char>)>,
    message: Seq<char>,
    author: Option<Seq<char>>,
    timestamp: u64,
    a: Seq<char>,
) -> bool {
    &&& opt_view(new.head) == Some(a)
    &&& new.remote_head == old.remote_head
    &&& new.applied == old.applied
    &&& new.latest matches Some(m) && {
        &&& holds_sealed(new.blobs@, m@, key, manifest_bytes(MANIFEST_VERSION, w))
        &&& new.blobs@ == old.blobs@.insert(m@, new.blobs@[m@])
        &&& holds_sealed(
            new.commits@,
            a,
            key,
            commit_bytes(
                CommitV {
                    version: COMMIT_VERSION,
                    parent: opt_view(old.head),
                    timestamp,
                    message,
                    manifest_hash: m@,
                    author,
                },
            ),
        )
        &&& new.commits@ == old.commits@.insert(a, new.commits@[a])
        &&& stored_manifest(new.blobs@, key, m@) == Ok::<Seq<(Seq<char>, Seq<char>)>, ErrorKind>(w)
        &&& stored_commit(new.commits@, key, a) == Ok::<CommitV, ErrorKind>(
            CommitV {
                version: COMMIT_VERSION,
                parent: opt_view(old.head),
                timestamp,
                message,
                manifest_hash: m@,
                author,
            },
        )
    }
}

/// The state after a commit of working files `w` failed with `e`: either
/// sealing the manifest failed and nothing changed, or the manifest was
/// saved (and `latest` points to it) and sealing the commit failed. HEAD
/// does not move either way.
pub open spec fn commit_failed(
    old: Repo,
    new: Repo,
    key: Seq<u8>,
    w: Seq<(Seq<char>, Seq<char>)>,
    message: Seq<char>,
    author: Option<Seq<char>>,
    timestamp: u64,
    e: ErrorKind,
) -> bool {
    ||| new == old && sealing_failed(e, manifest_bytes(MANIFEST_VERSION, w))
    ||| {
        &&& aead_msg_ok(manifest_bytes(MANIFEST_VERSION, w).len())
        &&& new.head == old.head
        &&& new.remote_head == old.remote_head
        &&& new.applied == old.applied
        &&& new.commits == old.commits
        &&& new.latest matches Some(m) && {
            &&& stored_manifest(new.blobs@, key, m@) == Ok::<Seq<(Seq<char>, Seq<char>)>, ErrorKind>(w)
            &&& sealing_failed(
                e,
                commit_bytes(
                    CommitV {
                        version: COMMIT_VERSION,
                        parent: opt_view(old.head),
                        timestamp,
                        message,
                        manifest_hash: m@,
                        author,
                    },
                ),
            )
        }
    }
}

impl Repo {
    /// Seals a manifest with the project key, stores it, and points `latest`
    /// at it. The stored blob is opened once more before returning, which
    /// fixes what loading it gives.
    pub fn save_manifest(&mut self, key: &[u8], m: &Manifest) -> (r: Result<String, ErrorKind>)
        requires
            old(self).wf(),
            key@.len() == KEY_LEN,
            m.wf(),
        ensures
            final(self).wf(),
            match r {
                Ok(a) => {
                    &&& final(self).latest == Some(a)
                    &&& holds_sealed(final(self).blobs@, a@, key@, manifest_bytes(MANIFEST_VERSION, m@))
                    &&& stored_manifest(final(self).blobs@, key@, a@) == Ok::<
                        Seq<(Seq<char>, Seq<char>)>,
                        ErrorKind,
                    >(m@)
                    &&& aead_msg_ok(manifest_bytes(MANIFEST_VERSION, m@).len())
                    &&& final(self).blobs@ == old(self).blobs@.insert(a@, final(self).blobs@[a@])
                    &&& final(self).commits == old(self).commits
                    &&& final(self).head == old(self).head
                    &&& final(self).remote_head == old(self).remote_head
                    &&& final(self).applied == old(self).applied
                },
                Err(e) => *final(self) == *old(self) && sealing_failed(
                    e,
                    manifest_bytes(MANIFEST_VERSION, m@),
                ),
            },
            !aead_msg_ok(manifest_bytes(MANIFEST_VERSION, m@).len()) ==> r == Err::<String, ErrorKind>(
                ErrorKind::PayloadTooLarge,
            ),
    {
        let plain = m.encode();
        let blob = match encrypt_bytes_with_key(plain.as_slice(), key) {
            Ok(b) => b,
            Err(e) => return Err(e),
        };
        match decrypt_bytes_with_key(blob.as_slice(), key) {
            Ok(_) => {},
            Err(e) => return Err(e),
        }
        proof {
            crate::manifest::lemma_parse_manifest(m@);
        }
        let a = self.blobs.put(blob);
        self.latest = Some(a.clone());
        Ok(a)
    }

    /// Seals a commit with the project key and stores it in the commit
    /// cache. The stored blob is opened once more before returning, which
    /// fixes what loading it gives.
    pub fn save_commit(&mut self, key: &[u8], c: &Commit) -> (r: Result<String, ErrorKind>)
        requires
            old(self).wf(),
            key@.len() == KEY_LEN,
        ensures
            final(self).wf(),
            match r {
                Ok(a) => {
                    &&& holds_sealed(final(self).commits@, a@, key@, commit_bytes(c@))
                    &&& c.version == COMMIT_VERSION ==> stored_commit(final(self).commits@, key@, a@)
                        == Ok::<CommitV, ErrorKind>(c@)
                    &&& aead_msg_ok(commit_bytes(c@).len())
                    &&& final(self).commits@ == old(self).commits@.insert(a@, final(self).commits@[a@])
                    &&& final(self).blobs == old(self).blobs
                    &&& final(self).head == old(self).head
                    &&& final(self).remote_head == old(self).remote_head
                    &&& final(self).applied == old(self).applied
                    &&& final(self).latest == old(self).latest
                },
                Err(e) => *final(self) == *old(self) && sealing_failed(e, commit_bytes(c@)),
            },
            !aead_msg_ok(commit_bytes(c@).len()) ==> r == Err::<String, ErrorKind>(
                ErrorKind::PayloadTooLarge,
            ),
    {
        let plain = c.encode();
        let blob = match encrypt_bytes_with_key(plain.as_slice(), key) {
            Ok(b) => b,
            Err(e) => return Err(e),
        };
        match decrypt_bytes_with_key(blob.as_slice(), key) {
            Ok(_) => {},
            Err(e) => return Err(e),
        }
        proof {
            if c.version == COMMIT_VERSION {
                crate::commit::lemma_commit_round_trip(c@);
            }
        }
        let a = self.commits.put(blob);
        Ok(a)
    }

    /// The fingerprint of HEAD's manifest, when HEAD is set and both its
    /// commit and its manifest load.
    fn head_fingerprint(&self, key: &[u8]) -> (r: Option<String>)
        requires
            self.wf(),
            key@.len() == KEY_LEN,
        ensures
            opt_view(r) == head_fingerprint(*self, key@),
    {
        match &self.head {
            None => None,
            Some(h) => match self.load_commit(key, h) {
                Err(_) => None,
                Ok(c) => match self.load_manifest(key, &c.manifest_hash) {
                    Err(_) => None,
                    Ok(m) => Some(m.content_fingerprint()),
                },
            },
        }
    }

    /// The manifest `latest` points to, or an empty one.
    pub fn working_manifest(&self, key: &[u8]) -> (r: Result<Manifest, ErrorKind>)
        requires
            self.wf(),
            key@.len() == KEY_LEN,
        ensures
            crate::manifest::manifest_result(r) == working_manifest(*self, key@),
            r matches Ok(m) ==> m.wf(),
    {
        match &self.latest {
            None => Ok(Manifest::new()),
            Some(l) => self.load_manifest(key, l),
        }
    }
}

/// Records the tracked files as a new commit on top of HEAD, stamped with
/// `timestamp`. Nothing happens when they are those of HEAD already.
pub fn commit_with_time(
    repo: &mut Repo,
    key: &[u8],
    message: String,
    author: Option<String>,
    timestamp: u64,
) -> (r: Result<CommitOutcome, ErrorKind>)
    requires
        old(repo).wf(),
        key@.len() == KEY_LEN,
    ensures
        final(repo).wf(),
        match working_manifest(*old(repo), key@) {
            Err(e) => r == Err::<CommitOutcome, ErrorKind>(e) && *final(repo) == *old(repo),
            Ok(w) => if head_fingerprint(*old(repo), key@) == Some(fingerprint_of(w)) {
                r == Ok::<CommitOutcome, ErrorKind>(CommitOutcome::NothingToCommit) && *final(repo)
                    == *old(repo)
            } else {
                (match r {
                    Ok(CommitOutcome::Created(a)) => committed(
                        *old(repo),
                        *final(repo),
                        key@,
                        w,
                        message@,
                        opt_view(author),
                        timestamp,
                        a@,
                    ),
                    Ok(CommitOutcome::NothingToCommit) => false,
                    Err(e) => commit_failed(
                        *old(repo),
                        *final(repo),
                        key@,
                        w,
                        message@,
                        opt_view(author),
                        timestamp,
                        e,
                    ),
                }) && (!aead_msg_ok(manifest_bytes(MANIFEST_VERSION, w).len()) ==> r
                    == Err::<CommitOutcome, ErrorKind>(ErrorKind::PayloadTooLarge))
            },
        },
{
    let working = match repo.working_manifest(key) {
        Ok(m) => m,
        Err(e) => return Err(e),
    };
    let fp = working.content_fingerprint();
    let head_fp = repo.head_fingerprint(key);
    match &head_fp {
        Some(f) => {
            if *f == fp {
                return Ok(CommitOutcome::NothingToCommit);
            }
        },
        None => {},
    }
    let ghost before = *repo;
    let maddr = match repo.save_manifest(key, &working) {
        Ok(a) => a,
        Err(e) => return Err(e),
    };
    let parent = clone_opt(&repo.head);
    let c = Commit::at(parent, message, maddr.clone(), author, timestamp);
    let ghost mid = *repo;
    proof {
        assert(c@ == CommitV {
            version: COMMIT_VERSION,
            parent: opt_view(before.head),
            timestamp,
            message: message@,
            manifest_hash: maddr@,
            author: opt_view(author),
        });
    }
    let caddr = match repo.save_commit(key, &c) {
        Ok(a) => a,
        Err(e) => return Err(e),
    };
    repo.head = Some(caddr.clone());
    proof {
        assert(c@ == CommitV {
            version: COMMIT_VERSION,
            parent: opt_view(before.head),
            timestamp,
            message: message@,
            manifest_hash: maddr@,
            author: opt_view(author),
        });
    }
    Ok(CommitOutcome::Created(caddr))
}

/// Records the tracked files as a new commit on top of HEAD, stamped with
/// the current time.
pub fn commit(repo: &mut Repo, key: &[u8], message: String, author: Option<String>) -> (r: Result<
    CommitOutcome,
    ErrorKind,
>)
    requires
        old(repo).wf(),
        key@.len() == KEY_LEN,
    ensures
        final(repo).wf(),
        match working_manifest(*old(repo), key@) {
            Err(e) => r == Err::<CommitOutcome, ErrorKind>(e) && *final(repo) == *old(repo),
            Ok(w) => if head_fingerprint(*old(repo), key@) == Some(fingerprint_of(w)) {
                r == Ok::<CommitOutcome, ErrorKind>(CommitOutcome::NothingToCommit) && *final(repo)
                    == *old(repo)
            } else {
                (match r {
                    Ok(CommitOutcome::Created(a)) => exists|t: u64|
                        committed(
                            *old(repo),
                            *final(repo),
                            key@,
                            w,
                            message@,
                            opt_view(author),
                            t,
                            a@,
                        ),
                    Ok(CommitOutcome::NothingToCommit) => false,
                    Err(e) => exists|t: u64|
                        commit_failed(
                            *old(repo),
                            *final(repo),
                            key@,
                            w,
                            message@,
                            opt_view(author),
                            t,
                            e,
                        ),
                }) && (!aead_msg_ok(manifest_bytes(MANIFEST_VERSION, w).len()) ==> r
                    == Err::<CommitOutcome, ErrorKind>(ErrorKind::PayloadTooLarge))
            },
        },
{
    let now = unix_now();
    commit_with_time(repo, key, message, author, now)
}

/// Where a project stands.
#[derive(Debug, Clone, Copy, PartialEq, Eq, Structural)]
pub enum Status {
    /// No commit and no tracked file.
    Empty,
    /// The tracked files differ from those of HEAD.
    UncommittedChanges,
    /// HEAD is ahead of the remote HEAD last observed.
    UnpushedCommits,
    /// The remote HEAD last observed is not in HEAD's history.
    BehindRemote,
    /// HEAD's commit, its manifest or one of its file blobs is not cached.
    MissingData,
    /// HEAD's files are cached but not the ones on disk.
    NotApplied,
    /// Nothing to do.
    UpToDate,
}

/// Every blob a manifest lists is in `bs`.
pub open spec fn all_present(bs: Map<Seq<char>, Seq<u8>>, s: Seq<(Seq<char>, Seq<char>)>) -> bool {
    forall|i: int| 0 <= i < s.len() ==> bs.contains_key(#[trigger] s[i].1)
}

pub open spec fn commit_bound(r: Repo) -> nat {
    walk_bound(None, r.commits.size())
}

/// The classification of `r`, checked in this order: missing HEAD data,
/// tracked changes, the remote HEAD, the files on disk.
pub open spec fn status_of(r: Repo, key: Seq<u8>) -> Result<Status, ErrorKind> {
    match working_manifest(r, key) {
        Err(e) => Err(e),
        Ok(w) => match r.head {
            None => if w.len() == 0 {
                Ok(Status::Empty)
            } else {
                Ok(Status::UncommittedChanges)
            },
            Some(h) => match stored_commit(r.commits@, key, h@) {
                Err(e) => if e == ErrorKind::NotFoundError {
                    Ok(Status::MissingData)
                } else {
                    Err(e)
                },
                Ok(c) => match stored_manifest(r.blobs@, key, c.manifest_hash) {
                    Err(e) => if e == ErrorKind::NotFoundError {
                        Ok(Status::MissingData)
                    } else {
                        Err(e)
                    },
                    Ok(s) => if !all_present(r.blobs@, s) {
                        Ok(Status::MissingData)
                    } else if fingerprint_of(w) != fingerprint_of(s) {
                        Ok(Status::UncommittedChanges)
                    } else if opt_view(r.remote_head) != Some(h@) {
                        match r.remote_head {
                            None => Ok(Status::UnpushedCommits),
                            Some(rh) => if chain(r.commits@, key, h@, commit_bound(r)).contains(rh@) {
                                Ok(Status::UnpushedCommits)
                            } else {
                                Ok(Status::BehindRemote)
                            },
                        }
                    } else if opt_view(r.applied) != Some(c.manifest_hash) {
                        Ok(Status::NotApplied)
                    } else {
                        Ok(Status::UpToDate)
                    },
                },
            },
        },
    }
}

/// What a push has to send: the file blobs of HEAD's manifest, that
/// manifest, the commits the remote lacks (oldest first), and the
/// compare-and-swap of the remote HEAD from `expected_head` to `new_head`.
pub struct PushUpload {
    pub blobs: Vec<String>,
    pub manifest: String,
    pub commits: Vec<String>,
    pub expected_head: Option<String>,
    pub new_head: String,
}

/// What push has to do.
pub enum PushPlan {
    /// There is no local commit.
    NothingToPush,
    /// The remote has every local commit.
    UpToDate,
    /// Send these, in this order.
    Upload(PushUpload),
}

pub open spec fn strings_view(v: Seq<String>) -> Seq<Seq<char>> {
    v.map_values(|s: String| s@)
}

pub open spec fn reversed(s: Seq<Seq<char>>) -> Seq<Seq<char>> {
    Seq::new(s.len(), |i: int| s[s.len() - 1 - i])
}

/// The addresses of `a` that `bs` lacks, in order.
pub open spec fn absent_from(bs: Map<Seq<char>, Seq<u8>>, a: Seq<Seq<char>>) -> Seq<Seq<char>>
    decreases a.len(),
{
    if a.len() == 0 {
        Seq::empty()
    } else if bs.contains_key(a.last()) {
        absent_from(bs, a.drop_last())
    } else {
        absent_from(bs, a.drop_last()).push(a.last())
    }
}

/// The addresses a manifest lists that `bs` lacks, in the manifest's order.
pub open spec fn missing_of(bs: Map<Seq<char>, Seq<u8>>, s: Seq<(Seq<char>, Seq<char>)>) -> Seq<Seq<char>> {
    absent_from(bs, s.map_values(|e: (Seq<char>, Seq<char>)| e.1))
}

/// The compare-and-swap the remote performs on its HEAD: it moves to `new`
/// only when it still is `expected`; the flag says whether it moved.
pub open spec fn remote_cas(current: Option<Seq<char>>, expected: Option<Seq<char>>, new: Seq<char>) -> (Option<Seq<char>>, bool) {
    if current == expected {
        (Some(new), true)
    } else {
        (current, false)
    }
}

/// The refs after a push whose compare-and-swap the remote answered.
pub open spec fn pushed(old: Repo, new: Repo, manifest: Seq<char>, new_head: Seq<char>, accepted: bool) -> bool {
    if accepted {
        &&& opt_view(new.remote_head) == Some(new_head)
        &&& opt_view(new.applied) == Some(manifest)
        &&& new.head == old.head
        &&& new.latest == old.latest
        &&& new.blobs == old.blobs
        &&& new.commits == old.commits
    } else {
        new == old
    }
}

/// The check that every ancestor of `h` is cached: walking back at most `n`
/// steps reaches the first commit, each commit on the way loading.
pub open spec fn ancestry_check(cs: Map<Seq<char>, Seq<u8>>, key: Seq<u8>, h: Seq<char>, n: nat) -> Result<(), ErrorKind>
    decreases n,
{
    if n == 0 {
        Err(ErrorKind::MalformedData)
    } else {
        match stored_commit(cs, key, h) {
            Err(e) => Err(e),
            Ok(c) => match c.parent {
                None => Ok(()),
                Some(p) => ancestry_check(cs, key, p, (n - 1) as nat),
            },
        }
    }
}

/// The `k`-th ancestor of `h` (0 is `h`), as far as the parents can be read.
pub open spec fn nth_ancestor(cs: Map<Seq<char>, Seq<u8>>, key: Seq<u8>, h: Seq<char>, k: nat) -> Option<Seq<char>>
    decreases k,
{
    if k == 0 {
        Some(h)
    } else {
        match stored_commit(cs, key, h) {
            Ok(c) => match c.parent {
                Some(p) => nth_ancestor(cs, key, p, (k - 1) as nat),
                None => None,
            },
            Err(_) => None,
        }
    }
}

/// What the blob under `a` opens to, after checking it against its address.
pub open spec fn fetched_plaintext(bs: Map<Seq<char>, Seq<u8>>, key: Seq<u8>, a: Seq<char>) -> Result<Seq<u8>, ErrorKind> {
    if !bs.contains_key(a) {
        Err(ErrorKind::NotFoundError)
    } else if address_of(bs[a]) != a {
        Err(ErrorKind::IntegrityError)
    } else {
        opened_with_key(bs[a], key, seq![])
    }
}

/// The files of a manifest with their plaintexts, or the first error.
pub open spec fn restored(bs: Map<Seq<char>, Seq<u8>>, key: Seq<u8>, s: Seq<(Seq<char>, Seq<char>)>) -> Result<Seq<(Seq<char>, Seq<u8>)>, ErrorKind>
    decreases s.len(),
{
    if s.len() == 0 {
        Ok(Seq::empty())
    } else {
        match restored(bs, key, s.drop_last()) {
            Err(e) => Err(e),
            Ok(v) => match fetched_plaintext(bs, key, s.last().1) {
                Err(e) => Err(e),
                Ok(p) => Ok(v.push((s.last().0, p))),
            },
        }
    }
}

pub open spec fn files_view(v: Seq<(String, Vec<u8>)>) -> Seq<(Seq<char>, Seq<u8>)> {
    v.map_values(|e: (String, Vec<u8>)| (e.0@, e.1@))
}

/// Whether `v` holds a string equal to `x`.
fn contains_str(v: &Vec<String>, x: &String) -> (r: bool)
    ensures
        r == strings_view(v@).contains(x@),
{
    let mut i: usize = 0;
    while i < v.len()
        invariant
            i <= v@.len(),
            forall|j: int| 0 <= j < i ==> (#[trigger] v@[j])@ != x@,
        decreases v@.len() - i,
    {
        if v[i] == *x {
            proof {
                assert(strings_view(v@)[i as int] == x@);
            }
            return true;
        }
        i = i + 1;
    }
    proof {
        if strings_view(v@).contains(x@) {
            let j = choose|j: int| 0 <= j < strings_view(v@).len() && strings_view(v@)[j] == x@;
            assert(v@[j]@ == x@);
        }
    }
    false
}

impl Repo {
    /// Whether every blob `m` lists is cached.
    fn blobs_present(&self, m: &Manifest) -> (r: bool)
        requires
            self.wf(),
        ensures
            r == all_present(self.blobs@, m@),
    {
        let addrs = m.blob_addresses();
        let mut i: usize = 0;
        while i < addrs.len()
            invariant
                self.wf(),
                i <= addrs@.len(),
                addrs@.len() == m@.len(),
                forall|j: int| 0 <= j < addrs@.len() ==> #[trigger] addrs@[j]@ == m@[j].1,
                forall|j: int| 0 <= j < i ==> self.blobs@.contains_key(#[trigger] m@[j].1),
            decreases addrs@.len() - i,
        {
            if !self.blobs.contains(&addrs[i]) {
                proof {
                    assert(!self.blobs@.contains_key(m@[i as int].1));
                }
                return false;
            }
            i = i + 1;
        }
        true
    }

    /// Where the project stands.
    pub fn status(&self, key: &[u8]) -> (r: Result<Status, ErrorKind>)
        requires
            self.wf(),
            key@.len() == KEY_LEN,
        ensures
            r == status_of(*self, key@),
    {
        let w = match self.working_manifest(key) {
            Ok(m) => m,
            Err(e) => return Err(e),
        };
        let h = match &self.head {
            None => {
                if w.len() == 0 {
                    return Ok(Status::Empty);
                } else {
                    return Ok(Status::UncommittedChanges);
                }
            },
            Some(h) => h,
        };
        let c = match self.load_commit(key, h) {
            Ok(c) => c,
            Err(e) => {
                if e == ErrorKind::NotFoundError {
                    return Ok(Status::MissingData);
                }
                return Err(e);
            },
        };
        let m = match self.load_manifest(key, &c.manifest_hash) {
            Ok(m) => m,
            Err(e) => {
                if e == ErrorKind::NotFoundError {
                    return Ok(Status::MissingData);
                }
                return Err(e);
            },
        };
        if !self.blobs_present(&m) {
            return Ok(Status::MissingData);
        }
        let wf = w.content_fingerprint();
        let hf = m.content_fingerprint();
        if wf != hf {
            return Ok(Status::UncommittedChanges);
        }
        let head_opt = Some(h.clone());
        if !same_opt(&self.remote_head, &head_opt) {
            match &self.remote_head {
                None => return Ok(Status::UnpushedCommits),
                Some(rh) => {
                    let cap = self.walk_cap(None);
                    let none: Option<String> = None;
                    let hist = self.walk_until(key, h, &none, cap);
                    proof {
                        assert(opt_view(none) == None::<Seq<char>>);
                    }
                    if contains_str(&hist, rh) {
                        return Ok(Status::UnpushedCommits);
                    }
                    return Ok(Status::BehindRemote);
                },
            }
        }
        let applied_ok = match &self.applied {
            Some(a) => *a == c.manifest_hash,
            None => false,
        };
        if !applied_ok {
            return Ok(Status::NotApplied);
        }
        Ok(Status::UpToDate)
    }

    /// Decides what a push has to do, given the remote HEAD just fetched.
    pub fn plan_push(&self, key: &[u8], remote_head: &Option<String>) -> (r: Result<PushPlan, ErrorKind>)
        requires
            self.wf(),
            key@.len() == KEY_LEN,
        ensures
            match self.head {
                None => r matches Ok(PushPlan::NothingToPush),
                Some(h) => if opt_view(*remote_head) != opt_view(self.remote_head) {
                    r matches Err(e) && e == ErrorKind::ConcurrencyConflict
                } else {
                    let ah = ahead(self.commits@, key@, h@, opt_view(self.remote_head), commit_bound(*self));
                    if ah.len() == 0 {
                        r matches Ok(PushPlan::UpToDate)
                    } else {
                        match stored_commit(self.commits@, key@, h@) {
                            Err(e) => r matches Err(x) && x == e,
                            Ok(c) => match stored_manifest(self.blobs@, key@, c.manifest_hash) {
                                Err(e) => r matches Err(x) && x == e,
                                Ok(s) => if !all_present(self.blobs@, s) {
                                    r matches Err(x) && x == ErrorKind::NotFoundError
                                } else {
                                    r matches Ok(PushPlan::Upload(u)) && {
                                        &&& strings_view(u.blobs@) == s.map_values(|e: (Seq<char>, Seq<char>)| e.1)
                                        &&& u.manifest@ == c.manifest_hash
                                        &&& strings_view(u.commits@) == reversed(ah)
                                        &&& opt_view(u.expected_head) == opt_view(self.remote_head)
                                        &&& u.new_head@ == h@
                                        &&& Some(u.new_head@) != opt_view(u.expected_head)
                                    }
                                },
                            },
                        }
                    }
                },
            },
    {
        let h = match &self.head {
            None => return Ok(PushPlan::NothingToPush),
            Some(h) => h,
        };
        if !same_opt(remote_head, &self.remote_head) {
            return Err(ErrorKind::ConcurrencyConflict);
        }
        let pending = self.commits_ahead_of_remote(key);
        if pending.len() == 0 {
            return Ok(PushPlan::UpToDate);
        }
        let c = match self.load_commit(key, h) {
            Ok(c) => c,
            Err(e) => return Err(e),
        };
        let m = match self.load_manifest(key, &c.manifest_hash) {
            Ok(m) => m,
            Err(e) => return Err(e),
        };
        if !self.blobs_present(&m) {
            return Err(ErrorKind::NotFoundError);
        }
        let blobs = m.blob_addresses();
        let mut commits: Vec<String> = Vec::new();
        let n = pending.len();
        let mut i: usize = 0;
        while i < n
            invariant
                n == pending@.len(),
                i <= n,
                commits@.len() == i,
                forall|j: int| 0 <= j < i ==> (#[trigger] commits@[j])@ == pending@[n - 1 - j]@,
            decreases n - i,
        {
            commits.push(pending[n - 1 - i].clone());
            i = i + 1;
        }
        proof {
            let ah = strings_view(pending@);
            assert(strings_view(commits@) =~= reversed(ah));
            assert(strings_view(blobs@) =~= m@.map_values(|e: (Seq<char>, Seq<char>)| e.1));
            assert(ah[0] == h@);
        }
        Ok(
            PushPlan::Upload(
                PushUpload {
                    blobs,
                    manifest: c.manifest_hash,
                    commits,
                    expected_head: clone_opt(&self.remote_head),
                    new_head: h.clone(),
                },
            ),
        )
    }

    /// Records the remote's answer to the compare-and-swap of a push. On
    /// acceptance the remote-tracking HEAD and `applied` move; on refusal
    /// nothing local changes and the push fails with a conflict.
    pub fn finish_push(&mut self, plan: &PushUpload, accepted: bool) -> (r: Result<(), ErrorKind>)
        ensures
            pushed(*old(self), *final(self), plan.manifest@, plan.new_head@, accepted),
            accepted ==> r is Ok,
            !accepted ==> r == Err::<(), ErrorKind>(ErrorKind::ConcurrencyConflict),
    {
        if !accepted {
            return Err(ErrorKind::ConcurrencyConflict);
        }
        self.remote_head = Some(plan.new_head.clone());
        self.applied = Some(plan.manifest.clone());
        Ok(())
    }

    /// Whether a pull has anything to do, given the remote HEAD just fetched:
    /// not when the remote has no HEAD, nor when it is both the local HEAD
    /// and the remote HEAD last observed.
    pub fn pull_needed(&self, remote_head: &Option<String>) -> (r: bool)
        ensures
            r == !(remote_head is None || (opt_view(*remote_head) == opt_view(self.head) && opt_view(
                *remote_head,
            ) == opt_view(self.remote_head))),
    {
        match remote_head {
            None => false,
            Some(_) => !(same_opt(remote_head, &self.head) && same_opt(remote_head, &self.remote_head)),
        }
    }

    /// The first commit a pull to `h` must fetch: `h` itself unless it is
    /// cached. (Cached commits have their ancestors cached too.)
    pub fn missing_commit(&self, h: &String) -> (r: Option<String>)
        requires
            self.wf(),
        ensures
            self.commits@.contains_key(h@) ==> r is None,
            !self.commits@.contains_key(h@) ==> (r matches Some(a) && a@ == h@),
    {
        if self.commits.contains(h) {
            None
        } else {
            Some(h.clone())
        }
    }

    /// Takes a fetched commit blob: it must hash to `addr` and open and
    /// decode under the project key. Then it is cached, and the result names
    /// the next commit to fetch: its parent, unless there is none or it is
    /// cached already.
    pub fn receive_commit(&mut self, key: &[u8], addr: &String, bytes: Vec<u8>) -> (r: Result<Option<String>, ErrorKind>)
        requires
            old(self).wf(),
            key@.len() == KEY_LEN,
        ensures
            final(self).wf(),
            address_of(bytes@) != addr@ ==> r == Err::<Option<String>, ErrorKind>(ErrorKind::IntegrityError)
                && *final(self) == *old(self),
            address_of(bytes@) == addr@ ==> match opened_with_key(bytes@, key@, seq![]) {
                Err(e) => r == Err::<Option<String>, ErrorKind>(e) && *final(self) == *old(self),
                Ok(p) => match decoded_commit(p) {
                    Err(e) => r == Err::<Option<String>, ErrorKind>(e) && *final(self) == *old(self),
                    Ok(c) => {
                        &&& final(self).commits@ == old(self).commits@.insert(addr@, bytes@)
                        &&& final(self).blobs == old(self).blobs
                        &&& final(self).head == old(self).head
                        &&& final(self).remote_head == old(self).remote_head
                        &&& final(self).applied == old(self).applied
                        &&& final(self).latest == old(self).latest
                        &&& r matches Ok(next) && match c.parent {
                            None => next is None,
                            Some(p) => if final(self).commits@.contains_key(p) {
                                next is None
                            } else {
                                next matches Some(n) && n@ == p
                            },
                        }
                    },
                },
            },
    {
        let computed = address(bytes.as_slice());
        if computed != *addr {
            return Err(ErrorKind::IntegrityError);
        }
        let plain = match decrypt_bytes_with_key(bytes.as_slice(), key) {
            Ok(p) => p,
            Err(e) => return Err(e),
        };
        let c = match Commit::decode(plain.as_slice()) {
            Ok(c) => c,
            Err(e) => return Err(e),
        };
        self.commits.load_entry(computed, bytes);
        match c.parent {
            None => Ok(None),
            Some(p) => {
                if self.commits.contains(&p) {
                    Ok(None)
                } else {
                    Ok(Some(p))
                }
            },
        }
    }

    /// What a pull to commit `h` still has to fetch into the blob cache: the
    /// manifest if it is missing, otherwise the file blobs it lists that are
    /// missing, in the manifest's order.
    pub fn missing_blobs(&self, key: &[u8], h: &String) -> (r: Result<Vec<String>, ErrorKind>)
        requires
            self.wf(),
            key@.len() == KEY_LEN,
        ensures
            match stored_commit(self.commits@, key@, h@) {
                Err(e) => r matches Err(x) && x == e,
                Ok(c) => if !self.blobs@.contains_key(c.manifest_hash) {
                    r matches Ok(v) && strings_view(v@) == seq![c.manifest_hash]
                } else {
                    match stored_manifest(self.blobs@, key@, c.manifest_hash) {
                        Err(e) => r matches Err(x) && x == e,
                        Ok(s) => r matches Ok(v) && strings_view(v@) == missing_of(self.blobs@, s),
                    }
                },
            },
    {
        let c = match self.load_commit(key, h) {
            Ok(c) => c,
            Err(e) => return Err(e),
        };
        if !self.blobs.contains(&c.manifest_hash) {
            let mut v: Vec<String> = Vec::new();
            v.push(c.manifest_hash);
            proof {
                assert(strings_view(v@) =~= seq![c.manifest_hash@]);
            }
            return Ok(v);
        }
        let m = match self.load_manifest(key, &c.manifest_hash) {
            Ok(m) => m,
            Err(e) => return Err(e),
        };
        let addrs = m.blob_addresses();
        let ghost all = m@.map_values(|e: (Seq<char>, Seq<char>)| e.1);
        let mut out: Vec<String> = Vec::new();
        let mut i: usize = 0;
        assert(absent_from(self.blobs@, all.subrange(0, 0)) =~= Seq::<Seq<char>>::empty());
        assert(strings_view(out@) =~= Seq::<Seq<char>>::empty());
        while i < addrs.len()
            invariant
                self.wf(),
                i <= addrs@.len(),
                addrs@.len() == all.len(),
                all == m@.map_values(|e: (Seq<char>, Seq<char>)| e.1),
                forall|j: int| 0 <= j < addrs@.len() ==> #[trigger] addrs@[j]@ == m@[j].1,
                strings_view(out@) == absent_from(self.blobs@, all.subrange(0, i as int)),
            decreases addrs@.len() - i,
        {
            let ghost before = strings_view(out@);
            let present = self.blobs.contains(&addrs[i]);
            if !present {
                out.push(addrs[i].clone());
            }
            proof {
                let t = all.subrange(0, i + 1);
                assert(t.drop_last() =~= all.subrange(0, i as int));
                assert(t.last() == addrs@[i as int]@);
                assert(strings_view(out@) =~= absent_from(self.blobs@, t));
            }
            i = i + 1;
        }
        proof {
            assert(all.subrange(0, all.len() as int) =~= all);
        }
        Ok(out)
    }

    /// Takes a fetched file or manifest blob, provided it hashes to `addr`.
    pub fn receive_blob(&mut self, addr: &String, bytes: Vec<u8>) -> (r: Result<(), ErrorKind>)
        requires
            old(self).wf(),
        ensures
            final(self).wf(),
            final(self).commits == old(self).commits,
            final(self).head == old(self).head,
            final(self).remote_head == old(self).remote_head,
            final(self).applied == old(self).applied,
            final(self).latest == old(self).latest,
            address_of(bytes@) == addr@ ==> (r is Ok && final(self).blobs@ == old(self).blobs@.insert(addr@, bytes@)),
            address_of(bytes@) != addr@ ==> r == Err::<(), ErrorKind>(ErrorKind::IntegrityError)
                && final(self).blobs@ == old(self).blobs@,
    {
        self.blobs.insert_verified(addr, bytes)
    }

    /// The files of commit `h`'s manifest with their plaintexts, each blob
    /// checked against its address and opened with the project key.
    pub fn restore_files(&self, key: &[u8], h: &String) -> (r: Result<Vec<(String, Vec<u8>)>, ErrorKind>)
        requires
            self.wf(),
            key@.len() == KEY_LEN,
        ensures
            match stored_commit(self.commits@, key@, h@) {
                Err(e) => r matches Err(x) && x == e,
                Ok(c) => match stored_manifest(self.blobs@, key@, c.manifest_hash) {
                    Err(e) => r matches Err(x) && x == e,
                    Ok(s) => match restored(self.blobs@, key@, s) {
                        Err(e) => r matches Err(x) && x == e,
                        Ok(files) => r matches Ok(v) && files_view(v@) == files,
                    },
                },
            },
    {
        let c = match self.load_commit(key, h) {
            Ok(c) => c,
            Err(e) => return Err(e),
        };
        let m = match self.load_manifest(key, &c.manifest_hash) {
            Ok(m) => m,
            Err(e) => return Err(e),
        };
        let mut out: Vec<(String, Vec<u8>)> = Vec::new();
        let mut i: usize = 0;
        assert(m@.subrange(0, 0) =~= Seq::<(Seq<char>, Seq<char>)>::empty());
        assert(files_view(out@) =~= Seq::<(Seq<char>, Seq<u8>)>::empty());
        while i < m.len()
            invariant
                self.wf(),
                key@.len() == KEY_LEN,
                i <= m@.len(),
                stored_commit(self.commits@, key@, h@) == Ok::<CommitV, ErrorKind>(c@),
                stored_manifest(self.blobs@, key@, c.manifest_hash@) == Ok::<Seq<(Seq<char>, Seq<char>)>, ErrorKind>(m@),
                restored(self.blobs@, key@, m@.subrange(0, i as int)) == Ok::<Seq<(Seq<char>, Seq<u8>)>, ErrorKind>(files_view(out@)),
            decreases m@.len() - i,
        {
            let (path, addr) = m.entry(i);
            let ghost t = m@.subrange(0, i + 1);
            proof {
                assert(t.drop_last() =~= m@.subrange(0, i as int));
                assert(t.last() == m@[i as int]);
            }
            let blob = match self.blobs.get_verified(addr) {
                Ok(b) => b,
                Err(e) => {
                    proof {
                        assert(fetched_plaintext(self.blobs@, key@, t.last().1) == Err::<Seq<u8>, ErrorKind>(e));
                        assert(restored(self.blobs@, key@, t) == Err::<Seq<(Seq<char>, Seq<u8>)>, ErrorKind>(e));
                        lemma_restored_stuck(self.blobs@, key@, m@, (i + 1) as nat);
                    }
                    return Err(e);
                },
            };
            let plain = match decrypt_bytes_with_key(blob.as_slice(), key) {
                Ok(p) => p,
                Err(e) => {
                    proof {
                        assert(fetched_plaintext(self.blobs@, key@, t.last().1) == Err::<Seq<u8>, ErrorKind>(e));
                        assert(restored(self.blobs@, key@, t) == Err::<Seq<(Seq<char>, Seq<u8>)>, ErrorKind>(e));
                        lemma_restored_stuck(self.blobs@, key@, m@, (i + 1) as nat);
                    }
                    return Err(e);
                },
            };
            let ghost before = files_view(out@);
            out.push((path.clone(), plain));
            proof {
                assert(files_view(out@) =~= before.push((m@[i as int].0, plain@)));
            }
            i = i + 1;
        }
        proof {
            assert(m@.subrange(0, m@.len() as int) =~= m@);
        }
        Ok(out)
    }

    /// Completes a pull to `h` once its commits and blobs are fetched:
    /// checks that every ancestor of `h` is cached and that the manifest and
    /// all its file blobs are, then moves HEAD, the remote-tracking HEAD,
    /// `applied` and `latest` (the pulled files are now the tracked ones). On
    /// any failure no ref moves.
    pub fn finish_pull(&mut self, key: &[u8], h: &String) -> (r: Result<(), ErrorKind>)
        requires
            old(self).wf(),
            key@.len() == KEY_LEN,
        ensures
            final(self).wf(),
            final(self).blobs == old(self).blobs,
            final(self).commits == old(self).commits,
            match ancestry_check(old(self).commits@, key@, h@, commit_bound(*old(self))) {
                Err(e) => r == Err::<(), ErrorKind>(e) && *final(self) == *old(self),
                Ok(_) => match stored_commit(old(self).commits@, key@, h@) {
                    Err(e) => r == Err::<(), ErrorKind>(e) && *final(self) == *old(self),
                    Ok(c) => match stored_manifest(old(self).blobs@, key@, c.manifest_hash) {
                        Err(e) => r == Err::<(), ErrorKind>(e) && *final(self) == *old(self),
                        Ok(s) => if !all_present(old(self).blobs@, s) {
                            r == Err::<(), ErrorKind>(ErrorKind::NotFoundError) && *final(self) == *old(self)
                        } else {
                            &&& r is Ok
                            &&& opt_view(final(self).head) == Some(h@)
                            &&& opt_view(final(self).remote_head) == Some(h@)
                            &&& opt_view(final(self).applied) == Some(c.manifest_hash)
                            &&& opt_view(final(self).latest) == Some(c.manifest_hash)
                        },
                    },
                },
            },
    {
        let cap = self.walk_cap(None);
        match self.check_ancestry(key, h, cap) {
            Ok(()) => {},
            Err(e) => return Err(e),
        }
        let c = match self.load_commit(key, h) {
            Ok(c) => c,
            Err(e) => return Err(e),
        };
        let m = match self.load_manifest(key, &c.manifest_hash) {
            Ok(m) => m,
            Err(e) => return Err(e),
        };
        if !self.blobs_present(&m) {
            return Err(ErrorKind::NotFoundError);
        }
        self.head = Some(h.clone());
        self.remote_head = Some(h.clone());
        self.applied = Some(c.manifest_hash.clone());
        self.latest = Some(c.manifest_hash);
        Ok(())
    }

    fn check_ancestry(&self, key: &[u8], h: &String, n: usize) -> (r: Result<(), ErrorKind>)
        requires
            self.wf(),
            key@.len() == KEY_LEN,
        ensures
            r == ancestry_check(self.commits@, key@, h@, n as nat),
    {
        let mut cur = h.clone();
        let mut left = n;
        while left > 0
            invariant
                self.wf(),
                key@.len() == KEY_LEN,
                ancestry_check(self.commits@, key@, h@, n as nat) == ancestry_check(self.commits@, key@, cur@, left as nat),
            decreases left,
        {
            let c = match self.load_commit(key, &cur) {
                Ok(c) => c,
                Err(e) => return Err(e),
            };
            match c.parent {
                None => return Ok(()),
                Some(p) => {
                    cur = p;
                },
            }
            left = left - 1;
        }
        Err(ErrorKind::MalformedData)
    }
}

proof fn lemma_restored_stuck(bs: Map<Seq<char>, Seq<u8>>, key: Seq<u8>, s: Seq<(Seq<char>, Seq<char>)>, i: nat)
    requires
        i <= s.len(),
        restored(bs, key, s.subrange(0, i as int)) is Err,
    ensures
        restored(bs, key, s) == restored(bs, key, s.subrange(0, i as int)),
    decreases s.len() - i,
{
    if i < s.len() {
        let t = s.subrange(0, (i + 1) as int);
        assert(t.drop_last() =~= s.subrange(0, i as int));
        lemma_restored_stuck(bs, key, s, i + 1);
    } else {
        assert(s.subrange(0, i as int) =~= s);
    }
}

/// Ancestry closure: once the check that `finish_pull` makes has passed for
/// `h`, every ancestor of `h` is in the commit cache.
pub proof fn lemma_ancestry_closed(cs: Map<Seq<char>, Seq<u8>>, key: Seq<u8>, h: Seq<char>, n: nat, k: nat)
    requires
        ancestry_check(cs, key, h, n) == Ok::<(), ErrorKind>(()),
    ensures
        nth_ancestor(cs, key, h, k) matches Some(a) ==> cs.contains_key(a),
    decreases n,
{
    if k > 0 {
        match stored_commit(cs, key, h) {
            Ok(c) => match c.parent {
                Some(p) => lemma_ancestry_closed(cs, key, p, (n - 1) as nat, (k - 1) as nat),
                None => {},
            },
            Err(_) => {},
        }
    }
}

/// Compare-and-swap: of two pushes planned against the same remote HEAD
/// `r0` (both expecting it, each moving it to a commit of its own), exactly
/// one is accepted whichever reaches the remote first; the other is refused,
/// and `finish_push` then leaves that side's repository as it was.
pub proof fn lemma_single_winner(r0: Option<Seq<char>>, a_new: Seq<char>, b_new: Seq<char>, repo_b: Repo, manifest_b: Seq<char>)
    requires
        Some(a_new) != r0,
        Some(b_new) != r0,
    ensures
        ({
            let (after_a, ok_a) = remote_cas(r0, r0, a_new);
            let (_, ok_b) = remote_cas(after_a, r0, b_new);
            ok_a && !ok_b
        }),
        ({
            let (after_b, ok_b) = remote_cas(r0, r0, b_new);
            let (_, ok_a) = remote_cas(after_b, r0, a_new);
            ok_b && !ok_a
        }),
        forall|after: Repo| pushed(repo_b, after, manifest_b, b_new, false) ==> after == repo_b,
{
}

proof fn lemma_absent_none(bs: Map<Seq<char>, Seq<u8>>, a: Seq<Seq<char>>)
    requires
        forall|j: int| 0 <= j < a.len() ==> bs.contains_key(#[trigger] a[j]),
    ensures
        absent_from(bs, a) == Seq::<Seq<char>>::empty(),
    decreases a.len(),
{
    if a.len() > 0 {
        let d = a.drop_last();
        assert(bs.contains_key(a[a.len() - 1]));
        assert forall|j: int| 0 <= j < d.len() implies bs.contains_key(#[trigger] d[j]) by {
            assert(d[j] == a[j]);
        }
        lemma_absent_none(bs, d);
    }
}

proof fn lemma_absent_one(bs: Map<Seq<char>, Seq<u8>>, a: Seq<Seq<char>>, i: int)
    requires
        0 <= i < a.len(),
        !bs.contains_key(a[i]),
        forall|j: int| 0 <= j < a.len() && j != i ==> bs.contains_key(#[trigger] a[j]),
    ensures
        absent_from(bs, a) == seq![a[i]],
    decreases a.len(),
{
    let d = a.drop_last();
    if i == a.len() - 1 {
        assert forall|j: int| 0 <= j < d.len() implies bs.contains_key(#[trigger] d[j]) by {
            assert(d[j] == a[j]);
        }
        lemma_absent_none(bs, d);
        assert(Seq::<Seq<char>>::empty().push(a.last()) =~= seq![a[i]]);
    } else {
        assert(bs.contains_key(a[a.len() - 1]));
        assert forall|j: int| 0 <= j < d.len() && j != i implies bs.contains_key(#[trigger] d[j]) by {
            assert(d[j] == a[j]);
        }
        assert(d[i] == a[i]);
        lemma_absent_one(bs, d, i);
    }
}

/// One missing blob: when the blob cache holds every address a manifest
/// lists but the one of entry `i`, `missing_blobs` lists exactly that
/// address, so a pull downloads it and nothing else.
pub proof fn lemma_one_missing(bs: Map<Seq<char>, Seq<u8>>, s: Seq<(Seq<char>, Seq<char>)>, i: int)
    requires
        0 <= i < s.len(),
        !bs.contains_key(s[i].1),
        forall|j: int| 0 <= j < s.len() && j != i ==> bs.contains_key(#[trigger] s[j].1),
    ensures
        missing_of(bs, s) == seq![s[i].1],
{
    let a = s.map_values(|e: (Seq<char>, Seq<char>)| e.1);
    assert forall|j: int| 0 <= j < a.len() && j != i implies bs.contains_key(#[trigger] a[j]) by {
        assert(a[j] == s[j].1);
    }
    assert(a[i] == s[i].1);
    lemma_absent_one(bs, a, i);
}

} // verus!
