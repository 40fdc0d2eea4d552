//! The local repository: the blob cache, the commit cache and the refs, and
//! the walks over the commit graph.
//!
//! Commits form a singly linked chain through their `parent` addresses.
//! Every walk is bounded by one step more than the number of cached commits,
//! so a damaged, cyclic chain cannot keep it going.
use crate::codec::clone_opt;
use crate::commit::{commit_fits, commit_result, decoded_commit, Commit, CommitV};
use crate::envelope::{decrypt_bytes_with_key, opened_with_key, KEY_LEN};
use crate::error::ErrorKind;
use crate::manifest::{decoded_manifest, manifest_result, Manifest};
use crate::store::BlobStore;
use vstd::prelude::*;

verus! {

/// What the commit cache holds under `h`, opened with `key` and decoded.
pub open spec fn stored_commit(cs: Map<Seq<char>, Seq<u8>>, key: Seq<u8>, h: Seq<char>) -> Result<CommitV, ErrorKind> {
    if !cs.contains_key(h) {
        Err(ErrorKind::NotFoundError)
    } else {
        match opened_with_key(cs[h], key, seq![]) {
            Ok(p) => decoded_commit(p),
            Err(e) => Err(e),
        }
    }
}

/// What the blob cache holds under `h`, opened with `key` and decoded as a manifest.
pub open spec fn stored_manifest(bs: Map<Seq<char>, Seq<u8>>, key: Seq<u8>, h: Seq<char>) -> Result<
    Seq<(Seq<char>, Seq<char>)>,
    ErrorKind,
> {
    if !bs.contains_key(h) {
        Err(ErrorKind::NotFoundError)
    } else {
        match opened_with_key(bs[h], key, seq![]) {
            Ok(p) => decoded_manifest(p),
            Err(e) => Err(e),
        }
    }
}

pub open spec fn history_view(v: Seq<(String, Commit)>) -> Seq<(Seq<char>, CommitV)> {
    v.map_values(|e: (String, Commit)| (e.0@, e.1@))
}

pub open spec fn prepend<A>(acc: Seq<A>, r: Result<Seq<A>, ErrorKind>) -> Result<Seq<A>, ErrorKind> {
    match r {
        Ok(rest) => Ok(acc + rest),
        Err(e) => Err(e),
    }
}

/// Up to `n` commits from `h` back through the parents, newest first; the
/// error of the first that cannot be loaded. When `n` steps do not reach the
/// first commit and `capped` says `n` is the cache's bound rather than the
/// caller's limit, the chain is cyclic and the result is malformed data.
pub open spec fn history(
    cs: Map<Seq<char>, Seq<u8>>,
    key: Seq<u8>,
    h: Seq<char>,
    n: nat,
    capped: bool,
) -> Result<Seq<(Seq<char>, CommitV)>, ErrorKind>
    decreases n,
{
    if n == 0 {
        if capped {
            Err(ErrorKind::MalformedData)
        } else {
            Ok(Seq::empty())
        }
    } else {
        match stored_commit(cs, key, h) {
            Err(e) => Err(e),
            Ok(c) => match c.parent {
                None => Ok(seq![(h, c)]),
                Some(p) => prepend(seq![(h, c)], history(cs, key, p, (n - 1) as nat, capped)),
            },
        }
    }
}

/// The addresses from `h` back through the parents, for at most `n` steps,
/// up to (not including) `stop`. An address whose commit cannot be loaded
/// is the last one.
pub open spec fn ahead(
    cs: Map<Seq<char>, Seq<u8>>,
    key: Seq<u8>,
    h: Seq<char>,
    stop: Option<Seq<char>>,
    n: nat,
) -> Seq<Seq<char>>
    decreases n,
{
    if n == 0 || stop == Some(h) {
        Seq::empty()
    } else {
        match stored_commit(cs, key, h) {
            Ok(c) => match c.parent {
                Some(p) => seq![h] + ahead(cs, key, p, stop, (n - 1) as nat),
                None => seq![h],
            },
            Err(_) => seq![h],
        }
    }
}

/// The addresses from `h` back through the parents, for at most `n` steps;
/// an address whose commit cannot be loaded is the last one.
pub open spec fn chain(cs: Map<Seq<char>, Seq<u8>>, key: Seq<u8>, h: Seq<char>, n: nat) -> Seq<Seq<char>> {
    ahead(cs, key, h, None, n)
}

/// The first element of `s` that `set` contains.
pub open spec fn first_in(s: Seq<Seq<char>>, set: Seq<Seq<char>>) -> Option<Seq<char>>
    decreases s.len(),
{
    if s.len() == 0 {
        None
    } else if set.contains(s[0]) {
        Some(s[0])
    } else {
        first_in(s.drop_first(), set)
    }
}

/// Whether a walk's step count is the cache's bound: no limit was given,
/// or the limit is larger than that bound.
pub open spec fn walk_capped(limit: Option<usize>, size: nat) -> bool {
    match limit {
        Some(l) => l as nat > walk_bound(None, size),
        None => true,
    }
}

/// How many steps a walk may take: one more than the commits cached, and
/// no more than `limit` when one is given.
pub open spec fn walk_bound(limit: Option<usize>, size: nat) -> nat {
    let cap = if size < usize::MAX { size + 1 } else { size };
    match limit {
        Some(l) => if (l as nat) < cap {
            l as nat
        } else {
            cap
        },
        None => cap,
    }
}

/// What commit produced: nothing, because the tracked files are those of
/// HEAD already, or a new commit at the given address.
#[derive(Debug, PartialEq, Eq)]
pub enum CommitOutcome {
    NothingToCommit,
    Created(String),
}

/// The local state of a project: cached blobs (files and manifests), cached
/// commits, and the refs.
pub struct Repo {
    /// File and manifest blobs by address.
    pub blobs: BlobStore,
    /// Commit blobs by address.
    pub commits: BlobStore,
    /// The local tip of history.
    pub head: Option<String>,
    /// The remote tip as last observed.
    pub remote_head: Option<String>,
    /// The manifest whose files are on disk.
    pub applied: Option<String>,
    /// The newest manifest saved: the tracked files as they now are.
    pub latest: Option<String>,
}

impl Repo {
    pub open spec fn wf(&self) -> bool {
        self.blobs.wf() && self.commits.wf()
    }

    /// A project with nothing cached and no refs.
    pub fn new() -> (r: Repo)
        ensures
            r.wf(),
            r.blobs@ == Map::<Seq<char>, Seq<u8>>::empty(),
            r.commits@ == Map::<Seq<char>, Seq<u8>>::empty(),
            r.head is None,
            r.remote_head is None,
            r.applied is None,
            r.latest is None,
    {
        Repo {
            blobs: BlobStore::new(),
            commits: BlobStore::new(),
            head: None,
            remote_head: None,
            applied: None,
            latest: None,
        }
    }

    /// Whether the commit at `h` is cached.
    pub fn commit_exists(&self, h: &String) -> (r: bool)
        requires
            self.wf(),
        ensures
            r == self.commits@.contains_key(h@),
    {
        self.commits.contains(h)
    }

    /// Loads the commit at `h`: opens its blob with the project key and decodes it.
    pub fn load_commit(&self, key: &[u8], h: &String) -> (r: Result<Commit, ErrorKind>)
        requires
            self.wf(),
            key@.len() == KEY_LEN,
        ensures
            commit_result(r) == stored_commit(self.commits@, key@, h@),
            r matches Ok(c) ==> commit_fits(c@),
    {
        match self.commits.get(h) {
            None => Err(ErrorKind::NotFoundError),
            Some(blob) => match decrypt_bytes_with_key(blob.as_slice(), key) {
                Err(e) => Err(e),
                Ok(p) => Commit::decode(p.as_slice()),
            },
        }
    }

    /// Loads the manifest at `h` from the blob cache.
    pub fn load_manifest(&self, key: &[u8], h: &String) -> (r: Result<Manifest, ErrorKind>)
        requires
            self.wf(),
            key@.len() == KEY_LEN,
        ensures
            manifest_result(r) == stored_manifest(self.blobs@, key@, h@),
            r matches Ok(m) ==> m.wf(),
    {
        match self.blobs.get(h) {
            None => Err(ErrorKind::NotFoundError),
            Some(blob) => match decrypt_bytes_with_key(blob.as_slice(), key) {
                Err(e) => Err(e),
                Ok(p) => Manifest::decode(p.as_slice()),
            },
        }
    }

    pub(crate) fn walk_cap(&self, limit: Option<usize>) -> (r: usize)
        ensures
            r as nat == walk_bound(limit, self.commits.size()),
    {
        let size = self.commits.len();
        let cap = if size < usize::MAX {
            size + 1
        } else {
            size
        };
        match limit {
            Some(l) => if l < cap {
                l
            } else {
                cap
            },
            None => cap,
        }
    }

    /// The history from `start`, newest first, following parents until the
    /// first commit or `limit` entries. A chain longer than the commit cache
    /// can hold loops back on itself and is reported as malformed data.
    pub fn walk_history(&self, key: &[u8], start: &String, limit: Option<usize>) -> (r: Result<
        Vec<(String, Commit)>,
        ErrorKind,
    >)
        requires
            self.wf(),
            key@.len() == KEY_LEN,
        ensures
            match r {
                Ok(v) => history(
                    self.commits@,
                    key@,
                    start@,
                    walk_bound(limit, self.commits.size()),
                    walk_capped(limit, self.commits.size()),
                ) == Ok::<Seq<(Seq<char>, CommitV)>, ErrorKind>(history_view(v@)),
                Err(e) => history(
                    self.commits@,
                    key@,
                    start@,
                    walk_bound(limit, self.commits.size()),
                    walk_capped(limit, self.commits.size()),
                ) == Err::<Seq<(Seq<char>, CommitV)>, ErrorKind>(e),
            },
    {
        let ghost cs = self.commits@;
        let cap = self.walk_cap(limit);
        let bound = self.walk_cap(None);
        let capped = match limit {
            Some(l) => l > bound,
            None => true,
        };
        let mut out: Vec<(String, Commit)> = Vec::new();
        let mut cur = start.clone();
        let mut left = cap;
        while left > 0
            invariant
                self.wf(),
                key@.len() == KEY_LEN,
                cs == self.commits@,
                cap as nat == walk_bound(limit, self.commits.size()),
                capped == walk_capped(limit, self.commits.size()),
                history(cs, key@, start@, cap as nat, capped) == prepend(
                    history_view(out@),
                    history(cs, key@, cur@, left as nat, capped),
                ),
            decreases left,
        {
            let c = match self.load_commit(key, &cur) {
                Err(e) => {
                    proof {
                        assert(history(cs, key@, cur@, left as nat, capped) == Err::<Seq<(Seq<char>, CommitV)>, ErrorKind>(e));
                    }
                    return Err(e);
                },
                Ok(c) => c,
            };
            let parent = clone_opt(&c.parent);
            let ghost before = history_view(out@);
            let ghost here = cur@;
            out.push((cur, c));
            proof {
                assert(history_view(out@) =~= before + seq![(here, c@)]);
            }
            match parent {
                None => {
                    proof {
                        assert(history(cs, key@, here, left as nat, capped) == Ok::<Seq<(Seq<char>, CommitV)>, ErrorKind>(seq![(here, c@)]));
                        assert(history_view(out@) =~= before + seq![(here, c@)]);
                    }
                    return Ok(out);
                },
                Some(p) => {
                    cur = p;
                },
            }
            proof {
                let rest = history(cs, key@, cur@, (left - 1) as nat, capped);
                match rest {
                    Ok(v) => {
                        assert(before + (seq![(here, c@)] + v) =~= history_view(out@) + v);
                    },
                    Err(_) => {},
                }
            }
            left = left - 1;
        }
        if capped {
            return Err(ErrorKind::MalformedData);
        }
        proof {
            assert(history_view(out@) + Seq::<(Seq<char>, CommitV)>::empty() =~= history_view(out@));
        }
        Ok(out)
    }

    /// The addresses from `start` back through the parents, at most `n`
    /// steps, up to (not including) `stop`.
    pub(crate) fn walk_until(&self, key: &[u8], start: &String, stop: &Option<String>, n: usize) -> (r: Vec<String>)
        requires
            self.wf(),
            key@.len() == KEY_LEN,
        ensures
            r@.map_values(|s: String| s@) == ahead(self.commits@, key@, start@, crate::codec::opt_view(*stop), n as nat),
    {
        let ghost cs = self.commits@;
        let ghost stop_v = crate::codec::opt_view(*stop);
        let mut out: Vec<String> = Vec::new();
        let mut cur = start.clone();
        let mut left = n;
        while left > 0
            invariant
                self.wf(),
                key@.len() == KEY_LEN,
                cs == self.commits@,
                stop_v == crate::codec::opt_view(*stop),
                ahead(cs, key@, start@, stop_v, n as nat) == out@.map_values(|s: String| s@) + ahead(
                    cs,
                    key@,
                    cur@,
                    stop_v,
                    left as nat,
                ),
            decreases left,
        {
            let at_stop = match stop {
                Some(s) => *s == cur,
                None => false,
            };
            if at_stop {
                proof {
                    assert(out@.map_values(|s: String| s@) + Seq::<Seq<char>>::empty() =~= out@.map_values(|s: String| s@));
                }
                return out;
            }
            let ghost before = out@.map_values(|s: String| s@);
            let ghost here = cur@;
            let loaded = self.load_commit(key, &cur);
            let next = match loaded {
                Ok(c) => clone_opt(&c.parent),
                Err(_) => None,
            };
            out.push(cur);
            proof {
                assert(out@.map_values(|s: String| s@) =~= before + seq![here]);
            }
            match next {
                None => {
                    return out;
                },
                Some(p) => {
                    cur = p;
                },
            }
            proof {
                assert(before + (seq![here] + ahead(cs, key@, cur@, stop_v, (left - 1) as nat)) =~= out@.map_values(|s: String| s@) + ahead(cs, key@, cur@, stop_v, (left - 1) as nat));
            }
            left = left - 1;
        }
        proof {
            assert(out@.map_values(|s: String| s@) + Seq::<Seq<char>>::empty() =~= out@.map_values(|s: String| s@));
        }
        out
    }

    /// The local commits the remote does not have: from HEAD back through
    /// the parents up to the remembered remote HEAD, newest first.
    pub fn commits_ahead_of_remote(&self, key: &[u8]) -> (r: Vec<String>)
        requires
            self.wf(),
            key@.len() == KEY_LEN,
        ensures
            match self.head {
                None => r@.len() == 0,
                Some(h) => r@.map_values(|s: String| s@) == ahead(
                    self.commits@,
                    key@,
                    h@,
                    crate::codec::opt_view(self.remote_head),
                    walk_bound(None, self.commits.size()),
                ),
            },
    {
        match &self.head {
            None => Vec::new(),
            Some(h) => {
                let cap = self.walk_cap(None);
                self.walk_until(key, h, &self.remote_head, cap)
            },
        }
    }

    /// The newest commit that the histories of `local_head` and
    /// `remote_head` share.
    pub fn find_common_ancestor(&self, key: &[u8], local_head: &String, remote_head: &String) -> (r: Option<String>)
        requires
            self.wf(),
            key@.len() == KEY_LEN,
        ensures
            crate::codec::opt_view(r) == first_in(
                chain(self.commits@, key@, remote_head@, walk_bound(None, self.commits.size())),
                chain(self.commits@, key@, local_head@, walk_bound(None, self.commits.size())),
            ),
    {
        let cap = self.walk_cap(None);
        let none: Option<String> = None;
        let local = self.walk_until(key, local_head, &none, cap);
        let remote = self.walk_until(key, remote_head, &none, cap);
        let ghost lv = local@.map_values(|s: String| s@);
        let ghost rv = remote@.map_values(|s: String| s@);
        assert(crate::codec::opt_view(none) == None::<Seq<char>>);
        assert(rv == chain(self.commits@, key@, remote_head@, walk_bound(None, self.commits.size())));
        assert(lv == chain(self.commits@, key@, local_head@, walk_bound(None, self.commits.size())));
        let mut i: usize = 0;
        assert(rv.subrange(0, rv.len() as int) =~= rv);
        while i < remote.len()
            invariant
                i <= remote@.len(),
                rv == remote@.map_values(|s: String| s@),
                lv == local@.map_values(|s: String| s@),
                rv == chain(self.commits@, key@, remote_head@, walk_bound(None, self.commits.size())),
                lv == chain(self.commits@, key@, local_head@, walk_bound(None, self.commits.size())),
                first_in(rv, lv) == first_in(rv.subrange(i as int, rv.len() as int), lv),
            decreases remote@.len() - i,
        {
            let mut found = false;
            let mut j: usize = 0;
            while j < local.len()
                invariant
                    j <= local@.len(),
                    i < remote@.len(),
                    rv == remote@.map_values(|s: String| s@),
                    lv == local@.map_values(|s: String| s@),
                    found == (exists|k: int| 0 <= k < j && lv[k] == rv[i as int]),
                decreases local@.len() - j,
            {
                if local[j] == remote[i] {
                    found = true;
                }
                proof {
                    assert(lv[j as int] == local@[j as int]@);
                    assert(rv[i as int] == remote@[i as int]@);
                }
                j = j + 1;
            }
            let ghost tail = rv.subrange(i as int, rv.len() as int);
            assert(tail[0] == rv[i as int]);
            if found {
                proof {
                    assert(lv.contains(rv[i as int]));
                    assert(rv[i as int] == remote@[i as int]@);
                }
                return Some(remote[i].clone());
            }
            proof {
                assert(!lv.contains(rv[i as int]));
                assert(tail.drop_first() =~= rv.subrange(i + 1, rv.len() as int));
            }
            i = i + 1;
        }
        None
    }

    /// The manifest address of the commit at HEAD, when HEAD is set and its
    /// commit loads.
    pub fn get_head_manifest_hash(&self, key: &[u8]) -> (r: Option<String>)
        requires
            self.wf(),
            key@.len() == KEY_LEN,
        ensures
            match self.head {
                None => r is None,
                Some(h) => match stored_commit(self.commits@, key@, h@) {
                    Ok(c) => r matches Some(m) && m@ == c.manifest_hash,
                    Err(_) => r is None,
                },
            },
    {
        match &self.head {
            None => None,
            Some(h) => match self.load_commit(key, h) {
                Ok(c) => Some(c.manifest_hash),
                Err(_) => None,
            },
        }
    }
}

} // verus!
