use envy::envelope::{decrypt_bytes_with_key, encrypt_bytes_with_key};
use envy::error::ErrorKind;
use envy::manifest::Manifest;
use envy::repo::{CommitOutcome, Repo};
use envy::store::BlobStore;
use envy::sync::{commit, commit_with_time, PushPlan, Status};

fn key() -> Vec<u8> {
    vec![9u8; 32]
}

struct Remote {
    blobs: BlobStore,
    commits: BlobStore,
    head: Option<String>,
}

impl Remote {
    fn new() -> Remote {
        Remote { blobs: BlobStore::new(), commits: BlobStore::new(), head: None }
    }
}

fn track(repo: &mut Repo, path: &str, contents: &[u8]) -> String {
    let k = key();
    let blob = encrypt_bytes_with_key(contents, &k).unwrap();
    let addr = repo.blobs.put(blob);
    let mut m = repo.working_manifest(&k).unwrap();
    m.insert(path.to_string(), addr.clone());
    repo.save_manifest(&k, &m).unwrap();
    addr
}

fn created(o: CommitOutcome) -> String {
    match o {
        CommitOutcome::Created(a) => a,
        CommitOutcome::NothingToCommit => panic!("expected a new commit"),
    }
}

fn push(repo: &mut Repo, remote: &mut Remote) -> Result<(), ErrorKind> {
    let k = key();
    match repo.plan_push(&k, &remote.head)? {
        PushPlan::NothingToPush | PushPlan::UpToDate => Ok(()),
        PushPlan::Upload(u) => {
            for a in u.blobs.iter().chain(std::iter::once(&u.manifest)) {
                remote.blobs.load_entry(a.clone(), repo.blobs.get(a).unwrap().clone());
            }
            for a in &u.commits {
                remote.commits.load_entry(a.clone(), repo.commits.get(a).unwrap().clone());
            }
            let accepted = remote.head == u.expected_head;
            if accepted {
                remote.head = Some(u.new_head.clone());
            }
            repo.finish_push(&u, accepted)
        }
    }
}

fn pull(repo: &mut Repo, remote: &Remote) -> Result<Vec<String>, ErrorKind> {
    let k = key();
    let mut fetched = Vec::new();
    if !repo.pull_needed(&remote.head) {
        return Ok(fetched);
    }
    let h = remote.head.clone().unwrap();
    let mut next = repo.missing_commit(&h);
    while let Some(a) = next {
        let bytes = remote.commits.get(&a).ok_or(ErrorKind::NotFoundError)?.clone();
        next = repo.receive_commit(&k, &a, bytes)?;
    }
    loop {
        let missing = repo.missing_blobs(&k, &h)?;
        if missing.is_empty() {
            break;
        }
        for a in missing {
            let bytes = remote.blobs.get(&a).ok_or(ErrorKind::NotFoundError)?.clone();
            repo.receive_blob(&a, bytes)?;
            fetched.push(a);
        }
    }
    repo.restore_files(&k, &h)?;
    repo.finish_pull(&k, &h)?;
    Ok(fetched)
}

#[test]
fn fresh_project_is_empty_and_first_commit_has_no_parent() {
    let k = key();
    let mut repo = Repo::new();
    assert_eq!(repo.status(&k), Ok(Status::Empty));
    let a = created(commit_with_time(&mut repo, &k, "msg".to_string(), None, 100).unwrap());
    assert_eq!(repo.head, Some(a.clone()));
    let c = repo.load_commit(&k, &a).unwrap();
    assert_eq!(c.parent, None);
    assert_eq!(c.message, "msg");
    assert_eq!(c.timestamp, 100);
    assert!(repo.load_manifest(&k, &c.manifest_hash).unwrap().entries().is_empty());
}

#[test]
fn identical_files_commit_nothing() {
    let k = key();
    let mut repo = Repo::new();
    let mut m = Manifest::new();
    m.insert("a.env".to_string(), "hashA".to_string());
    repo.save_manifest(&k, &m).unwrap();
    let first = created(commit(&mut repo, &k, "one".to_string(), None).unwrap());
    repo.save_manifest(&k, &m).unwrap();
    assert_eq!(commit(&mut repo, &k, "two".to_string(), None), Ok(CommitOutcome::NothingToCommit));
    assert_eq!(repo.head, Some(first));
}

#[test]
fn push_sends_only_the_new_commit_and_its_manifest() {
    let k = key();
    let mut repo = Repo::new();
    let mut remote = Remote::new();
    track(&mut repo, "a.env", b"A=1");
    let c1 = created(commit_with_time(&mut repo, &k, "c1".to_string(), None, 1).unwrap());
    push(&mut repo, &mut remote).unwrap();
    assert_eq!(remote.head, Some(c1.clone()));
    assert_eq!(repo.remote_head, Some(c1.clone()));

    let b2 = track(&mut repo, "b.env", b"B=2");
    let c2 = created(commit_with_time(&mut repo, &k, "c2".to_string(), None, 2).unwrap());
    let m2 = repo.load_commit(&k, &c2).unwrap().manifest_hash;
    let expected_blobs = repo.load_manifest(&k, &m2).unwrap().blob_addresses();
    assert!(expected_blobs.contains(&b2));
    match repo.plan_push(&k, &remote.head).unwrap() {
        PushPlan::Upload(u) => {
            assert_eq!(u.blobs, expected_blobs);
            assert_eq!(u.manifest, m2);
            assert_eq!(u.commits, vec![c2.clone()]);
            assert_eq!(u.expected_head, Some(c1.clone()));
            assert_eq!(u.new_head, c2);
        }
        _ => panic!("expected an upload"),
    }
    push(&mut repo, &mut remote).unwrap();
    assert_eq!(remote.head, Some(c2.clone()));
    assert_eq!(repo.applied, Some(m2));
    assert!(matches!(repo.plan_push(&k, &remote.head), Ok(PushPlan::UpToDate)));
}

#[test]
fn push_without_commits_does_nothing() {
    let repo = Repo::new();
    assert!(matches!(repo.plan_push(&key(), &None), Ok(PushPlan::NothingToPush)));
}

#[test]
fn push_refuses_a_moved_remote() {
    let k = key();
    let mut repo = Repo::new();
    track(&mut repo, "a.env", b"A=1");
    commit_with_time(&mut repo, &k, "c1".to_string(), None, 1).unwrap();
    let moved = Some("f".repeat(64));
    assert!(matches!(repo.plan_push(&k, &moved), Err(ErrorKind::ConcurrencyConflict)));
}

#[test]
fn pull_fetches_history_and_restores_files() {
    let k = key();
    let mut a = Repo::new();
    let mut remote = Remote::new();
    track(&mut a, "x.env", b"X=1");
    created(commit_with_time(&mut a, &k, "c1".to_string(), None, 1).unwrap());
    track(&mut a, "y.env", b"Y=2");
    let c2 = created(commit_with_time(&mut a, &k, "c2".to_string(), None, 2).unwrap());
    push(&mut a, &mut remote).unwrap();

    let mut b = Repo::new();
    pull(&mut b, &remote).unwrap();
    assert_eq!(b.head, Some(c2.clone()));
    assert_eq!(b.remote_head, Some(c2.clone()));
    let history = b.walk_history(&k, &c2, None).unwrap();
    assert_eq!(history.len(), 2);
    for (h, _) in &history {
        assert!(b.commit_exists(h));
    }
    let files = b.restore_files(&k, &c2).unwrap();
    assert_eq!(files, vec![("x.env".to_string(), b"X=1".to_vec()), ("y.env".to_string(), b"Y=2".to_vec())]);
    assert_eq!(b.status(&k), Ok(Status::UpToDate));
    assert!(!b.pull_needed(&remote.head));
}

#[test]
fn pull_downloads_only_the_missing_blob() {
    let k = key();
    let mut a = Repo::new();
    let mut remote = Remote::new();
    let x = track(&mut a, "x.env", b"X=1");
    let y = track(&mut a, "y.env", b"Y=2");
    let c1 = created(commit_with_time(&mut a, &k, "c1".to_string(), None, 1).unwrap());
    push(&mut a, &mut remote).unwrap();

    let mut b = Repo::new();
    let mut next = b.missing_commit(&c1);
    while let Some(h) = next {
        next = b.receive_commit(&k, &h, remote.commits.get(&h).unwrap().clone()).unwrap();
    }
    let manifest = b.missing_blobs(&k, &c1).unwrap();
    assert_eq!(manifest.len(), 1);
    b.receive_blob(&manifest[0], remote.blobs.get(&manifest[0]).unwrap().clone()).unwrap();
    b.receive_blob(&x, remote.blobs.get(&x).unwrap().clone()).unwrap();
    assert_eq!(b.missing_blobs(&k, &c1).unwrap(), vec![y.clone()]);
    assert_eq!(pull(&mut b, &remote).unwrap(), vec![y]);
}

#[test]
fn concurrent_pushes_one_wins() {
    let k = key();
    let mut remote = Remote::new();
    let mut a = Repo::new();
    track(&mut a, "x.env", b"X=1");
    commit_with_time(&mut a, &k, "base".to_string(), None, 1).unwrap();
    push(&mut a, &mut remote).unwrap();
    let mut b = Repo::new();
    pull(&mut b, &remote).unwrap();

    track(&mut a, "x.env", b"X=2");
    let ca = created(commit_with_time(&mut a, &k, "from a".to_string(), None, 2).unwrap());
    track(&mut b, "x.env", b"X=3");
    commit_with_time(&mut b, &k, "from b".to_string(), None, 3).unwrap();

    let before = (b.head.clone(), b.remote_head.clone(), b.applied.clone());
    let plan_b = match b.plan_push(&k, &remote.head).unwrap() {
        PushPlan::Upload(u) => u,
        _ => panic!("expected an upload"),
    };
    push(&mut a, &mut remote).unwrap();
    assert_eq!(remote.head, Some(ca));
    let accepted = remote.head == plan_b.expected_head;
    assert!(!accepted);
    assert_eq!(b.finish_push(&plan_b, accepted), Err(ErrorKind::ConcurrencyConflict));
    assert_eq!((b.head.clone(), b.remote_head.clone(), b.applied.clone()), before);
    assert!(matches!(b.plan_push(&k, &remote.head), Err(ErrorKind::ConcurrencyConflict)));
}

#[test]
fn status_follows_the_refs() {
    let k = key();
    let mut repo = Repo::new();
    let mut remote = Remote::new();
    track(&mut repo, "a.env", b"A=1");
    assert_eq!(repo.status(&k), Ok(Status::UncommittedChanges));
    created(commit_with_time(&mut repo, &k, "c1".to_string(), None, 1).unwrap());
    assert_eq!(repo.status(&k), Ok(Status::UnpushedCommits));
    push(&mut repo, &mut remote).unwrap();
    assert_eq!(repo.status(&k), Ok(Status::UpToDate));
    repo.applied = None;
    assert_eq!(repo.status(&k), Ok(Status::NotApplied));
    repo.remote_head = Some("0".repeat(64));
    assert_eq!(repo.status(&k), Ok(Status::BehindRemote));
    repo.head = Some("1".repeat(64));
    assert_eq!(repo.status(&k), Ok(Status::MissingData));
}

#[test]
fn history_walks() {
    let k = key();
    let mut repo = Repo::new();
    track(&mut repo, "a.env", b"1");
    let c1 = created(commit_with_time(&mut repo, &k, "1".to_string(), None, 1).unwrap());
    track(&mut repo, "a.env", b"2");
    let c2 = created(commit_with_time(&mut repo, &k, "2".to_string(), None, 2).unwrap());
    track(&mut repo, "a.env", b"3");
    let c3 = created(commit_with_time(&mut repo, &k, "3".to_string(), None, 3).unwrap());

    let all = repo.walk_history(&k, &c3, None).unwrap();
    let hashes: Vec<String> = all.iter().map(|(h, _)| h.clone()).collect();
    assert_eq!(hashes, vec![c3.clone(), c2.clone(), c1.clone()]);
    assert_eq!(repo.walk_history(&k, &c3, Some(2)).unwrap().len(), 2);
    assert_eq!(repo.commits_ahead_of_remote(&k), vec![c3.clone(), c2.clone(), c1.clone()]);
    repo.remote_head = Some(c1.clone());
    assert_eq!(repo.commits_ahead_of_remote(&k), vec![c3.clone(), c2.clone()]);
    assert_eq!(repo.find_common_ancestor(&k, &c3, &c2), Some(c2.clone()));
    assert_eq!(repo.find_common_ancestor(&k, &c1, &c3), Some(c1.clone()));
    assert_eq!(repo.get_head_manifest_hash(&k), Some(repo.load_commit(&k, &c3).unwrap().manifest_hash));
    assert_eq!(repo.walk_history(&k, &"9".repeat(64), None).err(), Some(ErrorKind::NotFoundError));
    assert_eq!(repo.walk_history(&k, &c3, None).unwrap()[0].1.message, "3");
    assert_eq!(repo.walk_history(&[1u8; 32], &c3, None).err(), Some(ErrorKind::CryptoError));
}

#[test]
fn tampered_download_is_refused() {
    let k = key();
    let mut repo = Repo::new();
    let blob = encrypt_bytes_with_key(b"Z=1", &k).unwrap();
    let addr = envy::store::address(&blob);
    let mut bad = blob.clone();
    bad[30] ^= 1;
    assert_eq!(repo.receive_blob(&addr, bad.clone()), Err(ErrorKind::IntegrityError));
    assert_eq!(repo.receive_commit(&k, &addr, bad), Err(ErrorKind::IntegrityError));
    assert_eq!(repo.receive_commit(&k, &addr, blob.clone()), Err(ErrorKind::VersionError));
    assert_eq!(decrypt_bytes_with_key(&blob, &k).unwrap(), b"Z=1".to_vec());
    assert!(!repo.commit_exists(&addr));
}

#[test]
fn finish_pull_needs_the_whole_history() {
    let k = key();
    let mut a = Repo::new();
    track(&mut a, "x.env", b"X=1");
    let c1 = created(commit_with_time(&mut a, &k, "c1".to_string(), None, 1).unwrap());
    track(&mut a, "x.env", b"X=2");
    let c2 = created(commit_with_time(&mut a, &k, "c2".to_string(), None, 2).unwrap());

    let mut b = Repo::new();
    let next = b.receive_commit(&k, &c2, a.commits.get(&c2).unwrap().clone()).unwrap();
    assert_eq!(next, Some(c1.clone()));
    assert_eq!(b.finish_pull(&k, &c2), Err(ErrorKind::NotFoundError));
    assert_eq!(b.head, None);
}

#[test]
fn cyclic_history_is_malformed() {
    let k = key();
    let mut repo = Repo::new();
    let a = "a".repeat(64);
    let b = "b".repeat(64);
    let ca = envy::commit::Commit::at(Some(b.clone()), "a".to_string(), "m".to_string(), None, 1);
    let cb = envy::commit::Commit::at(Some(a.clone()), "b".to_string(), "m".to_string(), None, 2);
    repo.commits.load_entry(a.clone(), encrypt_bytes_with_key(&ca.encode(), &k).unwrap());
    repo.commits.load_entry(b.clone(), encrypt_bytes_with_key(&cb.encode(), &k).unwrap());
    assert_eq!(repo.walk_history(&k, &a, None).err(), Some(ErrorKind::MalformedData));
    assert_eq!(repo.walk_history(&k, &a, Some(2)).unwrap().len(), 2);
    assert_eq!(repo.finish_pull(&k, &a), Err(ErrorKind::MalformedData));
}

#[test]
fn saved_commit_loads_back() {
    let k = key();
    let mut repo = Repo::new();
    let c = envy::commit::Commit::at(None, "m".to_string(), "x".repeat(64), Some("ana".to_string()), 7);
    let h = repo.save_commit(&k, &c).unwrap();
    let back = repo.load_commit(&k, &h).unwrap();
    assert_eq!((back.parent, back.message, back.manifest_hash, back.author, back.timestamp), (c.parent, c.message, c.manifest_hash, c.author, c.timestamp));
}
