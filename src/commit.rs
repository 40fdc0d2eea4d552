//! Commits: immutable records linking a manifest snapshot to the commit
//! before it.
use crate::codec::{
    lemma_parse_opt_str, lemma_parse_str, lemma_parse_u64, opt_str_bytes, opt_str_fits,
    opt_view, parse_opt_str, parse_str, parse_u64, push_opt_str, push_str, push_u64, read_opt_str,
    read_str, read_u64, str_bytes, str_fits, u64_bytes,
};
use crate::error::ErrorKind;
use crate::codec::{concat_str, decimal, decimal_of};
use crate::primitives::unix_now;
use vstd::prelude::*;

verus! {

pub const COMMIT_VERSION: u8 = 1;

/// Where commit blobs are cached, relative to the project root.
pub const COMMITS_DIR: &'static str = ".envoy/cache/commits/";

/// What a commit holds, as mathematical values.
pub struct CommitV {
    pub version: u8,
    pub parent: Option<Seq<char>>,
    pub timestamp: u64,
    pub message: Seq<char>,
    pub manifest_hash: Seq<char>,
    pub author: Option<Seq<char>>,
}

/// A commit: its parent's address (none for the first), when it was made
/// (Unix seconds), its message, the address of its manifest, and its author.
#[derive(Debug, Clone)]
pub struct Commit {
    pub version: u8,
    pub parent: Option<String>,
    pub timestamp: u64,
    pub message: String,
    pub manifest_hash: String,
    pub author: Option<String>,
}

impl View for Commit {
    type V = CommitV;

    open spec fn view(&self) -> CommitV {
        CommitV {
            version: self.version,
            parent: opt_view(self.parent),
            timestamp: self.timestamp,
            message: self.message@,
            manifest_hash: self.manifest_hash@,
            author: opt_view(self.author),
        }
    }
}

/// Every string of the commit fits its length prefix.
pub open spec fn commit_fits(c: CommitV) -> bool {
    &&& opt_str_fits(c.parent)
    &&& str_fits(c.message)
    &&& str_fits(c.manifest_hash)
    &&& opt_str_fits(c.author)
}

/// The plaintext of a commit: version byte, parent, timestamp, message,
/// manifest address, author.
pub open spec fn commit_bytes(c: CommitV) -> Seq<u8> {
    seq![c.version] + opt_str_bytes(c.parent) + u64_bytes(c.timestamp) + str_bytes(c.message)
        + str_bytes(c.manifest_hash) + opt_str_bytes(c.author)
}

/// The commit a plaintext holds, when it is one of version `COMMIT_VERSION`
/// with nothing after the author.
pub open spec fn parse_commit(b: Seq<u8>) -> Option<CommitV> {
    if b.len() >= 1 && b[0] == COMMIT_VERSION {
        match parse_opt_str(b, 1) {
            None => None,
            Some((parent, after_parent)) => match parse_u64(b, after_parent) {
                None => None,
                Some((timestamp, after_time)) => match parse_str(b, after_time) {
                    None => None,
                    Some((message, after_message)) => match parse_str(b, after_message) {
                        None => None,
                        Some((manifest_hash, after_hash)) => match parse_opt_str(b, after_hash) {
                            None => None,
                            Some((author, end)) => if end == b.len() {
                                Some(
                                    CommitV {
                                        version: COMMIT_VERSION,
                                        parent,
                                        timestamp,
                                        message,
                                        manifest_hash,
                                        author,
                                    },
                                )
                            } else {
                                None
                            },
                        },
                    },
                },
            },
        }
    } else {
        None
    }
}

/// What reading a commit plaintext gives: a version error for another
/// version byte, malformed data when the rest does not parse exactly.
pub open spec fn decoded_commit(b: Seq<u8>) -> Result<CommitV, ErrorKind> {
    if b.len() == 0 {
        Err(ErrorKind::MalformedData)
    } else if b[0] != COMMIT_VERSION {
        Err(ErrorKind::VersionError)
    } else {
        match parse_commit(b) {
            Some(c) => Ok(c),
            None => Err(ErrorKind::MalformedData),
        }
    }
}

pub open spec fn commit_result(r: Result<Commit, ErrorKind>) -> Result<CommitV, ErrorKind> {
    match r {
        Ok(c) => Ok(c@),
        Err(e) => Err(e),
    }
}

/// Parsing the plaintext of a commit of the current version gives it back.
pub proof fn lemma_commit_round_trip(c: CommitV)
    requires
        c.version == COMMIT_VERSION,
        commit_fits(c),
    ensures
        parse_commit(commit_bytes(c)) == Some(c),
        decoded_commit(commit_bytes(c)) == Ok::<CommitV, ErrorKind>(c),
{
    let b = commit_bytes(c);
    let a0 = seq![c.version];
    let a1 = opt_str_bytes(c.parent);
    let a2 = u64_bytes(c.timestamp);
    let a3 = str_bytes(c.message);
    let a4 = str_bytes(c.manifest_hash);
    let a5 = opt_str_bytes(c.author);
    vstd::bytes::lemma_auto_spec_u64_to_from_le_bytes();
    let after_parent = 1 + a1.len();
    let after_time = after_parent + a2.len();
    let after_message = after_time + a3.len();
    let after_hash = after_message + a4.len();
    assert(b.subrange(1, after_parent as int) =~= a1);
    lemma_parse_opt_str(b, 1, c.parent);
    assert(b.subrange(after_parent as int, after_time as int) =~= a2);
    lemma_parse_u64(b, after_parent as int, c.timestamp);
    assert(b.subrange(after_time as int, after_message as int) =~= a3);
    lemma_parse_str(b, after_time as int, c.message);
    assert(b.subrange(after_message as int, after_hash as int) =~= a4);
    lemma_parse_str(b, after_message as int, c.manifest_hash);
    assert(b.subrange(after_hash as int, b.len() as int) =~= a5);
    lemma_parse_opt_str(b, after_hash as int, c.author);
}

impl Commit {
    /// A commit stamped with the given time.
    pub fn at(
        parent: Option<String>,
        message: String,
        manifest_hash: String,
        author: Option<String>,
        timestamp: u64,
    ) -> (r: Self)
        ensures
            r.version == COMMIT_VERSION,
            r.parent == parent,
            r.message == message,
            r.manifest_hash == manifest_hash,
            r.author == author,
            r.timestamp == timestamp,
    {
        Commit { version: COMMIT_VERSION, parent, timestamp, message, manifest_hash, author }
    }

    /// A commit stamped with the current time.
    pub fn new(
        parent: Option<String>,
        message: String,
        manifest_hash: String,
        author: Option<String>,
    ) -> (r: Self)
        ensures
            r.version == COMMIT_VERSION,
            r.parent == parent,
            r.message == message,
            r.manifest_hash == manifest_hash,
            r.author == author,
    {
        let timestamp = unix_now();
        Commit::at(parent, message, manifest_hash, author, timestamp)
    }

    /// The plaintext that gets sealed.
    pub fn encode(&self) -> (r: Vec<u8>)
        ensures
            r@ == commit_bytes(self@),
            commit_fits(self@),
    {
        let mut out: Vec<u8> = Vec::new();
        out.push(self.version);
        push_opt_str(&mut out, &self.parent);
        push_u64(&mut out, self.timestamp);
        push_str(&mut out, self.message.as_str());
        push_str(&mut out, self.manifest_hash.as_str());
        push_opt_str(&mut out, &self.author);
        assert(out@ =~= commit_bytes(self@));
        out
    }

    /// Reads a commit plaintext.
    pub fn decode(b: &[u8]) -> (r: Result<Commit, ErrorKind>)
        ensures
            commit_result(r) == decoded_commit(b@),
            r matches Ok(c) ==> commit_fits(c@),
    {
        if b.len() == 0 {
            return Err(ErrorKind::MalformedData);
        }
        if b[0] != COMMIT_VERSION {
            return Err(ErrorKind::VersionError);
        }
        let (parent, after_parent) = match read_opt_str(b, 1) {
            None => return Err(ErrorKind::MalformedData),
            Some(x) => x,
        };
        let (timestamp, after_time) = match read_u64(b, after_parent) {
            None => return Err(ErrorKind::MalformedData),
            Some(x) => x,
        };
        let (message, after_message) = match read_str(b, after_time) {
            None => return Err(ErrorKind::MalformedData),
            Some(x) => x,
        };
        let (manifest_hash, after_hash) = match read_str(b, after_message) {
            None => return Err(ErrorKind::MalformedData),
            Some(x) => x,
        };
        let (author, end) = match read_opt_str(b, after_hash) {
            None => return Err(ErrorKind::MalformedData),
            Some(x) => x,
        };
        if end != b.len() {
            return Err(ErrorKind::MalformedData);
        }
        Ok(Commit { version: COMMIT_VERSION, parent, timestamp, message, manifest_hash, author })
    }
}

/// The path of a commit's blob, relative to the project root.
pub fn commit_blob_path(commit_hash: &str) -> (r: String)
    ensures
        r@ == COMMITS_DIR@ + commit_hash@ + ".blob"@,
{
    let dir = concat_str(COMMITS_DIR, commit_hash);
    concat_str(dir.as_str(), ".blob")
}

/// How long ago `timestamp` was, seen at `now`, in the largest unit that
/// fits: seconds, minutes, hours, days, weeks (of 7 days) or months (of 30
/// days). A timestamp later than `now` is shown as the number itself.
pub open spec fn age_text(timestamp: u64, now: u64) -> Seq<char> {
    if now < timestamp {
        decimal_of(timestamp as nat)
    } else {
        let secs = (now - timestamp) as nat;
        if secs < 60 {
            decimal_of(secs) + " seconds ago"@
        } else if secs < 3600 {
            decimal_of(secs / 60) + " minutes ago"@
        } else if secs < 86400 {
            decimal_of(secs / 3600) + " hours ago"@
        } else if secs < 604800 {
            decimal_of(secs / 86400) + " days ago"@
        } else if secs < 2592000 {
            decimal_of(secs / 604800) + " weeks ago"@
        } else {
            decimal_of(secs / 2592000) + " months ago"@
        }
    }
}

/// Renders the age of a commit for a history listing.
pub fn format_timestamp(timestamp: u64, now: u64) -> (r: String)
    ensures
        r@ == age_text(timestamp, now),
{
    if now < timestamp {
        return decimal(timestamp);
    }
    let secs = now - timestamp;
    if secs < 60 {
        let n = decimal(secs);
        concat_str(n.as_str(), " seconds ago")
    } else if secs < 3600 {
        let n = decimal(secs / 60);
        concat_str(n.as_str(), " minutes ago")
    } else if secs < 86400 {
        let n = decimal(secs / 3600);
        concat_str(n.as_str(), " hours ago")
    } else if secs < 604800 {
        let n = decimal(secs / 86400);
        concat_str(n.as_str(), " days ago")
    } else if secs < 2592000 {
        let n = decimal(secs / 604800);
        concat_str(n.as_str(), " weeks ago")
    } else {
        let n = decimal(secs / 2592000);
        concat_str(n.as_str(), " months ago")
    }
}

} // verus!
