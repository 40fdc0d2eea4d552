//! The manifest: a snapshot mapping tracked file paths to the addresses of
//! their encrypted blobs.
//!
//! Entries are kept sorted by the UTF-8 bytes of their paths, so a mapping
//! has exactly one entry sequence. Its encoding, and the fingerprint hashed
//! from it, therefore depend on the mapping alone, never on the order in
//! which paths were added or on encryption randomness.
use crate::codec::{
    bytes_lt, less_bytes, lemma_bytes_lt_irreflexive, lemma_bytes_lt_total,
    lemma_bytes_lt_transitive, lemma_parse_str, lemma_parse_u64, lemma_utf8_injective, parse_str,
    parse_u64, push_str, push_u64, read_str, read_u64, str_bytes, str_fits, u64_bytes, holds_at,
};
use crate::error::ErrorKind;
use crate::store::{address, address_of};
use vstd::prelude::*;
use vstd::utf8::encode_utf8;

verus! {

pub const MANIFEST_VERSION: u8 = 1;

/// Paths ordered by their UTF-8 bytes.
pub open spec fn path_lt(a: Seq<char>, b: Seq<char>) -> bool {
    bytes_lt(encode_utf8(a), encode_utf8(b))
}

pub open spec fn sorted_by_path(s: Seq<(Seq<char>, Seq<char>)>) -> bool {
    forall|i: int, j: int| 0 <= i < j < s.len() ==> path_lt(#[trigger] s[i].0, #[trigger] s[j].0)
}

pub open spec fn has_path(s: Seq<(Seq<char>, Seq<char>)>, k: Seq<char>) -> bool {
    exists|i: int| 0 <= i < s.len() && s[i].0 == k
}

/// A position of path `k` in `s`, if it has one.
pub open spec fn path_index(s: Seq<(Seq<char>, Seq<char>)>, k: Seq<char>) -> int {
    choose|i: int| 0 <= i < s.len() && s[i].0 == k
}

/// The mapping an entry sequence stands for.
pub open spec fn files_of(s: Seq<(Seq<char>, Seq<char>)>) -> Map<Seq<char>, Seq<char>> {
    Map::new(|k: Seq<char>| has_path(s, k), |k: Seq<char>| s[path_index(s, k)].1)
}

pub open spec fn pairs_view(v: Seq<(String, String)>) -> Seq<(Seq<char>, Seq<char>)> {
    v.map_values(|e: (String, String)| (e.0@, e.1@))
}

pub open spec fn entries_fit(s: Seq<(Seq<char>, Seq<char>)>) -> bool {
    forall|i: int| 0 <= i < s.len() ==> str_fits(#[trigger] s[i].0) && str_fits(s[i].1)
}

/// The encoding of the entries, one path and one address after another.
pub open spec fn entries_bytes(s: Seq<(Seq<char>, Seq<char>)>) -> Seq<u8>
    decreases s.len(),
{
    if s.len() == 0 {
        Seq::empty()
    } else {
        entries_bytes(s.drop_last()) + str_bytes(s.last().0) + str_bytes(s.last().1)
    }
}

/// The canonical form of a mapping's entries: their count, then the entries.
pub open spec fn canonical_bytes(s: Seq<(Seq<char>, Seq<char>)>) -> Seq<u8> {
    u64_bytes(s.len() as u64) + entries_bytes(s)
}

/// The whole plaintext of a manifest: version byte, then the canonical form.
pub open spec fn manifest_bytes(version: u8, s: Seq<(Seq<char>, Seq<char>)>) -> Seq<u8> {
    seq![version] + canonical_bytes(s)
}

/// The content fingerprint: the address of the canonical form.
pub open spec fn fingerprint_of(s: Seq<(Seq<char>, Seq<char>)>) -> Seq<char> {
    address_of(canonical_bytes(s))
}

/// Reads `n` entries starting at `pos`.
pub open spec fn parse_entries(b: Seq<u8>, pos: int, n: nat) -> Option<(Seq<(Seq<char>, Seq<char>)>, int)>
    decreases n,
{
    if n == 0 {
        Some((Seq::empty(), pos))
    } else {
        match parse_entries(b, pos, (n - 1) as nat) {
            None => None,
            Some((acc, p)) => match parse_str(b, p) {
                None => None,
                Some((k, after_key)) => match parse_str(b, after_key) {
                    None => None,
                    Some((v, after_value)) => Some((acc.push((k, v)), after_value)),
                },
            },
        }
    }
}

/// The entries of a manifest plaintext, when it is one of version `MANIFEST_VERSION`
/// with nothing after the last entry.
pub open spec fn parse_manifest(b: Seq<u8>) -> Option<Seq<(Seq<char>, Seq<char>)>> {
    if b.len() >= 1 && b[0] == MANIFEST_VERSION {
        match parse_u64(b, 1) {
            None => None,
            Some((n, p)) => match parse_entries(b, p, n as nat) {
                None => None,
                Some((s, end)) => if end == b.len() {
                    Some(s)
                } else {
                    None
                },
            },
        }
    } else {
        None
    }
}

/// What reading a manifest plaintext gives: a version error for another
/// version byte, malformed data when the rest does not parse exactly or the
/// paths are out of order.
pub open spec fn decoded_manifest(b: Seq<u8>) -> Result<Seq<(Seq<char>, Seq<char>)>, ErrorKind> {
    if b.len() == 0 {
        Err(ErrorKind::MalformedData)
    } else if b[0] != MANIFEST_VERSION {
        Err(ErrorKind::VersionError)
    } else {
        match parse_manifest(b) {
            Some(s) => if sorted_by_path(s) {
                Ok(s)
            } else {
                Err(ErrorKind::MalformedData)
            },
            None => Err(ErrorKind::MalformedData),
        }
    }
}

pub open spec fn manifest_result(r: Result<Manifest, ErrorKind>) -> Result<Seq<(Seq<char>, Seq<char>)>, ErrorKind> {
    match r {
        Ok(m) => Ok(m@),
        Err(e) => Err(e),
    }
}

proof fn lemma_sorted_distinct(s: Seq<(Seq<char>, Seq<char>)>, i: int, j: int)
    requires
        sorted_by_path(s),
        0 <= i < s.len(),
        0 <= j < s.len(),
        i != j,
    ensures
        s[i].0 != s[j].0,
{
    lemma_bytes_lt_irreflexive(encode_utf8(s[i].0));
    if i < j {
        assert(path_lt(s[i].0, s[j].0));
    } else {
        assert(path_lt(s[j].0, s[i].0));
    }
}

/// In a sorted sequence, the mapping gives each entry's own address.
pub proof fn lemma_files_at(s: Seq<(Seq<char>, Seq<char>)>, i: int)
    requires
        sorted_by_path(s),
        0 <= i < s.len(),
    ensures
        files_of(s).contains_key(s[i].0),
        files_of(s)[s[i].0] == s[i].1,
{
    let k = s[i].0;
    assert(has_path(s, k));
    assert(files_of(s).contains_key(k));
    let j = path_index(s, k);
    if j != i {
        lemma_sorted_distinct(s, i, j);
    }
    assert(files_of(s)[k] == s[j].1);
}

proof fn lemma_files_has(s: Seq<(Seq<char>, Seq<char>)>, k: Seq<char>) -> (i: int)
    requires
        sorted_by_path(s),
        files_of(s).contains_key(k),
    ensures
        0 <= i < s.len(),
        s[i].0 == k,
        files_of(s)[k] == s[i].1,
{
    let i = path_index(s, k);
    lemma_files_at(s, i);
    i
}

proof fn lemma_path_lt_total(a: Seq<char>, b: Seq<char>)
    requires
        a != b,
    ensures
        path_lt(a, b) || path_lt(b, a),
{
    if encode_utf8(a) == encode_utf8(b) {
        lemma_utf8_injective(a, b);
    }
    lemma_bytes_lt_total(encode_utf8(a), encode_utf8(b));
}

proof fn lemma_files_drop_first(s: Seq<(Seq<char>, Seq<char>)>)
    requires
        sorted_by_path(s),
        s.len() > 0,
    ensures
        sorted_by_path(s.drop_first()),
        files_of(s.drop_first()) == files_of(s).remove(s[0].0),
{
    let t = s.drop_first();
    assert(sorted_by_path(t)) by {
        assert forall|i: int, j: int| 0 <= i < j < t.len() implies path_lt(#[trigger] t[i].0, #[trigger] t[j].0) by {
            assert(t[i] == s[i + 1] && t[j] == s[j + 1]);
        }
    }
    let m = files_of(s).remove(s[0].0);
    assert forall|k: Seq<char>| #[trigger] files_of(t).contains_key(k) <==> m.contains_key(k) by {
        if files_of(t).contains_key(k) {
            let i = lemma_files_has(t, k);
            lemma_files_at(s, i + 1);
            lemma_sorted_distinct(s, 0, i + 1);
        }
        if m.contains_key(k) {
            let i = lemma_files_has(s, k);
            assert(i != 0);
            lemma_files_at(t, i - 1);
        }
    }
    assert forall|k: Seq<char>| #[trigger] files_of(t).contains_key(k) implies files_of(t)[k] == m[k] by {
        let i = lemma_files_has(t, k);
        lemma_files_at(s, i + 1);
    }
    assert(files_of(t) =~= m);
}

/// Two sorted entry sequences that stand for the same mapping are the same
/// sequence.
pub proof fn lemma_sorted_unique(s1: Seq<(Seq<char>, Seq<char>)>, s2: Seq<(Seq<char>, Seq<char>)>)
    requires
        sorted_by_path(s1),
        sorted_by_path(s2),
        files_of(s1) == files_of(s2),
    ensures
        s1 == s2,
    decreases s1.len() + s2.len(),
{
    if s1.len() == 0 || s2.len() == 0 {
        if s1.len() > 0 {
            lemma_files_at(s1, 0);
        }
        if s2.len() > 0 {
            lemma_files_at(s2, 0);
        }
        assert(s1 =~= s2);
    } else {
        let a = s1[0].0;
        let b = s2[0].0;
        lemma_files_at(s1, 0);
        lemma_files_at(s2, 0);
        if a != b {
            let j = lemma_files_has(s2, a);
            let i = lemma_files_has(s1, b);
            assert(path_lt(b, a)) by {
                assert(j != 0);
                assert(path_lt(s2[0].0, s2[j].0));
            }
            assert(path_lt(a, b)) by {
                assert(i != 0);
                assert(path_lt(s1[0].0, s1[i].0));
            }
            lemma_bytes_lt_transitive(encode_utf8(a), encode_utf8(b), encode_utf8(a));
            lemma_bytes_lt_irreflexive(encode_utf8(a));
        }
        lemma_files_drop_first(s1);
        lemma_files_drop_first(s2);
        lemma_sorted_unique(s1.drop_first(), s2.drop_first());
        assert(s1 =~= seq![s1[0]] + s1.drop_first());
        assert(s2 =~= seq![s2[0]] + s2.drop_first());
    }
}

/// Parsing the encoding of some entries gives them back.
pub proof fn lemma_parse_entries(b: Seq<u8>, pos: int, s: Seq<(Seq<char>, Seq<char>)>)
    requires
        entries_fit(s),
        holds_at(b, pos, entries_bytes(s)),
    ensures
        parse_entries(b, pos, s.len()) == Some((s, pos + entries_bytes(s).len())),
    decreases s.len(),
{
    if s.len() > 0 {
        let t = s.drop_last();
        let e = entries_bytes(s);
        let et = entries_bytes(t);
        let k = s.last().0;
        let v = s.last().1;
        assert(entries_fit(t)) by {
            assert forall|i: int| 0 <= i < t.len() implies str_fits(#[trigger] t[i].0) && str_fits(t[i].1) by {
                assert(t[i] == s[i]);
            }
        }
        assert(str_fits(k) && str_fits(v)) by {
            assert(s[s.len() - 1] == s.last());
        }
        assert(b.subrange(pos, pos + et.len()) =~= e.subrange(0, et.len() as int));
        assert(e.subrange(0, et.len() as int) =~= et);
        lemma_parse_entries(b, pos, t);
        let p = pos + et.len();
        assert(b.subrange(p, p + str_bytes(k).len()) =~= e.subrange(et.len() as int, (et.len() + str_bytes(k).len()) as int));
        assert(e.subrange(et.len() as int, (et.len() + str_bytes(k).len()) as int) =~= str_bytes(k));
        lemma_parse_str(b, p, k);
        let after_key = p + str_bytes(k).len();
        assert(b.subrange(after_key, after_key + str_bytes(v).len()) =~= e.subrange((et.len() + str_bytes(k).len()) as int, e.len() as int));
        assert(e.subrange((et.len() + str_bytes(k).len()) as int, e.len() as int) =~= str_bytes(v));
        lemma_parse_str(b, after_key, v);
        assert(t.push((k, v)) =~= s);
    }
}

/// Parsing a manifest's plaintext gives back its entries.
pub proof fn lemma_parse_manifest(s: Seq<(Seq<char>, Seq<char>)>)
    requires
        entries_fit(s),
        s.len() <= u64::MAX,
    ensures
        parse_manifest(manifest_bytes(MANIFEST_VERSION, s)) == Some(s),
{
    let b = manifest_bytes(MANIFEST_VERSION, s);
    let e = entries_bytes(s);
    vstd::bytes::lemma_auto_spec_u64_to_from_le_bytes();
    assert(b.subrange(1, 9) =~= u64_bytes(s.len() as u64));
    lemma_parse_u64(b, 1, s.len() as u64);
    assert(b.subrange(9, (9 + e.len()) as int) =~= e);
    lemma_parse_entries(b, 9, s);
}

/// Where the search for `k` stopped at `i` without finding it, `k` is not
/// in the mapping.
proof fn lemma_absent_at(s: Seq<(Seq<char>, Seq<char>)>, i: int, k: Seq<char>)
    requires
        sorted_by_path(s),
        0 <= i <= s.len(),
        forall|j: int| 0 <= j < i ==> path_lt(#[trigger] s[j].0, k),
        i < s.len() ==> !path_lt(s[i].0, k) && s[i].0 != k,
    ensures
        !files_of(s).contains_key(k),
{
    if files_of(s).contains_key(k) {
        let j = lemma_files_has(s, k);
        lemma_bytes_lt_irreflexive(encode_utf8(k));
        if j > i {
            assert(path_lt(s[i].0, s[j].0));
            lemma_path_lt_total(s[i].0, k);
            lemma_bytes_lt_transitive(encode_utf8(k), encode_utf8(s[i].0), encode_utf8(k));
        } else {
            assert(path_lt(s[j].0, k));
        }
    }
}

proof fn lemma_files_update(
    old_s: Seq<(Seq<char>, Seq<char>)>,
    s: Seq<(Seq<char>, Seq<char>)>,
    i: int,
    k: Seq<char>,
    v: Seq<char>,
)
    requires
        sorted_by_path(old_s),
        sorted_by_path(s),
        0 <= i < old_s.len(),
        old_s[i].0 == k,
        s == old_s.update(i, (k, v)),
    ensures
        files_of(s) == files_of(old_s).insert(k, v),
{
    let m = files_of(old_s).insert(k, v);
    assert forall|q: Seq<char>| #[trigger] files_of(s).contains_key(q) <==> m.contains_key(q) by {
        if files_of(s).contains_key(q) {
            let j = lemma_files_has(s, q);
            if j != i { lemma_files_at(old_s, j); }
        }
        if files_of(old_s).contains_key(q) {
            let j = lemma_files_has(old_s, q);
            lemma_files_at(s, j);
        }
        if q == k { lemma_files_at(s, i); }
    }
    assert forall|q: Seq<char>| #[trigger] files_of(s).contains_key(q) implies files_of(s)[q] == m[q] by {
        let j = lemma_files_has(s, q);
        if j != i {
            lemma_files_at(old_s, j);
            lemma_sorted_distinct(s, i, j);
        }
    }
    assert(files_of(s) =~= m);
}

proof fn lemma_files_insert(
    old_s: Seq<(Seq<char>, Seq<char>)>,
    s: Seq<(Seq<char>, Seq<char>)>,
    i: int,
    k: Seq<char>,
    v: Seq<char>,
)
    requires
        sorted_by_path(old_s),
        sorted_by_path(s),
        0 <= i <= old_s.len(),
        s == old_s.insert(i, (k, v)),
    ensures
        files_of(s) == files_of(old_s).insert(k, v),
{
    let m = files_of(old_s).insert(k, v);
    assert forall|q: Seq<char>| #[trigger] files_of(s).contains_key(q) <==> m.contains_key(q) by {
        if files_of(s).contains_key(q) {
            let j = lemma_files_has(s, q);
            if j < i { lemma_files_at(old_s, j); } else if j > i { lemma_files_at(old_s, j - 1); }
        }
        if files_of(old_s).contains_key(q) {
            let j = lemma_files_has(old_s, q);
            if j < i { lemma_files_at(s, j); } else { lemma_files_at(s, j + 1); }
        }
        if q == k { lemma_files_at(s, i); }
    }
    assert forall|q: Seq<char>| #[trigger] files_of(s).contains_key(q) implies files_of(s)[q] == m[q] by {
        let j = lemma_files_has(s, q);
        if j < i {
            lemma_files_at(old_s, j);
            lemma_sorted_distinct(s, i, j);
        } else if j > i {
            lemma_files_at(old_s, j - 1);
            lemma_sorted_distinct(s, i, j);
        }
    }
    assert(files_of(s) =~= m);
}

proof fn lemma_files_remove(old_s: Seq<(Seq<char>, Seq<char>)>, s: Seq<(Seq<char>, Seq<char>)>, i: int)
    requires
        sorted_by_path(old_s),
        sorted_by_path(s),
        0 <= i < old_s.len(),
        s == old_s.remove(i),
    ensures
        files_of(s) == files_of(old_s).remove(old_s[i].0),
{
    let k = old_s[i].0;
    let m = files_of(old_s).remove(k);
    assert forall|q: Seq<char>| #[trigger] files_of(s).contains_key(q) <==> m.contains_key(q) by {
        if files_of(s).contains_key(q) {
            let j = lemma_files_has(s, q);
            let j2 = if j < i { j } else { j + 1 };
            assert(s[j] == old_s[j2]);
            lemma_files_at(old_s, j2);
            lemma_sorted_distinct(old_s, i, j2);
        }
        if m.contains_key(q) {
            let j = lemma_files_has(old_s, q);
            assert(j != i);
            if j < i { lemma_files_at(s, j); } else { lemma_files_at(s, j - 1); }
        }
    }
    assert forall|q: Seq<char>| #[trigger] files_of(s).contains_key(q) implies files_of(s)[q] == m[q] by {
        let j = lemma_files_has(s, q);
        let j2 = if j < i { j } else { j + 1 };
        assert(s[j] == old_s[j2]);
        lemma_files_at(old_s, j2);
    }
    assert(files_of(s) =~= m);
}

proof fn lemma_parse_entries_stuck(b: Seq<u8>, pos: int, m: nat, n: nat)
    requires
        parse_entries(b, pos, m) is None,
        m <= n,
    ensures
        parse_entries(b, pos, n) is None,
    decreases n - m,
{
    if m < n {
        lemma_parse_entries_stuck(b, pos, m, (n - 1) as nat);
    }
}

proof fn lemma_sorted_push(s: Seq<(Seq<char>, Seq<char>)>, k: Seq<char>, v: Seq<char>)
    ensures
        sorted_by_path(s.push((k, v))) == (sorted_by_path(s) && (s.len() > 0 ==> path_lt(s.last().0, k))),
{
    let t = s.push((k, v));
    if sorted_by_path(s) && (s.len() > 0 ==> path_lt(s.last().0, k)) {
        assert forall|i: int, j: int| 0 <= i < j < t.len() implies path_lt(#[trigger] t[i].0, #[trigger] t[j].0) by {
            if j == s.len() && i < s.len() - 1 {
                assert(path_lt(s[i].0, s[s.len() - 1].0));
                lemma_bytes_lt_transitive(encode_utf8(s[i].0), encode_utf8(s.last().0), encode_utf8(k));
            } else if j < s.len() {
                assert(t[i] == s[i] && t[j] == s[j]);
            }
        }
    }
    if sorted_by_path(t) {
        assert forall|i: int, j: int| 0 <= i < j < s.len() implies path_lt(#[trigger] s[i].0, #[trigger] s[j].0) by {
            assert(t[i] == s[i] && t[j] == s[j]);
        }
        if s.len() > 0 {
            assert(path_lt(t[s.len() - 1].0, t[s.len() as int].0));
        }
    }
}

proof fn lemma_fit_update(s: Seq<(Seq<char>, Seq<char>)>, i: int, k: Seq<char>, v: Seq<char>)
    requires
        entries_fit(s),
        str_fits(k),
        str_fits(v),
        0 <= i < s.len(),
    ensures
        entries_fit(s.update(i, (k, v))),
{
    let t = s.update(i, (k, v));
    assert forall|a: int| 0 <= a < t.len() implies str_fits(#[trigger] t[a].0) && str_fits(t[a].1) by {
        if a != i {
            assert(t[a] == s[a]);
            assert(str_fits(s[a].0));
        }
    }
}

proof fn lemma_fit_insert(s: Seq<(Seq<char>, Seq<char>)>, i: int, k: Seq<char>, v: Seq<char>)
    requires
        entries_fit(s),
        str_fits(k),
        str_fits(v),
        0 <= i <= s.len(),
    ensures
        entries_fit(s.insert(i, (k, v))),
{
    let t = s.insert(i, (k, v));
    assert forall|a: int| 0 <= a < t.len() implies str_fits(#[trigger] t[a].0) && str_fits(t[a].1) by {
        if a < i {
            assert(t[a] == s[a]);
            assert(str_fits(s[a].0));
        } else if a > i {
            assert(t[a] == s[a - 1]);
            assert(str_fits(s[a - 1].0));
        }
    }
}

proof fn lemma_fit_remove(s: Seq<(Seq<char>, Seq<char>)>, i: int)
    requires
        entries_fit(s),
        0 <= i < s.len(),
    ensures
        entries_fit(s.remove(i)),
{
    let t = s.remove(i);
    assert forall|a: int| 0 <= a < t.len() implies str_fits(#[trigger] t[a].0) && str_fits(t[a].1) by {
        let a2 = if a < i { a } else { a + 1 };
        assert(t[a] == s[a2]);
        assert(str_fits(s[a2].0));
    }
}

/// Tracked paths and the addresses of their blobs.
pub struct Manifest {
    files: Vec<(String, String)>,
}

impl View for Manifest {
    type V = Seq<(Seq<char>, Seq<char>)>;

    /// The entries, sorted by path.
    closed spec fn view(&self) -> Seq<(Seq<char>, Seq<char>)> {
        pairs_view(self.files@)
    }
}

impl Default for Manifest {
    fn default() -> (r: Manifest)
        ensures
            r.wf(),
            r@ == Seq::<(Seq<char>, Seq<char>)>::empty(),
    {
        Manifest::new()
    }
}

impl Manifest {
    /// Entries sorted strictly by path, each small enough to encode.
    pub open spec fn wf(&self) -> bool {
        &&& sorted_by_path(self@)
        &&& entries_fit(self@)
    }

    /// The mapping from paths to blob addresses.
    pub open spec fn files(&self) -> Map<Seq<char>, Seq<char>> {
        files_of(self@)
    }

    /// An empty manifest.
    pub fn new() -> (r: Self)
        ensures
            r.wf(),
            r@ == Seq::<(Seq<char>, Seq<char>)>::empty(),
            r.files() == Map::<Seq<char>, Seq<char>>::empty(),
    {
        let r = Manifest { files: Vec::new() };
        assert(r@ =~= Seq::<(Seq<char>, Seq<char>)>::empty());
        assert(r.files() =~= Map::<Seq<char>, Seq<char>>::empty());
        r
    }

    /// The number of tracked paths.
    pub fn len(&self) -> (r: usize)
        ensures
            r == self@.len(),
    {
        self.files.len()
    }

    /// The entry at position `i` of the sorted order.
    pub fn entry(&self, i: usize) -> (r: (&String, &String))
        requires
            i < self@.len(),
        ensures
            r.0@ == self@[i as int].0,
            r.1@ == self@[i as int].1,
    {
        (&self.files[i].0, &self.files[i].1)
    }

    /// The position of the first entry whose path is not before `path`.
    fn lower_bound(&self, path: &String) -> (r: usize)
        requires
            self.wf(),
        ensures
            r <= self@.len(),
            forall|i: int| 0 <= i < r ==> path_lt(#[trigger] self@[i].0, path@),
            r < self@.len() ==> !path_lt(self@[r as int].0, path@),
    {
        let mut i: usize = 0;
        while i < self.files.len()
            invariant
                i <= self@.len(),
                self@.len() == self.files@.len(),
                forall|j: int| 0 <= j < i ==> path_lt(#[trigger] self@[j].0, path@),
            decreases self.files@.len() - i,
        {
            let ghost e = self.files@[i as int];
            assert(self@[i as int] == (e.0@, e.1@));
            if !less_bytes(self.files[i].0.as_str().as_bytes(), path.as_str().as_bytes()) {
                return i;
            }
            i = i + 1;
        }
        i
    }

    /// The address recorded for `path`.
    pub fn get(&self, path: &String) -> (r: Option<String>)
        requires
            self.wf(),
        ensures
            r matches Some(a) ==> self.files().contains_key(path@) && self.files()[path@] == a@,
            r is None ==> !self.files().contains_key(path@),
    {
        let i = self.lower_bound(path);
        if i < self.files.len() && self.files[i].0 == *path {
            proof {
                assert(self@[i as int] == (self.files@[i as int].0@, self.files@[i as int].1@));
                lemma_files_at(self@, i as int);
            }
            Some(self.files[i].1.clone())
        } else {
            proof {
                if (i as int) < self@.len() {
                    assert(self@[i as int] == (self.files@[i as int].0@, self.files@[i as int].1@));
                }
                lemma_absent_at(self@, i as int, path@);
            }
            None
        }
    }

    /// Records `addr` for `path`, replacing an earlier address for it.
    pub fn insert(&mut self, path: String, addr: String)
        requires
            old(self).wf(),
            str_fits(path@),
            str_fits(addr@),
        ensures
            final(self).wf(),
            final(self).files() == old(self).files().insert(path@, addr@),
    {
        let i = self.lower_bound(&path);
        let ghost old_s = self@;
        let ghost k = path@;
        let ghost v = addr@;
        if i < self.files.len() && self.files[i].0 == path {
            self.files.set(i, (path, addr));
            proof {
                assert(old_s == old(self)@);
                assert(entries_fit(old_s));
                let s = self@;
                assert(s =~= old_s.update(i as int, (k, v)));
                assert(sorted_by_path(s)) by {
                    assert forall|a: int, b: int| 0 <= a < b < s.len() implies path_lt(#[trigger] s[a].0, #[trigger] s[b].0) by {
                        assert(path_lt(old_s[a].0, old_s[b].0));
                    }
                }
                lemma_fit_update(old_s, i as int, k, v);
                lemma_files_update(old_s, s, i as int, k, v);
            }
        } else {
            self.files.insert(i, (path, addr));
            proof {
                let s = self@;
                assert(s =~= old_s.insert(i as int, (k, v)));
                if (i as int) < old_s.len() {
                    assert(old_s[i as int].0 != k) by {
                        assert(old_s[i as int] == (old(self).files@[i as int].0@, old(self).files@[i as int].1@));
                    }
                    lemma_path_lt_total(old_s[i as int].0, k);
                }
                assert(sorted_by_path(s)) by {
                    assert forall|a: int, b: int| 0 <= a < b < s.len() implies path_lt(#[trigger] s[a].0, #[trigger] s[b].0) by {
                        if b < i {
                            assert(path_lt(old_s[a].0, old_s[b].0));
                        } else if b == i {
                        } else if a < i {
                            assert(path_lt(old_s[a].0, k));
                            if b - 1 > i {
                                assert(path_lt(old_s[i as int].0, old_s[b - 1].0));
                                lemma_bytes_lt_transitive(encode_utf8(k), encode_utf8(old_s[i as int].0), encode_utf8(old_s[b - 1].0));
                            }
                            lemma_bytes_lt_transitive(encode_utf8(old_s[a].0), encode_utf8(k), encode_utf8(old_s[b - 1].0));
                        } else if a == i {
                            if b - 1 > i {
                                assert(path_lt(old_s[i as int].0, old_s[b - 1].0));
                                lemma_bytes_lt_transitive(encode_utf8(k), encode_utf8(old_s[i as int].0), encode_utf8(old_s[b - 1].0));
                            }
                        } else {
                            assert(path_lt(old_s[a - 1].0, old_s[b - 1].0));
                        }
                    }
                }
                lemma_fit_insert(old_s, i as int, k, v);
                lemma_files_insert(old_s, s, i as int, k, v);
            }
        }
    }

    /// The entries in path order, as pairs of path and address.
    pub fn entries(&self) -> (r: Vec<(String, String)>)
        ensures
            pairs_view(r@) == self@,
    {
        let mut out: Vec<(String, String)> = Vec::new();
        let mut i: usize = 0;
        while i < self.files.len()
            invariant
                i <= self.files@.len(),
                pairs_view(out@) == self@.subrange(0, i as int),
            decreases self.files@.len() - i,
        {
            let e = (self.files[i].0.clone(), self.files[i].1.clone());
            let ghost before = out@;
            out.push(e);
            proof {
                assert(self@[i as int] == (self.files@[i as int].0@, self.files@[i as int].1@));
                assert(pairs_view(out@) =~= pairs_view(before).push(self@[i as int]));
                assert(self@.subrange(0, i + 1) =~= self@.subrange(0, i as int).push(self@[i as int]));
            }
            i = i + 1;
        }
        proof {
            assert(self@.subrange(0, i as int) =~= self@);
        }
        out
    }

    /// The blob addresses, in path order.
    pub fn blob_addresses(&self) -> (r: Vec<String>)
        ensures
            r@.len() == self@.len(),
            forall|i: int| 0 <= i < r@.len() ==> #[trigger] r@[i]@ == self@[i].1,
    {
        let mut out: Vec<String> = Vec::new();
        let mut i: usize = 0;
        while i < self.files.len()
            invariant
                i <= self.files@.len(),
                out@.len() == i,
                forall|j: int| 0 <= j < i ==> #[trigger] out@[j]@ == self@[j].1,
            decreases self.files@.len() - i,
        {
            out.push(self.files[i].1.clone());
            i = i + 1;
        }
        out
    }

    /// The canonical form: entry count, then each path and address.
    pub fn canonical(&self) -> (r: Vec<u8>)
        ensures
            r@ == canonical_bytes(self@),
    {
        let mut out: Vec<u8> = Vec::new();
        push_u64(&mut out, self.files.len() as u64);
        let mut i: usize = 0;
        while i < self.files.len()
            invariant
                i <= self.files@.len(),
                self@.len() == self.files@.len(),
                out@ == u64_bytes(self@.len() as u64) + entries_bytes(self@.subrange(0, i as int)),
            decreases self.files@.len() - i,
        {
            let ghost before = out@;
            push_str(&mut out, self.files[i].0.as_str());
            push_str(&mut out, self.files[i].1.as_str());
            proof {
                let t = self@.subrange(0, i + 1);
                assert(t.drop_last() =~= self@.subrange(0, i as int));
                assert(t.last() == self@[i as int]);
                assert(out@ =~= u64_bytes(self@.len() as u64) + entries_bytes(t));
            }
            i = i + 1;
        }
        proof {
            assert(self@.subrange(0, i as int) =~= self@);
        }
        out
    }

    /// The plaintext that gets sealed: version byte, then the canonical form.
    pub fn encode(&self) -> (r: Vec<u8>)
        ensures
            r@ == manifest_bytes(MANIFEST_VERSION, self@),
            self@.len() <= u64::MAX,
    {
        let count = self.files.len();
        assert(self@.len() == count);
        let body = self.canonical();
        let mut out: Vec<u8> = Vec::new();
        out.push(MANIFEST_VERSION);
        out.extend_from_slice(body.as_slice());
        assert(out@ =~= manifest_bytes(MANIFEST_VERSION, self@));
        out
    }

    /// The content fingerprint: it depends on the mapping alone.
    pub fn content_fingerprint(&self) -> (r: String)
        ensures
            r@ == fingerprint_of(self@),
    {
        let body = self.canonical();
        address(body.as_slice())
    }

    /// Reads a manifest plaintext: a version error when the version byte is
    /// not `MANIFEST_VERSION`, malformed data when the rest does not parse
    /// completely or the paths are not in strict order.
    pub fn decode(b: &[u8]) -> (r: Result<Manifest, ErrorKind>)
        ensures
            manifest_result(r) == decoded_manifest(b@),
            r matches Ok(m) ==> m.wf(),
    {
        if b.len() == 0 {
            return Err(ErrorKind::MalformedData);
        }
        if b[0] != MANIFEST_VERSION {
            return Err(ErrorKind::VersionError);
        }
        let (n, start) = match read_u64(b, 1) {
            None => return Err(ErrorKind::MalformedData),
            Some(x) => x,
        };
        let mut pos = start;
        let mut files: Vec<(String, String)> = Vec::new();
        let mut ordered = true;
        let mut i: u64 = 0;
        assert(pairs_view(files@) =~= Seq::<(Seq<char>, Seq<char>)>::empty());
        while i < n
            invariant
                b@.len() > 0 && b@[0] == MANIFEST_VERSION,
                i <= n,
                parse_u64(b@, 1) == Some((n, start as int)),
                parse_entries(b@, start as int, i as nat) == Some((pairs_view(files@), pos as int)),
                ordered == sorted_by_path(pairs_view(files@)),
                entries_fit(pairs_view(files@)),
            decreases n - i,
        {
            let (k, after_key) = match read_str(b, pos) {
                None => {
                    proof { lemma_parse_entries_stuck(b@, start as int, (i + 1) as nat, n as nat) }
                    return Err(ErrorKind::MalformedData);
                },
                Some(x) => x,
            };
            let (v, after_value) = match read_str(b, after_key) {
                None => {
                    proof { lemma_parse_entries_stuck(b@, start as int, (i + 1) as nat, n as nat) }
                    return Err(ErrorKind::MalformedData);
                },
                Some(x) => x,
            };
            let ghost acc = pairs_view(files@);
            if files.len() > 0 {
                let last = files.len() - 1;
                if !less_bytes(files[last].0.as_str().as_bytes(), k.as_str().as_bytes()) {
                    ordered = false;
                }
                proof {
                    assert(acc[last as int] == (files@[last as int].0@, files@[last as int].1@));
                }
            }
            proof {
                lemma_sorted_push(acc, k@, v@);
                vstd::utf8::encode_utf8_decode_utf8(k@);
            }
            files.push((k, v));
            pos = after_value;
            i = i + 1;
            proof {
                assert(pairs_view(files@) =~= acc.push((k@, v@)));
                assert(entries_fit(pairs_view(files@))) by {
                    let s = pairs_view(files@);
                    assert forall|a: int| 0 <= a < s.len() implies str_fits(#[trigger] s[a].0) && str_fits(s[a].1) by {
                        if a < acc.len() {
                            assert(s[a] == acc[a]);
                            assert(str_fits(acc[a].0) && str_fits(acc[a].1));
                        } else {
                            assert(s[a] == (k@, v@));
                        }
                    }
                }
            }
        }
        if pos != b.len() {
            return Err(ErrorKind::MalformedData);
        }
        if !ordered {
            return Err(ErrorKind::MalformedData);
        }
        Ok(Manifest { files })
    }

    /// Stops tracking `path`; says whether it was tracked.
    pub fn remove(&mut self, path: &String) -> (r: bool)
        requires
            old(self).wf(),
        ensures
            final(self).wf(),
            r == old(self).files().contains_key(path@),
            final(self).files() == old(self).files().remove(path@),
    {
        let i = self.lower_bound(path);
        let ghost old_s = self@;
        if i < self.files.len() && self.files[i].0 == *path {
            self.files.remove(i);
            proof {
                let s = self@;
                assert(s =~= old_s.remove(i as int));
                assert(old_s[i as int].0 == path@) by {
                    assert(old_s[i as int] == (old(self).files@[i as int].0@, old(self).files@[i as int].1@));
                }
                lemma_files_at(old_s, i as int);
                assert(sorted_by_path(s)) by {
                    assert forall|a: int, b: int| 0 <= a < b < s.len() implies path_lt(#[trigger] s[a].0, #[trigger] s[b].0) by {
                        let a2 = if a < i { a } else { a + 1 };
                        let b2 = if b < i { b } else { b + 1 };
                        assert(s[a] == old_s[a2] && s[b] == old_s[b2]);
                        assert(path_lt(old_s[a2].0, old_s[b2].0));
                    }
                }
                lemma_fit_remove(old_s, i as int);
                lemma_files_remove(old_s, s, i as int);
            }
            true
        } else {
            proof {
                if (i as int) < old_s.len() {
                    assert(old_s[i as int] == (self.files@[i as int].0@, self.files@[i as int].1@));
                }
                lemma_absent_at(old_s, i as int, path@);
                assert(old(self).files().remove(path@) =~= old(self).files());
            }
            false
        }
    }
}

/// Fingerprint stability: two manifests that map the same paths to the same
/// addresses, whatever order the paths were added in, have the same
/// fingerprint.
pub proof fn lemma_fingerprint_stable(a: Manifest, b: Manifest)
    requires
        a.wf(),
        b.wf(),
        a.files() == b.files(),
    ensures
        fingerprint_of(a@) == fingerprint_of(b@),
{
    lemma_sorted_unique(a@, b@);
}

/// Manifests whose mappings differ in any path or address have different
/// canonical forms, the bytes the fingerprint hashes.
pub proof fn lemma_canonical_distinguishes(a: Manifest, b: Manifest)
    requires
        a.wf(),
        b.wf(),
        a@.len() <= u64::MAX,
        b@.len() <= u64::MAX,
        a.files() != b.files(),
    ensures
        canonical_bytes(a@) != canonical_bytes(b@),
{
    if canonical_bytes(a@) == canonical_bytes(b@) {
        lemma_parse_manifest(a@);
        lemma_parse_manifest(b@);
        assert(manifest_bytes(MANIFEST_VERSION, a@) == manifest_bytes(MANIFEST_VERSION, b@));
    }
}

/// Decoding what `encode` produced gives the same manifest back.
pub proof fn lemma_manifest_round_trip(m: Manifest)
    requires
        m.wf(),
        m@.len() <= u64::MAX,
    ensures
        parse_manifest(manifest_bytes(MANIFEST_VERSION, m@)) == Some(m@),
{
    lemma_parse_manifest(m@);
}

} // verus!
