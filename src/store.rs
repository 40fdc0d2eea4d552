//! The content-addressed blob store: bytes kept under the lowercase hex
//! SHA-256 of those bytes.
//!
//! The store lives in memory; whoever persists it writes each entry to
//! `<address>.blob`. Entries read back from disk are taken as they are, and
//! `get_verified` checks them on the way out.
use crate::error::ErrorKind;
use crate::primitives::{hex_of, sha256, sha256_of, to_hex};
use vstd::prelude::*;

verus! {

/// The address of a byte sequence: hex of its SHA-256.
pub open spec fn address_of(b: Seq<u8>) -> Seq<char> {
    hex_of(sha256_of(b))
}

/// Computes the content address of `data`.
pub fn address(data: &[u8]) -> (r: String)
    ensures
        r@ == address_of(data@),
        r@.len() == 64,
{
    let digest = sha256(data);
    to_hex(digest.as_slice())
}

/// Blobs by address.
pub struct BlobStore {
    entries: Vec<(String, Vec<u8>)>,
}

impl View for BlobStore {
    type V = Map<Seq<char>, Seq<u8>>;

    closed spec fn view(&self) -> Map<Seq<char>, Seq<u8>> {
        Map::new(
            |k: Seq<char>| exists|i: int| 0 <= i < self.entries@.len() && self.entries@[i].0@ == k,
            |k: Seq<char>|
                self.entries@[choose|i: int|
                    0 <= i < self.entries@.len() && self.entries@[i].0@ == k].1@,
        )
    }
}

impl BlobStore {
    /// No address is held twice.
    pub closed spec fn wf(&self) -> bool {
        forall|i: int, j: int|
            0 <= i < j < self.entries@.len() ==> self.entries@[i].0@ != self.entries@[j].0@
    }

    proof fn lemma_view_at(&self, i: int)
        requires
            self.wf(),
            0 <= i < self.entries@.len(),
        ensures
            self@.contains_key(self.entries@[i].0@),
            self@[self.entries@[i].0@] == self.entries@[i].1@,
    {
        let k = self.entries@[i].0@;
        assert(exists|j: int| 0 <= j < self.entries@.len() && self.entries@[j].0@ == k);
        let j = choose|j: int| 0 <= j < self.entries@.len() && self.entries@[j].0@ == k;
        assert(i == j);
    }

    proof fn lemma_view_has(&self, k: Seq<char>) -> (i: int)
        requires
            self.wf(),
            self@.contains_key(k),
        ensures
            0 <= i < self.entries@.len(),
            self.entries@[i].0@ == k,
            self@[k] == self.entries@[i].1@,
    {
        let i = choose|i: int| 0 <= i < self.entries@.len() && self.entries@[i].0@ == k;
        self.lemma_view_at(i);
        i
    }

    /// An empty store.
    pub fn new() -> (r: Self)
        ensures
            r.wf(),
            r@ == Map::<Seq<char>, Seq<u8>>::empty(),
    {
        let r = BlobStore { entries: Vec::new() };
        assert(r@ =~= Map::<Seq<char>, Seq<u8>>::empty());
        r
    }

    /// How many entries are held: one per address.
    pub closed spec fn size(&self) -> nat {
        self.entries@.len()
    }

    /// The number of blobs held.
    pub fn len(&self) -> (r: usize)
        ensures
            r as nat == self.size(),
    {
        self.entries.len()
    }

    fn find(&self, addr: &String) -> (r: Option<usize>)
        requires
            self.wf(),
        ensures
            r matches Some(i) ==> i < self.entries@.len() && self.entries@[i as int].0@ == addr@,
            r is None ==> !self@.contains_key(addr@),
    {
        let mut i: usize = 0;
        while i < self.entries.len()
            invariant
                i <= self.entries@.len(),
                forall|j: int| 0 <= j < i ==> self.entries@[j].0@ != addr@,
            decreases self.entries@.len() - i,
        {
            if self.entries[i].0 == *addr {
                return Some(i);
            }
            i = i + 1;
        }
        None
    }

    fn store_at(&mut self, addr: String, bytes: Vec<u8>)
        requires
            old(self).wf(),
        ensures
            final(self).wf(),
            final(self)@ == old(self)@.insert(addr@, bytes@),
            final(self).size() == if old(self)@.contains_key(addr@) {
                old(self).size()
            } else {
                old(self).size() + 1
            },
    {
        let ghost k = addr@;
        let ghost v = bytes@;
        match self.find(&addr) {
            Some(i) => {
                self.entries.set(i, (addr, bytes));
                proof {
                    assert forall|a: int, b: int|
                        0 <= a < b < self.entries@.len() implies self.entries@[a].0@
                        != self.entries@[b].0@ by {
                        assert(old(self).entries@[a].0@ != old(self).entries@[b].0@);
                    }
                    self.lemma_view_at(i as int);
                    assert forall|q: Seq<char>| #[trigger] self@.contains_key(q) <==> old(self)@.insert(k, v).contains_key(q) by {
                        if self@.contains_key(q) {
                            let j = self.lemma_view_has(q);
                            if j != i {
                                old(self).lemma_view_at(j);
                            }
                        }
                        if old(self)@.contains_key(q) && q != k {
                            let j = old(self).lemma_view_has(q);
                            self.lemma_view_at(j);
                        }
                    }
                    assert forall|q: Seq<char>| #[trigger] self@.contains_key(q) implies self@[q] == old(self)@.insert(k, v)[q] by {
                        let j = self.lemma_view_has(q);
                        if j != i {
                            old(self).lemma_view_at(j);
                        }
                    }
                    assert(self@ =~= old(self)@.insert(k, v));
                }
            },
            None => {
                self.entries.push((addr, bytes));
                proof {
                    let n = old(self).entries@.len() as int;
                    assert forall|a: int, b: int|
                        0 <= a < b < self.entries@.len() implies self.entries@[a].0@
                        != self.entries@[b].0@ by {
                        if b == n {
                            old(self).lemma_view_at(a);
                        } else {
                            assert(old(self).entries@[a].0@ != old(self).entries@[b].0@);
                        }
                    }
                    self.lemma_view_at(n);
                    assert forall|q: Seq<char>| #[trigger] self@.contains_key(q) <==> old(self)@.insert(k, v).contains_key(q) by {
                        if self@.contains_key(q) {
                            let j = self.lemma_view_has(q);
                            if j != n {
                                old(self).lemma_view_at(j);
                            }
                        }
                        if old(self)@.contains_key(q) {
                            let j = old(self).lemma_view_has(q);
                            self.lemma_view_at(j);
                        }
                    }
                    assert forall|q: Seq<char>| #[trigger] self@.contains_key(q) implies self@[q] == old(self)@.insert(k, v)[q] by {
                        let j = self.lemma_view_has(q);
                        if j != n {
                            old(self).lemma_view_at(j);
                        }
                    }
                    assert(self@ =~= old(self)@.insert(k, v));
                }
            },
        }
    }

    /// Stores `bytes` under their address and returns it. Storing the same
    /// bytes again changes nothing.
    pub fn put(&mut self, bytes: Vec<u8>) -> (r: String)
        requires
            old(self).wf(),
        ensures
            final(self).wf(),
            r@ == address_of(bytes@),
            final(self)@ == old(self)@.insert(r@, bytes@),
            final(self).size() == if old(self)@.contains_key(r@) {
                old(self).size()
            } else {
                old(self).size() + 1
            },
    {
        let addr = address(bytes.as_slice());
        let key = addr.clone();
        self.store_at(key, bytes);
        addr
    }

    /// Takes an entry as found on disk, without checking it; `get_verified`
    /// checks it when it is read.
    pub fn load_entry(&mut self, addr: String, bytes: Vec<u8>)
        requires
            old(self).wf(),
        ensures
            final(self).wf(),
            final(self)@ == old(self)@.insert(addr@, bytes@),
    {
        self.store_at(addr, bytes);
    }

    /// Stores bytes fetched from elsewhere under `addr`, provided they hash
    /// to it; otherwise stores nothing and reports an integrity error.
    pub fn insert_verified(&mut self, addr: &String, bytes: Vec<u8>) -> (r: Result<(), ErrorKind>)
        requires
            old(self).wf(),
        ensures
            final(self).wf(),
            address_of(bytes@) == addr@ ==> r is Ok && final(self)@ == old(self)@.insert(addr@, bytes@),
            address_of(bytes@) != addr@ ==> r == Err::<(), ErrorKind>(ErrorKind::IntegrityError)
                && final(self)@ == old(self)@,
    {
        let computed = address(bytes.as_slice());
        if computed == *addr {
            self.store_at(computed, bytes);
            Ok(())
        } else {
            Err(ErrorKind::IntegrityError)
        }
    }

    /// Whether a blob is held under `addr`.
    pub fn contains(&self, addr: &String) -> (r: bool)
        requires
            self.wf(),
        ensures
            r == self@.contains_key(addr@),
    {
        self.find(addr).is_some()
    }

    /// The blob under `addr`, checked against its address.
    pub fn get_verified(&self, addr: &String) -> (r: Result<Vec<u8>, ErrorKind>)
        requires
            self.wf(),
        ensures
            !self@.contains_key(addr@) ==> r == Err::<Vec<u8>, ErrorKind>(ErrorKind::NotFoundError),
            self@.contains_key(addr@) && address_of(self@[addr@]) != addr@ ==> r == Err::<
                Vec<u8>,
                ErrorKind,
            >(ErrorKind::IntegrityError),
            self@.contains_key(addr@) && address_of(self@[addr@]) == addr@ ==> (r matches Ok(b)
                && b@ == self@[addr@]),
    {
        match self.find(addr) {
            None => Err(ErrorKind::NotFoundError),
            Some(i) => {
                proof { self.lemma_view_at(i as int) }
                let bytes = self.entries[i].1.clone();
                let computed = address(bytes.as_slice());
                if computed == *addr {
                    Ok(bytes)
                } else {
                    Err(ErrorKind::IntegrityError)
                }
            },
        }
    }

    /// The blob under `addr` as held, without checking it.
    pub fn get(&self, addr: &String) -> (r: Option<&Vec<u8>>)
        requires
            self.wf(),
        ensures
            !self@.contains_key(addr@) ==> r is None,
            self@.contains_key(addr@) ==> (r matches Some(b) && b@ == self@[addr@]),
    {
        match self.find(addr) {
            None => None,
            Some(i) => {
                proof { self.lemma_view_at(i as int) }
                Some(&self.entries[i].1)
            },
        }
    }

    /// The addresses held, in the order they were first stored.
    pub fn addresses(&self) -> (r: Vec<String>)
        requires
            self.wf(),
        ensures
            r@.len() == self.size(),
            forall|i: int| 0 <= i < r@.len() ==> self@.contains_key(#[trigger] r@[i]@),
            forall|k: Seq<char>| #[trigger] self@.contains_key(k) ==> exists|i: int| 0 <= i < r@.len() && r@[i]@ == k,
    {
        let mut out: Vec<String> = Vec::new();
        let mut i: usize = 0;
        while i < self.entries.len()
            invariant
                self.wf(),
                i <= self.entries@.len(),
                out@.len() == i,
                forall|j: int| 0 <= j < i ==> #[trigger] out@[j]@ == self.entries@[j].0@,
            decreases self.entries@.len() - i,
        {
            out.push(self.entries[i].0.clone());
            i = i + 1;
        }
        proof {
            assert forall|j: int| 0 <= j < out@.len() implies self@.contains_key(#[trigger] out@[j]@) by {
                self.lemma_view_at(j);
            }
            assert forall|k: Seq<char>| #[trigger] self@.contains_key(k) implies exists|j: int| 0 <= j < out@.len() && out@[j]@ == k by {
                let j = self.lemma_view_has(k);
                assert(out@[j]@ == k);
            }
        }
        out
    }
}

/// Content addressing: after `put(b)` the store holds `b` under
/// `address_of(b)` and those bytes match that address, so `get_verified`
/// of it returns `b`; putting `b` a second time changes nothing (and, by the
/// contract of `put`, keeps the number of entries).
pub proof fn lemma_put_then_get(store: Map<Seq<char>, Seq<u8>>, b: Seq<u8>)
    ensures
        ({
            let a = address_of(b);
            let after = store.insert(a, b);
            &&& after.contains_key(a)
            &&& after[a] == b
            &&& address_of(after[a]) == a
            &&& after.insert(a, b) == after
        }),
{
    let a = address_of(b);
    let after = store.insert(a, b);
    assert(after.insert(a, b) =~= after);
}

} // verus!
