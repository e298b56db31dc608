//! Content-addressed object storage: a capability interface over a store
//! keyed by fingerprint, an in-memory implementation, and the typed layer
//! that reads and writes snapshot trees and commits through it.
use vstd::prelude::*;

use crate::blob::{blob_wf, digest_of, Blob};
use crate::codec::{copy_range, decode_directory, enc_dir, encode_directory,
    lemma_dec_enc_dir};
use crate::commit::{commit_wf, decode_commit, enc_commit, encode_commit, Commit};
use crate::directory::{dir_wf, Directory};
use crate::order::bytes_eq;

verus! {

/// What can go wrong reading a typed object: the fingerprint is absent from
/// the store, the stored bytes are not a valid encoding, or the store
/// itself failed.
#[derive(Debug)]
pub enum Error<E> {
    MissingObject(Blob),
    Malformed(Blob),
    Store(E),
}

/// A content-addressed store: push bytes under their own digest, read them
/// back by digest. Its abstract state is the mapping from digests to stored
/// byte sequences.
pub trait Objects: Sized {
    type Error;

    /// The objects the store holds, keyed by digest. A backend written
    /// outside the verifier inherits the default model, which no verified
    /// caller's proof depends on for such a backend.
    open spec fn contents(&self) -> Map<Seq<u8>, Seq<u8>> {
        Map::empty()
    }

    /// Whether this backend owes success on every call. The in-memory store
    /// does; a disk-backed store, which can meet I/O failures, does not and
    /// inherits the default.
    open spec fn never_fails(&self) -> bool {
        false
    }

    /// Whether an object with this id is stored, without reading it.
    fn contains(&self, id: &Blob) -> (r: Result<bool, Self::Error>)
        ensures
            r matches Ok(b) ==> b == self.contents().contains_key(id@),
            self.never_fails() ==> r is Ok,
    ;

    /// The exact bytes stored under this id, or `None` if the id was never
    /// pushed.
    fn get(&self, id: &Blob) -> (r: Result<Option<Vec<u8>>, Self::Error>)
        ensures
            match r {
                Ok(o) => match o {
                    Some(v) => self.contents().contains_key(id@) && v@ == self.contents()[id@],
                    None => !self.contents().contains_key(id@),
                },
                Err(_) => true,
            },
            self.never_fails() ==> r is Ok,
    ;

    /// Stores the bytes under their own digest and returns it. Pushing the
    /// same content again changes nothing. Even a failing push touches no
    /// other object: what was stored stays stored, unchanged.
    fn push(&mut self, object: &[u8]) -> (r: Result<Blob, Self::Error>)
        ensures
            match r {
                Ok(b) => b@ == digest_of(object@) && blob_wf(b) && final(self).contents()
                    == old(self).contents().insert(digest_of(object@), object@),
                Err(_) => final(self).contents().remove(digest_of(object@)) == old(
                    self,
                ).contents().remove(digest_of(object@)),
            },
            old(self).never_fails() ==> r is Ok,
            final(self).never_fails() == old(self).never_fails(),
    ;
}

/// Store idempotence: pushing the same bytes twice leaves the store as one
/// push does, and the bytes read back under the returned id are the bytes
/// pushed.
pub proof fn lemma_store_push_idempotent(m: Map<Seq<u8>, Seq<u8>>, b: Seq<u8>)
    ensures
        m.insert(digest_of(b), b).insert(digest_of(b), b) == m.insert(digest_of(b), b),
        m.insert(digest_of(b), b).contains_key(digest_of(b)),
        m.insert(digest_of(b), b)[digest_of(b)] == b,
{
    assert(m.insert(digest_of(b), b).insert(digest_of(b), b) =~= m.insert(digest_of(b), b));
}

/// The abstract contents of a backing sequence of stored objects, later
/// entries shadowing earlier ones.
pub open spec fn mem_contents(s: Seq<(Blob, Vec<u8>)>) -> Map<Seq<u8>, Seq<u8>>
    decreases s,
{
    if s.len() == 0 {
        Map::empty()
    } else {
        mem_contents(s.drop_last()).insert(s.last().0@, s.last().1@)
    }
}

/// An in-memory object store, for tests and as the reference backend.
#[derive(Debug)]
pub struct MemoryObjects {
    pub items: Vec<(Blob, Vec<u8>)>,
}

impl MemoryObjects {
    /// An empty store: it holds nothing.
    pub fn new() -> (r: Self)
        ensures
            r.contents() == Map::<Seq<u8>, Seq<u8>>::empty(),
    {
        MemoryObjects { items: Vec::new() }
    }
}

impl Objects for MemoryObjects {
    type Error = ();

    open spec fn contents(&self) -> Map<Seq<u8>, Seq<u8>> {
        mem_contents(self.items@)
    }

    open spec fn never_fails(&self) -> bool {
        true
    }

    fn contains(&self, id: &Blob) -> (r: Result<bool, ()>)
        ensures
            r is Ok,
    {
        let mut i: usize = self.items.len();
        proof {
            assert(self.items@.take(i as int) =~= self.items@);
        }
        while i > 0
            invariant
                0 <= i <= self.items@.len(),
                mem_contents(self.items@).contains_key(id@) == mem_contents(
                    self.items@.take(i as int),
                ).contains_key(id@),
            decreases i,
        {
            proof {
                let t = self.items@.take(i as int);
                assert(t.last() == self.items@[i - 1]);
                assert(t.drop_last() =~= self.items@.take(i - 1));
            }
            let (b, _) = &self.items[i - 1];
            if bytes_eq(b.0.as_slice(), id.0.as_slice()) {
                return Ok(true);
            }
            i = i - 1;
        }
        proof {
            assert(self.items@.take(0) =~= Seq::<(Blob, Vec<u8>)>::empty());
        }
        Ok(false)
    }

    fn get(&self, id: &Blob) -> (r: Result<Option<Vec<u8>>, ()>)
        ensures
            r is Ok,
    {
        let mut i: usize = self.items.len();
        proof {
            assert(self.items@.take(i as int) =~= self.items@);
        }
        while i > 0
            invariant
                0 <= i <= self.items@.len(),
                mem_contents(self.items@).contains_key(id@) == mem_contents(
                    self.items@.take(i as int),
                ).contains_key(id@),
                mem_contents(self.items@).contains_key(id@) ==> mem_contents(self.items@)[id@]
                    == mem_contents(self.items@.take(i as int))[id@],
            decreases i,
        {
            proof {
                let t = self.items@.take(i as int);
                assert(t.last() == self.items@[i - 1]);
                assert(t.drop_last() =~= self.items@.take(i - 1));
            }
            let (b, v) = &self.items[i - 1];
            if bytes_eq(b.0.as_slice(), id.0.as_slice()) {
                let out = copy_range(v.as_slice(), 0, v.len());
                proof {
                    assert(v@.subrange(0, v@.len() as int) =~= v@);
                }
                return Ok(Some(out));
            }
            i = i - 1;
        }
        proof {
            assert(self.items@.take(0) =~= Seq::<(Blob, Vec<u8>)>::empty());
        }
        Ok(None)
    }

    fn push(&mut self, object: &[u8]) -> (r: Result<Blob, ()>)
        ensures
            r is Ok,
    {
        let id = Blob::of_bytes(object);
        let stored = copy_range(object, 0, object.len());
        proof {
            assert(object@.subrange(0, object@.len() as int) =~= object@);
        }
        let id2 = id.clone();
        let ghost items0 = self.items@;
        self.items.push((id, stored));
        proof {
            assert(self.items@.last() == self.items@[items0.len() as int]);
            assert(self.items@.drop_last() =~= items0);
        }
        Ok(id2)
    }
}

/// Serializes a snapshot tree and pushes it; the returned id is the digest
/// of the tree's canonical bytes, a pure function of the tree's contents.
pub fn insert_directory<S: Objects>(store: &mut S, d: &Directory) -> (r: Result<Blob, S::Error>)
    requires
        dir_wf(*d),
    ensures
        match r {
            Ok(b) => b@ == digest_of(enc_dir(*d)) && blob_wf(b) && final(store).contents()
                == old(store).contents().insert(digest_of(enc_dir(*d)), enc_dir(*d)),
            Err(_) => final(store).contents().remove(digest_of(enc_dir(*d))) == old(
                store,
            ).contents().remove(digest_of(enc_dir(*d))),
        },
        old(store).never_fails() ==> r is Ok,
        final(store).never_fails() == old(store).never_fails(),
{
    let bytes = encode_directory(d);
    store.push(bytes.as_slice())
}

/// Decides the typed result from the store's answer for an id: a missing
/// answer is exactly a `MissingObject` error, bytes that encode no
/// well-formed tree are exactly a `Malformed` error, and any other bytes
/// are exactly the tree they encode. No other outcome is possible.
pub fn typed_directory<E>(id: &Blob, got: Option<Vec<u8>>) -> (r: Result<Directory, Error<E>>)
    ensures
        match got {
            Option::None => r matches Err(Error::MissingObject(b)) && b@ == id@,
            Option::Some(bytes) => match r {
                Ok(d) => dir_wf(d) && enc_dir(d) == bytes@,
                Err(Error::Malformed(b)) => b@ == id@ && (forall|d: Directory|
                    dir_wf(d) ==> enc_dir(d) != bytes@),
                _ => false,
            },
        },
{
    match got {
        Option::None => Err(Error::MissingObject(id.clone())),
        Option::Some(bytes) => {
            match decode_directory(bytes.as_slice()) {
                Some(d) => Ok(d),
                None => {
                    proof {
                        assert forall|d: Directory| dir_wf(d) implies enc_dir(d) != bytes@ by {
                            if enc_dir(d) == bytes@ {
                                assert(bytes@.subrange(0, bytes@.len() as int) =~= bytes@);
                                lemma_dec_enc_dir(bytes@, 0, d);
                            }
                        }
                    }
                    Err(Error::Malformed(id.clone()))
                },
            }
        },
    }
}

/// Decides the typed result from the store's answer for a commit id, with
/// the same exactness as `typed_directory`.
pub fn typed_commit<E>(id: &Blob, got: Option<Vec<u8>>) -> (r: Result<Commit, Error<E>>)
    ensures
        match got {
            Option::None => r matches Err(Error::MissingObject(b)) && b@ == id@,
            Option::Some(bytes) => match r {
                Ok(c) => commit_wf(c) && enc_commit(c) == bytes@,
                Err(Error::Malformed(b)) => b@ == id@ && (forall|c: Commit|
                    commit_wf(c) ==> enc_commit(c) != bytes@),
                _ => false,
            },
        },
{
    match got {
        Option::None => Err(Error::MissingObject(id.clone())),
        Option::Some(bytes) => {
            match decode_commit(bytes.as_slice()) {
                Some(c) => Ok(c),
                None => Err(Error::Malformed(id.clone())),
            }
        },
    }
}

/// Reads a snapshot tree back by id: the tree whose canonical bytes are
/// stored there. Fails with `MissingObject` exactly when the id is absent,
/// with `Malformed` exactly when the stored bytes encode no well-formed
/// tree, and with a `Store` error only when the store's own read does; the
/// decision on the store's answer is `typed_directory`, which admits no
/// other outcome.
pub fn read_directory<S: Objects>(store: &S, id: &Blob) -> (r: Result<Directory, Error<S::Error>>)
    ensures
        match r {
            Ok(d) => dir_wf(d) && store.contents().contains_key(id@) && enc_dir(d)
                == store.contents()[id@],
            Err(Error::MissingObject(b)) => b@ == id@ && !store.contents().contains_key(id@),
            Err(Error::Malformed(b)) => b@ == id@ && store.contents().contains_key(id@) && (
            forall|d: Directory|
                dir_wf(d) ==> enc_dir(d) != store.contents()[id@]),
            Err(Error::Store(_)) => true,
        },
        store.never_fails() ==> !(r matches Err(Error::Store(_))),
{
    match store.get(id) {
        Err(e) => Err(Error::Store(e)),
        Ok(got) => typed_directory(id, got),
    }
}

/// Serializes a commit and pushes it; the returned id is the digest of the
/// commit's canonical bytes, a pure function of tree, message and parents.
pub fn insert_commit<S: Objects>(store: &mut S, c: &Commit) -> (r: Result<Blob, S::Error>)
    requires
        commit_wf(*c),
    ensures
        match r {
            Ok(b) => b@ == digest_of(enc_commit(*c)) && blob_wf(b) && final(store).contents()
                == old(store).contents().insert(digest_of(enc_commit(*c)), enc_commit(*c)),
            Err(_) => final(store).contents().remove(digest_of(enc_commit(*c))) == old(
                store,
            ).contents().remove(digest_of(enc_commit(*c))),
        },
        old(store).never_fails() ==> r is Ok,
        final(store).never_fails() == old(store).never_fails(),
{
    let bytes = encode_commit(c);
    store.push(bytes.as_slice())
}

/// Reads a commit back by id, with the same failure discipline as
/// `read_directory`; the decision on the store's answer is `typed_commit`.
pub fn read_commit<S: Objects>(store: &S, id: &Blob) -> (r: Result<Commit, Error<S::Error>>)
    ensures
        match r {
            Ok(c) => commit_wf(c) && store.contents().contains_key(id@) && enc_commit(c)
                == store.contents()[id@],
            Err(Error::MissingObject(b)) => b@ == id@ && !store.contents().contains_key(id@),
            Err(Error::Malformed(b)) => b@ == id@ && store.contents().contains_key(id@) && (
            forall|c: Commit|
                commit_wf(c) ==> enc_commit(c) != store.contents()[id@]),
            Err(Error::Store(_)) => true,
        },
        store.never_fails() ==> !(r matches Err(Error::Store(_))),
{
    match store.get(id) {
        Err(e) => Err(Error::Store(e)),
        Ok(got) => typed_commit(id, got),
    }
}

} // verus!
