//! Repository reference state: the current branch name, the mapping from
//! branch names to commit ids, and the ignore list — the only mutable part
//! of the model. Everything it points at (trees, commits) is immutable once
//! stored. Persisting this state to disk is the caller's concern; the
//! operations here are the rules the persisted state follows.
use vstd::prelude::*;

use crate::blob::{blob_wf, digest_of, Blob};
use crate::codec::{enc_dir, enc_u32};
use crate::commit::{commit_wf, enc_blobs, enc_commit, Commit};
use crate::directory::{find, lemma_find_concat, lemma_name_bytes_injective, name_bytes,
    Directory, Ignores};
use crate::objects::{insert_commit, insert_directory, Objects};
use crate::order::bytes_eq;
use vstd::utf8::is_ascii_chars_encode_utf8;

verus! {

/// The mutable repository state.
#[derive(Debug)]
pub struct DotLog {
    pub branch: String,
    pub branches: Vec<(String, Blob)>,
    pub ignores: Ignores,
}

impl DotLog {
    /// The name of the branch that is checked out.
    pub fn current_branch(&self) -> (r: &String)
        ensures
            r@ == self.branch@,
    {
        &self.branch
    }

    /// The exclusion list handed to the snapshot-tree builder.
    pub fn ignores(&self) -> (r: &Ignores)
        ensures
            *r == self.ignores,
    {
        &self.ignores
    }

    /// Whether a branch of this name exists.
    pub fn branch_exists(&self, name: &str) -> (r: bool)
        ensures
            r == (find(self.branches@, name@) is Some),
    {
        let n = self.branches.len();
        let mut i: usize = 0;
        proof {
            assert(self.branches@.skip(0) =~= self.branches@);
        }
        while i < n
            invariant
                0 <= i <= n,
                self.branches@.len() == n,
                find(self.branches@, name@) == find(self.branches@.skip(i as int), name@),
            decreases n - i,
        {
            proof {
                let s = self.branches@.skip(i as int);
                assert(s[0] == self.branches@[i as int]);
                assert(s.drop_first() =~= self.branches@.skip(i + 1));
            }
            if bytes_eq(self.branches[i].0.as_str().as_bytes(), name.as_bytes()) {
                proof {
                    lemma_name_bytes_injective(self.branches@[i as int].0@, name@);
                }
                return true;
            }
            proof {
                if self.branches@[i as int].0@ == name@ {
                    assert(name_bytes(self.branches@[i as int].0@) == name_bytes(name@));
                    assert(false);
                }
            }
            i = i + 1;
        }
        proof {
            assert(self.branches@.skip(n as int) =~= Seq::<(String, Blob)>::empty());
        }
        false
    }

    /// The commit id a branch points at, or `None` for an unknown branch.
    pub fn branch_commit(&self, name: &str) -> (r: Option<Blob>)
        ensures
            match r {
                Some(b) => find(self.branches@, name@) matches Some(x) && b@ == x@,
                None => find(self.branches@, name@) is None,
            },
    {
        let n = self.branches.len();
        let mut i: usize = 0;
        proof {
            assert(self.branches@.skip(0) =~= self.branches@);
        }
        while i < n
            invariant
                0 <= i <= n,
                self.branches@.len() == n,
                find(self.branches@, name@) == find(self.branches@.skip(i as int), name@),
            decreases n - i,
        {
            proof {
                let s = self.branches@.skip(i as int);
                assert(s[0] == self.branches@[i as int]);
                assert(s.drop_first() =~= self.branches@.skip(i + 1));
            }
            if bytes_eq(self.branches[i].0.as_str().as_bytes(), name.as_bytes()) {
                proof {
                    lemma_name_bytes_injective(self.branches@[i as int].0@, name@);
                }
                return Some(self.branches[i].1.clone());
            }
            proof {
                if self.branches@[i as int].0@ == name@ {
                    assert(name_bytes(self.branches@[i as int].0@) == name_bytes(name@));
                    assert(false);
                }
            }
            i = i + 1;
        }
        proof {
            assert(self.branches@.skip(n as int) =~= Seq::<(String, Blob)>::empty());
        }
        None
    }

    /// Points a branch at a commit id, creating the branch if it is new.
    /// Other branches, the current branch name, and the ignore list are
    /// untouched.
    pub fn set_branch_commit(&mut self, name: &str, id: Blob)
        ensures
            final(self).branch == old(self).branch,
            final(self).ignores == old(self).ignores,
            find(final(self).branches@, name@) == Some(id),
            forall|n: Seq<char>|
                n != name@ ==> find(final(self).branches@, n) == find(old(self).branches@, n),
    {
        let ghost s0 = self.branches@;
        let n_len = self.branches.len();
        let mut i: usize = 0;
        while i < n_len && !bytes_eq(self.branches[i].0.as_str().as_bytes(), name.as_bytes())
            invariant
                0 <= i <= n_len,
                self.branches@ == s0,
                s0.len() == n_len,
                forall|j: int| 0 <= j < i ==> (#[trigger] s0[j]).0@ != name@,
            decreases n_len - i,
        {
            proof {
                if s0[i as int].0@ == name@ {
                    assert(name_bytes(s0[i as int].0@) == name_bytes(name@));
                    assert(false);
                }
            }
            i = i + 1;
        }
        let replace = i < n_len;
        let ghost j = if replace {
            i + 1
        } else {
            i as int
        };
        proof {
            if replace {
                lemma_name_bytes_injective(s0[i as int].0@, name@);
            }
        }
        if replace {
            self.branches.remove(i);
            self.branches.insert(i, (name.to_owned(), id));
        } else {
            self.branches.insert(i, (name.to_owned(), id));
        }
        proof {
            let x = self.branches@[i as int];
            let p = s0.take(i as int);
            let suf = s0.skip(j);
            assert(x.0@ == name@ && x.1 == id);
            assert(self.branches@ =~= p + seq![x] + suf);
            assert(s0 =~= p + s0.skip(i as int));
            lemma_find_concat(p + seq![x], suf, name@);
            lemma_find_concat(p, seq![x], name@);
            if find(p, name@) is Some {
                crate::directory::lemma_find_some(p, name@);
                assert(false);
            }
            assert(seq![x][0] == x);
            assert(seq![x].drop_first() =~= Seq::<(String, Blob)>::empty());
            assert(find(seq![x], name@) == Some(id));
            assert(find(self.branches@, name@) == Some(id));
            assert forall|nm: Seq<char>| nm != name@ implies find(self.branches@, nm) == find(
                s0,
                nm,
            ) by {
                lemma_find_concat(p + seq![x], suf, nm);
                lemma_find_concat(p, seq![x], nm);
                lemma_find_concat(p, s0.skip(i as int), nm);
                assert(find(Seq::<(String, Blob)>::empty(), nm) is None);
                assert(find(seq![x].drop_first(), nm) is None);
                assert(find(seq![x], nm) is None);
                if replace {
                    let rest = s0.skip(i as int);
                    assert(rest[0] == s0[i as int]);
                    assert(rest.drop_first() =~= suf);
                    assert(find(rest, nm) == find(suf, nm));
                }
            }
        }
    }

    /// Checks a branch out by name.
    pub fn set_current_branch(&mut self, name: String)
        ensures
            final(self).branch == name,
            final(self).branches == old(self).branches,
            final(self).ignores == old(self).ignores,
    {
        self.branch = name;
    }

    /// Creates a branch pointing at the current branch's commit. Reports
    /// `false`, changing nothing, when the current branch has no commit.
    pub fn create_branch(&mut self, name: &str) -> (r: bool)
        ensures
            final(self).branch == old(self).branch,
            final(self).ignores == old(self).ignores,
            match find(old(self).branches@, old(self).branch@) {
                Some(cur) => {
                    &&& r
                    &&& (find(final(self).branches@, name@) matches Some(x) && x@ == cur@)
                    &&& (forall|n: Seq<char>|
                        n != name@ ==> find(final(self).branches@, n) == find(
                            old(self).branches@,
                            n,
                        ))
                },
                None => !r && final(self).branches == old(self).branches,
            },
    {
        let cur = self.branch.clone();
        match self.branch_commit(cur.as_str()) {
            None => false,
            Some(id) => {
                self.set_branch_commit(name, id);
                true
            },
        }
    }
}

/// The canonical bytes of the empty snapshot tree the root commit wraps.
pub open spec fn root_tree_bytes() -> Seq<u8> {
    enc_u32(0)
}

/// The canonical bytes of the root commit: the empty tree, the fixed
/// message, no parents.
pub open spec fn root_commit_bytes() -> Seq<u8> {
    digest_of(root_tree_bytes()) + enc_u32(name_bytes("first commit"@).len() as int)
        + name_bytes("first commit"@) + enc_u32(0)
}

impl DotLog {
    /// Builds the state a fresh repository starts from: the empty tree and the
    /// root commit pushed into the store, and refs with a single default branch
    /// pointing at the root commit, with the default ignore list. Whether the
    /// state is persisted, and that a root that already holds a repository is
    /// left untouched, is the caller's concern.
    pub fn init<S: Objects>(store: &mut S) -> (r: Result<DotLog, S::Error>)
        ensures
            match r {
                Ok(log) => {
                    &&& log.branch@ == "master"@
                    &&& log.ignores.set@.len() == 1 && log.ignores.set@[0]@ == ".log"@
                    &&& log.branches@.len() == 1
                    &&& log.branches@[0].0@ == "master"@
                    &&& log.branches@[0].1@ == digest_of(root_commit_bytes())
                    &&& blob_wf(log.branches@[0].1)
                    &&& final(store).contents() == old(store).contents().insert(
                        digest_of(root_tree_bytes()),
                        root_tree_bytes(),
                    ).insert(digest_of(root_commit_bytes()), root_commit_bytes())
                },
                Err(_) => final(store).contents().remove(digest_of(root_tree_bytes())).remove(
                    digest_of(root_commit_bytes()),
                ) == old(store).contents().remove(digest_of(root_tree_bytes())).remove(
                    digest_of(root_commit_bytes()),
                ),
            },
            old(store).never_fails() ==> r is Ok,
            final(store).never_fails() == old(store).never_fails(),
    {
        let empty_dir = Directory::empty();
        proof {
            assert(crate::codec::enc_entries(empty_dir.root@) =~= Seq::<u8>::empty());
            assert(enc_dir(empty_dir) =~= root_tree_bytes());
        }
        let ghost m0 = store.contents();
        let ghost kt = digest_of(root_tree_bytes());
        let ghost kc = digest_of(root_commit_bytes());
        let tree_id = match insert_directory(store, &empty_dir) {
            Ok(id) => id,
            Err(e) => {
                proof {
                    assert(store.contents().remove(kt) == m0.remove(kt));
                }
                return Err(e);
            },
        };
        let message = "first commit".to_owned();
        proof {
            reveal_strlit("first commit");
            assert(vstd::utf8::is_ascii_chars(message@)) by {
                assert forall|i: int| 0 <= i < message@.len() implies '\0' <= #[trigger] message@[i]
                    <= '\u{7f}' by {
                    assert(message@ == "first commit"@);
                }
            }
            is_ascii_chars_encode_utf8(message@);
            assert(name_bytes(message@).len() == 12);
        }
        let commit = Commit { directory: tree_id, message, previous: Vec::new() };
        proof {
            assert(commit_wf(commit));
            assert(enc_blobs(commit.previous@) =~= Seq::<u8>::empty());
            assert(enc_commit(commit) =~= root_commit_bytes());
        }
        let commit_id = match insert_commit(store, &commit) {
            Ok(id) => id,
            Err(e) => {
                proof {
                    let m1 = m0.insert(kt, root_tree_bytes());
                    assert(store.contents().remove(kc) == m1.remove(kc));
                    assert(store.contents().remove(kt).remove(kc) =~= m0.remove(kt).remove(
                        kc,
                    )) by {
                        let a = store.contents().remove(kt).remove(kc);
                        let b = m0.remove(kt).remove(kc);
                        assert forall|k: Seq<u8>| #[trigger] a.contains_key(k)
                            == b.contains_key(k) && (a.contains_key(k) ==> a[k] == b[k]) by {
                            if k != kt && k != kc {
                                assert(store.contents().remove(kc).contains_key(k)
                                    == m1.remove(kc).contains_key(k));
                                assert(m1.contains_key(k) == m0.contains_key(k));
                                if store.contents().contains_key(k) {
                                    assert(store.contents().remove(kc)[k] == m1.remove(kc)[k]);
                                    assert(m1[k] == m0[k]);
                                }
                            }
                        }
                    }
                }
                return Err(e);
            },
        };
        let mut branches: Vec<(String, Blob)> = Vec::new();
        branches.push(("master".to_owned(), commit_id));
        Ok(DotLog { branch: "master".to_owned(), branches, ignores: Ignores::default() })
    }
}

/// Initialization is idempotent at the store: pushing the objects a first
/// initialization already pushed leaves the store's contents unchanged, and
/// the refs a second initialization computes are the same refs.
pub proof fn lemma_init_idempotent(m: Map<Seq<u8>, Seq<u8>>)
    ensures
        m.insert(digest_of(root_tree_bytes()), root_tree_bytes()).insert(
            digest_of(root_commit_bytes()),
            root_commit_bytes(),
        ).insert(digest_of(root_tree_bytes()), root_tree_bytes()).insert(
            digest_of(root_commit_bytes()),
            root_commit_bytes(),
        ) == m.insert(digest_of(root_tree_bytes()), root_tree_bytes()).insert(
            digest_of(root_commit_bytes()),
            root_commit_bytes(),
        ),
{
    let kt = digest_of(root_tree_bytes());
    let kc = digest_of(root_commit_bytes());
    assert(m.insert(kt, root_tree_bytes()).insert(kc, root_commit_bytes()).insert(
        kt,
        root_tree_bytes(),
    ).insert(kc, root_commit_bytes()) =~= m.insert(kt, root_tree_bytes()).insert(
        kc,
        root_commit_bytes(),
    ));
}

} // verus!
