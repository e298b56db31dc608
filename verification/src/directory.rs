//! Snapshot trees: an ordered mapping from basenames to entries, where an
//! entry is either a file fingerprint or a nested subtree. Entries are kept
//! strictly sorted by the UTF-8 bytes of their names, which makes the
//! representation canonical: two trees with the same contents are the same
//! sequence of entries.
use vstd::prelude::*;

use crate::blob::{blob_wf, Blob};
use crate::order::{bytes_eq, bytes_less, bytes_lt, lemma_bytes_lt_irreflexive,
    lemma_bytes_lt_total, lemma_bytes_lt_transitive};
use vstd::utf8::{encode_utf8, encode_utf8_decode_utf8, decode_utf8};

verus! {

/// One point-in-time state of a directory: named entries, sorted by name.
#[derive(Debug)]
pub struct Directory {
    pub root: Vec<(String, DirectoryEntry)>,
}

/// A directory member: a file's content fingerprint, or a nested subtree.
#[derive(Debug)]
pub enum DirectoryEntry {
    File(Blob),
    Directory(Box<Directory>),
}

/// The canonical byte key of an entry name.
pub open spec fn name_bytes(n: Seq<char>) -> Seq<u8> {
    encode_utf8(n)
}

/// Equal byte keys come only from equal names.
pub proof fn lemma_name_bytes_injective(a: Seq<char>, b: Seq<char>)
    requires
        name_bytes(a) == name_bytes(b),
    ensures
        a == b,
{
    broadcast use encode_utf8_decode_utf8;

    assert(decode_utf8(encode_utf8(a)) == a);
    assert(decode_utf8(encode_utf8(b)) == b);
}

/// Entry names admitted by the tree: a name whose UTF-8 encoding fits the
/// on-disk length field.
pub open spec fn name_ok(n: Seq<char>) -> bool {
    name_bytes(n).len() < 0x1_0000_0000
}

/// An entry sequence in canonical shape: admissible names, strictly sorted
/// by name bytes (hence unique), every member well-formed.
pub open spec fn entries_sorted(s: Seq<(String, DirectoryEntry)>) -> bool
    decreases s,
{
    &&& (forall|i: int| 0 <= i < s.len() ==> name_ok(#[trigger] s[i].0@))
    &&& (forall|i: int| 0 <= i < s.len() ==> entry_wf(#[trigger] s[i].1))
    &&& (forall|i: int, j: int|
        0 <= i < j < s.len() ==> bytes_lt(
            name_bytes(#[trigger] s[i].0@),
            name_bytes(#[trigger] s[j].0@),
        ))
}



pub open spec fn entry_wf(e: DirectoryEntry) -> bool
    decreases e,
{
    match e {
        DirectoryEntry::File(b) => blob_wf(b),
        DirectoryEntry::Directory(d) => dir_wf(*d),
    }
}

/// Well-formedness of a snapshot tree: every level in canonical shape,
/// with a member count that fits the on-disk count field.
pub open spec fn dir_wf(d: Directory) -> bool
    decreases d,
{
    entries_sorted(d.root@) && d.root@.len() < 0x1_0000_0000
}

/// Structural equality of entries, compared by contents: equal fingerprints
/// for files, pointwise-equal subtrees for directories.
pub open spec fn same_entry(a: DirectoryEntry, b: DirectoryEntry) -> bool
    decreases a,
{
    match (a, b) {
        (DirectoryEntry::File(x), DirectoryEntry::File(y)) => x@ == y@,
        (DirectoryEntry::Directory(da), DirectoryEntry::Directory(db)) => same_dir(*da, *db),
        _ => false,
    }
}

pub open spec fn same_dir(a: Directory, b: Directory) -> bool
    decreases a,
{
    same_entries(a.root@, b.root@)
}

pub open spec fn same_entries(
    a: Seq<(String, DirectoryEntry)>,
    b: Seq<(String, DirectoryEntry)>,
) -> bool
    decreases a,
{
    &&& a.len() == b.len()
    &&& (forall|i: int| 0 <= i < a.len() ==> (#[trigger] a[i]).0@ == b[i].0@)
    &&& (forall|i: int| 0 <= i < a.len() ==> same_entry((#[trigger] a[i]).1, b[i].1))
}

/// Structural equality of optional entries.
pub open spec fn same_opt(a: Option<DirectoryEntry>, b: Option<DirectoryEntry>) -> bool {
    match (a, b) {
        (None, None) => true,
        (Some(x), Some(y)) => same_entry(x, y),
        _ => false,
    }
}

/// Looks an entry up by name: the first (with well-formedness, the only)
/// entry carrying that name.
pub open spec fn find<T>(s: Seq<(String, T)>, n: Seq<char>) -> Option<T>
    decreases s.len(),
{
    if s.len() == 0 {
        None
    } else if s[0].0@ == n {
        Some(s[0].1)
    } else {
        find(s.drop_first(), n)
    }
}

/// A found entry is a member of the sequence.
pub proof fn lemma_find_some<T>(s: Seq<(String, T)>, n: Seq<char>)
    requires
        find(s, n) is Some,
    ensures
        exists|i: int| 0 <= i < s.len() && s[i].0@ == n && s[i].1 == find(s, n)->Some_0,
    decreases s.len(),
{
    if s.len() > 0 && s[0].0@ != n {
        lemma_find_some(s.drop_first(), n);
        let i = choose|i: int|
            0 <= i < s.drop_first().len() && s.drop_first()[i].0@ == n && s.drop_first()[i].1
                == find(s.drop_first(), n)->Some_0;
        assert(s[i + 1].0@ == n && s[i + 1].1 == find(s, n)->Some_0);
    }
}

/// A name that misses carries no entry anywhere in the sequence.
pub proof fn lemma_find_none<T>(s: Seq<(String, T)>, n: Seq<char>)
    requires
        find(s, n) is None,
    ensures
        forall|i: int| 0 <= i < s.len() ==> (#[trigger] s[i]).0@ != n,
    decreases s.len(),
{
    if s.len() > 0 {
        lemma_find_none(s.drop_first(), n);
        assert forall|i: int| 0 <= i < s.len() implies (#[trigger] s[i]).0@ != n by {
            if i > 0 {
                assert(s.drop_first()[i - 1].0@ != n);
            }
        }
    }
}

/// In a well-formed sequence, looking up the `k`-th name yields the `k`-th
/// entry.
pub proof fn lemma_find_index(s: Seq<(String, DirectoryEntry)>, k: int)
    requires
        entries_sorted(s),
        0 <= k < s.len(),
    ensures
        find(s, s[k].0@) == Some(s[k].1),
    decreases s.len(),
{
    if k > 0 {
        assert(bytes_lt(name_bytes(s[0].0@), name_bytes(s[k].0@)));
        lemma_bytes_lt_irreflexive(name_bytes(s[0].0@));
        assert(s[0].0@ != s[k].0@);
        assert(entries_sorted(s.drop_first())) by {
            assert forall|i: int| 0 <= i < s.drop_first().len() implies name_ok(
                #[trigger] s.drop_first()[i].0@,
            ) && entry_wf(s.drop_first()[i].1) by {
                assert(s.drop_first()[i] == s[i + 1]);
            }
            assert forall|i: int, j: int| 0 <= i < j < s.drop_first().len() implies bytes_lt(
                name_bytes(#[trigger] s.drop_first()[i].0@),
                name_bytes(#[trigger] s.drop_first()[j].0@),
            ) by {
                assert(s.drop_first()[i] == s[i + 1]);
                assert(s.drop_first()[j] == s[j + 1]);
            }
        }
        lemma_find_index(s.drop_first(), k - 1);
        assert(s.drop_first()[k - 1] == s[k]);
    }
}

/// The tail of a well-formed sequence is well-formed.
pub proof fn lemma_entries_sorted_drop_first(s: Seq<(String, DirectoryEntry)>)
    requires
        entries_sorted(s),
        s.len() > 0,
    ensures
        entries_sorted(s.drop_first()),
{
    assert forall|i: int| 0 <= i < s.drop_first().len() implies name_ok(
        #[trigger] s.drop_first()[i].0@,
    ) && entry_wf(s.drop_first()[i].1) by {
        assert(s.drop_first()[i] == s[i + 1]);
    }
    assert forall|i: int, j: int| 0 <= i < j < s.drop_first().len() implies bytes_lt(
        name_bytes(#[trigger] s.drop_first()[i].0@),
        name_bytes(#[trigger] s.drop_first()[j].0@),
    ) by {
        assert(s.drop_first()[i] == s[i + 1]);
        assert(s.drop_first()[j] == s[j + 1]);
    }
}

/// `find` distributes over concatenation: the left part is searched first.
pub proof fn lemma_find_concat<T>(s1: Seq<(String, T)>, s2: Seq<(String, T)>, n: Seq<char>)
    ensures
        find(s1 + s2, n) == (if find(s1, n) is Some {
            find(s1, n)
        } else {
            find(s2, n)
        }),
    decreases s1.len(),
{
    if s1.len() == 0 {
        assert(s1 + s2 =~= s2);
    } else {
        assert((s1 + s2)[0] == s1[0]);
        if s1[0].0@ != n {
            lemma_find_concat(s1.drop_first(), s2, n);
            assert((s1 + s2).drop_first() =~= s1.drop_first() + s2);
        }
    }
}

/// Two distinct positions of a well-formed sequence carry distinct names.
pub proof fn lemma_wf_names_distinct(s: Seq<(String, DirectoryEntry)>, i: int, j: int)
    requires
        entries_sorted(s),
        0 <= i < j < s.len(),
    ensures
        s[i].0@ != s[j].0@,
{
    assert(bytes_lt(name_bytes(s[i].0@), name_bytes(s[j].0@)));
    lemma_bytes_lt_irreflexive(name_bytes(s[i].0@));
}

/// Inserts an entry under a name, replacing any entry the name already
/// carries, and keeps the sequence sorted.
#[verifier::rlimit(60)]
pub fn map_insert(s: &mut Vec<(String, DirectoryEntry)>, name: String, e: DirectoryEntry)
    requires
        entries_sorted(old(s)@),
        name_ok(name@),
        entry_wf(e),
    ensures
        entries_sorted(final(s)@),
        find(final(s)@, name@) == Some(e),
        forall|n: Seq<char>| n != name@ ==> find(final(s)@, n) == find(old(s)@, n),
        final(s)@.len() <= old(s)@.len() + 1,
{
    let ghost s0 = s@;
    let n_len = s.len();
    let mut i: usize = 0;
    while i < n_len && bytes_less(s[i].0.as_str().as_bytes(), name.as_str().as_bytes())
        invariant
            0 <= i <= n_len,
            s@ == s0,
            s0.len() == n_len,
            forall|j: int|
                0 <= j < i ==> bytes_lt(name_bytes((#[trigger] s0[j]).0@), name_bytes(name@)),
        decreases n_len - i,
    {
        i = i + 1;
    }
    let replace = i < n_len && bytes_eq(s[i].0.as_str().as_bytes(), name.as_str().as_bytes());
    let ghost j = if replace {
        i + 1
    } else {
        i as int
    };
    proof {
        if i < n_len && !replace {
            lemma_bytes_lt_total(name_bytes(s0[i as int].0@), name_bytes(name@));
            assert(bytes_lt(name_bytes(name@), name_bytes(s0[i as int].0@)));
        }
        if replace {
            lemma_name_bytes_injective(s0[i as int].0@, name@);
        }
    }
    if replace {
        s.remove(i);
        s.insert(i, (name, e));
    } else {
        s.insert(i, (name, e));
    }
    proof {
        let x = s@[i as int];
        let p = s0.take(i as int);
        let suf = s0.skip(j);
        assert(x == (name, e));
        assert(x.0@ == name@ && x.1 == e);
        assert(seq![x].len() == 1 && seq![x][0] == x);
        assert(seq![x].drop_first() =~= Seq::<(String, DirectoryEntry)>::empty());
        assert(s@ =~= p + seq![x] + suf);
        assert(s0 =~= p + s0.skip(i as int));
        // the new entry's name sits strictly between prefix and suffix names
        assert forall|k: int| 0 <= k < suf.len() implies bytes_lt(
            name_bytes(name@),
            name_bytes((#[trigger] suf[k]).0@),
        ) by {
            assert(suf[k] == s0[j + k]);
            if replace {
                assert(bytes_lt(name_bytes(s0[i as int].0@), name_bytes(s0[j + k].0@)));
            } else {
                if i < n_len {
                    assert(bytes_lt(name_bytes(name@), name_bytes(s0[i as int].0@)));
                    if j + k > i {
                        lemma_bytes_lt_transitive(
                            name_bytes(name@),
                            name_bytes(s0[i as int].0@),
                            name_bytes(s0[j + k].0@),
                        );
                    }
                }
            }
        }
        // sortedness of the rebuilt sequence
        assert forall|a: int, b: int| 0 <= a < b < s@.len() implies bytes_lt(
            name_bytes((#[trigger] s@[a]).0@),
            name_bytes((#[trigger] s@[b]).0@),
        ) by {
            let na = if a < i {
                s0[a]
            } else if a == i {
                x
            } else {
                s0[j + (a - i - 1)]
            };
            let nb = if b < i {
                s0[b]
            } else if b == i {
                x
            } else {
                s0[j + (b - i - 1)]
            };
            assert(s@[a] == na);
            assert(s@[b] == nb);
            if a < i && b < i {
                assert(bytes_lt(name_bytes(s0[a].0@), name_bytes(s0[b].0@)));
            } else if a < i && b == i {
                assert(bytes_lt(name_bytes(s0[a].0@), name_bytes(name@)));
            } else if a < i && b > i {
                lemma_bytes_lt_transitive(
                    name_bytes(s0[a].0@),
                    name_bytes(name@),
                    name_bytes(s0[j + (b - i - 1)].0@),
                );
            } else if a == i {
                assert(bytes_lt(name_bytes(name@), name_bytes(s0[j + (b - i - 1)].0@)));
            } else {
                assert(bytes_lt(name_bytes(s0[j + (a - i - 1)].0@), name_bytes(s0[j + (b - i - 1)].0@)));
            }
        }
        // wf of members
        assert forall|k: int| 0 <= k < s@.len() implies name_ok((#[trigger] s@[k]).0@)
            && entry_wf(s@[k].1) by {
            if k < i {
                assert(s@[k] == s0[k]);
            } else if k > i {
                assert(s@[k] == s0[j + (k - i - 1)]);
            }
        }
        // lookup of the inserted name
        lemma_find_concat(p + seq![x], suf, name@);
        lemma_find_concat(p, seq![x], name@);
        assert forall|k: int| 0 <= k < p.len() implies (#[trigger] p[k]).0@ != name@ by {
            assert(p[k] == s0[k]);
            if p[k].0@ == name@ {
                assert(name_bytes(p[k].0@) == name_bytes(name@));
                lemma_bytes_lt_irreflexive(name_bytes(name@));
            }
        }
        if find(p, name@) is Some {
            lemma_find_some(p, name@);
            assert(false);
        }
        assert(find(seq![x], name@) == Some(e));
        assert(find(s@, name@) == Some(e));
        // lookup of every other name is untouched
        assert forall|nm: Seq<char>| nm != name@ implies find(s@, nm) == find(s0, nm) by {
            lemma_find_concat(p + seq![x], suf, nm);
            lemma_find_concat(p, seq![x], nm);
            lemma_find_concat(p, s0.skip(i as int), nm);
            assert(find(Seq::<(String, DirectoryEntry)>::empty(), nm) is None);
            assert(find(seq![x].drop_first(), nm) is None);
            assert(find(seq![x], nm) is None);
            if replace {
                let rest = s0.skip(i as int);
                assert(rest[0] == s0[i as int]);
                assert(rest.drop_first() =~= suf);
                assert(find(rest, nm) == find(suf, nm));
            }
        }
    }
}

impl Clone for DirectoryEntry {
    fn clone(&self) -> (r: Self)
        ensures
            same_entry(r, *self),
        decreases *self,
    {
        match self {
            DirectoryEntry::File(b) => DirectoryEntry::File(b.clone()),
            DirectoryEntry::Directory(d) => DirectoryEntry::Directory(Box::new((**d).clone())),
        }
    }
}

impl Clone for Directory {
    fn clone(&self) -> (r: Self)
        ensures
            same_dir(r, *self),
        decreases *self,
    {
        let mut root: Vec<(String, DirectoryEntry)> = Vec::new();
        let n = self.root.len();
        let mut i: usize = 0;
        while i < n
            invariant
                0 <= i <= n,
                self.root@.len() == n,
                root@.len() == i,
                forall|k: int|
                    0 <= k < i ==> (#[trigger] root@[k]).0@ == self.root@[k].0@ && same_entry(
                        root@[k].1,
                        self.root@[k].1,
                    ),
            decreases n - i,
        {
            let (nm, en) = &self.root[i];
            root.push((nm.clone(), en.clone()));
            i = i + 1;
        }
        Directory { root }
    }
}

/// Structural equality carries well-formedness across.
pub proof fn lemma_same_entry_wf(a: DirectoryEntry, b: DirectoryEntry)
    requires
        same_entry(a, b),
        entry_wf(b),
    ensures
        entry_wf(a),
    decreases a,
{
    match (a, b) {
        (DirectoryEntry::Directory(da), DirectoryEntry::Directory(db)) => {
            lemma_same_dir_wf(*da, *db);
        },
        _ => {},
    }
}

pub proof fn lemma_same_dir_wf(a: Directory, b: Directory)
    requires
        same_dir(a, b),
        dir_wf(b),
    ensures
        dir_wf(a),
    decreases a,
{
    assert forall|i: int| 0 <= i < a.root@.len() implies name_ok((#[trigger] a.root@[i]).0@)
        && entry_wf(a.root@[i].1) by {
        assert(a.root@[i].0@ == b.root@[i].0@);
        lemma_same_entry_wf(a.root@[i].1, b.root@[i].1);
    }
}

impl Directory {
    /// The empty snapshot tree.
    pub fn empty() -> (r: Directory)
        ensures
            r.root@ =~= Seq::<(String, DirectoryEntry)>::empty(),
            dir_wf(r),
    {
        Directory { root: Vec::new() }
    }

    /// Looks an entry up by name.
    pub fn get<'a>(&'a self, name: &str) -> (r: Option<&'a DirectoryEntry>)
        ensures
            match r {
                Some(e) => find(self.root@, name@) == Some(*e),
                None => find(self.root@, name@) is None,
            },
    {
        let n = self.root.len();
        let mut i: usize = 0;
        proof {
            assert(self.root@.skip(0) =~= self.root@);
        }
        while i < n
            invariant
                0 <= i <= n,
                self.root@.len() == n,
                find(self.root@, name@) == find(self.root@.skip(i as int), name@),
            decreases n - i,
        {
            proof {
                let s = self.root@.skip(i as int);
                assert(s[0] == self.root@[i as int]);
                assert(s.drop_first() =~= self.root@.skip(i + 1));
            }
            let (en, ee) = &self.root[i];
            if bytes_eq(en.as_str().as_bytes(), name.as_bytes()) {
                proof {
                    lemma_name_bytes_injective(en@, name@);
                }
                return Some(ee);
            }
            proof {
                if self.root@[i as int].0@ == name@ {
                    assert(name_bytes(self.root@[i as int].0@) == name_bytes(name@));
                    assert(false);
                }
            }
            i = i + 1;
        }
        proof {
            assert(self.root@.skip(n as int) =~= Seq::<(String, DirectoryEntry)>::empty());
        }
        None
    }
}

/// What the diff reports as added under the name `n`, considering only the
/// first `k` entries of `new`, later entries taking precedence. A name
/// missing from `old` contributes its whole new entry; matched files
/// contribute nothing here; matched subtrees contribute their own additions,
/// flattened; a name whose kind changed between the trees is treated as the
/// old entry deleted and the new entry added in full.
pub open spec fn added_upto(old: Directory, new: Directory, k: int, n: Seq<char>) -> Option<
    DirectoryEntry,
>
    decreases new, k,
{
    if k <= 0 || k > new.root@.len() {
        None
    } else {
        let nm = new.root@[k - 1].0;
        let e = new.root@[k - 1].1;
        let here = match find(old.root@, nm@) {
            Option::None => if nm@ == n {
                Option::Some(e)
            } else {
                Option::None
            },
            Option::Some(oe) => match (oe, e) {
                (DirectoryEntry::File(_), DirectoryEntry::File(_)) => Option::None,
                (DirectoryEntry::Directory(ds), DirectoryEntry::Directory(dn)) => added_upto(
                    *ds,
                    *dn,
                    dn.root@.len() as int,
                    n,
                ),
                _ => if nm@ == n {
                    Option::Some(e)
                } else {
                    Option::None
                },
            },
        };
        if here is Some {
            here
        } else {
            added_upto(old, new, k - 1, n)
        }
    }
}

/// The entry the diff of `old` against `new` reports as added under `n`.
pub open spec fn spec_added(old: Directory, new: Directory, n: Seq<char>) -> Option<
    DirectoryEntry,
> {
    added_upto(old, new, new.root@.len() as int, n)
}

/// What the diff reports as modified under `n`, considering only the first
/// `k` entries of `new`: a file present in both trees whose fingerprint
/// changed, reported with the new fingerprint, or a change inside a subtree
/// present in both, flattened.
pub open spec fn modified_upto(old: Directory, new: Directory, k: int, n: Seq<char>) -> Option<
    DirectoryEntry,
>
    decreases new, k,
{
    if k <= 0 || k > new.root@.len() {
        None
    } else {
        let nm = new.root@[k - 1].0;
        let e = new.root@[k - 1].1;
        let here = match find(old.root@, nm@) {
            Option::None => Option::None,
            Option::Some(oe) => match (oe, e) {
                (DirectoryEntry::File(ob), DirectoryEntry::File(nb)) => if ob@ != nb@ && nm@
                    == n {
                    Option::Some(e)
                } else {
                    Option::None
                },
                (DirectoryEntry::Directory(ds), DirectoryEntry::Directory(dn)) => modified_upto(
                    *ds,
                    *dn,
                    dn.root@.len() as int,
                    n,
                ),
                _ => Option::None,
            },
        };
        if here is Some {
            here
        } else {
            modified_upto(old, new, k - 1, n)
        }
    }
}

/// The entry the diff of `old` against `new` reports as modified under `n`.
pub open spec fn spec_modified(old: Directory, new: Directory, n: Seq<char>) -> Option<
    DirectoryEntry,
> {
    modified_upto(old, new, new.root@.len() as int, n)
}

/// Merges `sub` into `r`, entries of `sub` replacing entries of `r` under
/// the same name.
fn map_extend(r: &mut Vec<(String, DirectoryEntry)>, sub: Vec<(String, DirectoryEntry)>)
    requires
        entries_sorted(old(r)@),
        entries_sorted(sub@),
    ensures
        entries_sorted(final(r)@),
        forall|n: Seq<char>|
            find(final(r)@, n) == (if find(sub@, n) is Some {
                find(sub@, n)
            } else {
                find(old(r)@, n)
            }),
{
    let ghost r0 = r@;
    let ghost sub0 = sub@;
    let mut sub = sub;
    let mut k: usize = 0;
    let total: usize = sub.len();
    proof {
        assert(sub0.take(0) =~= Seq::<(String, DirectoryEntry)>::empty());
    }
    while sub.len() > 0
        invariant
            entries_sorted(r@),
            entries_sorted(sub0),
            sub0.len() == total,
            0 <= k <= sub0.len(),
            sub@ =~= sub0.skip(k as int),
            forall|n: Seq<char>|
                find(r@, n) == (if find(sub0.take(k as int), n) is Some {
                    find(sub0.take(k as int), n)
                } else {
                    find(r0, n)
                }),
        decreases sub@.len(),
    {
        proof {
            assert(sub@.len() == sub0.len() - k);
            assert(k < sub0.len());
            assert(sub@[0] == sub0[k as int]);
            assert(sub0.skip(k as int).drop_first() =~= sub0.skip(k + 1));
        }
        let (nm, e) = sub.remove(0);
        let ghost nmv = nm@;
        let ghost ev = e;
        let ghost rprev = r@;
        map_insert(r, nm, e);
        proof {
            let tk = sub0.take(k as int);
            let tk1 = sub0.take(k + 1);
            assert(tk1 =~= tk + seq![sub0[k as int]]);
            assert forall|n: Seq<char>|
                find(r@, n) == (if find(tk1, n) is Some {
                    find(tk1, n)
                } else {
                    find(r0, n)
                }) by {
                lemma_find_concat(tk, seq![sub0[k as int]], n);
                assert(seq![sub0[k as int]][0] == sub0[k as int]);
                assert(seq![sub0[k as int]].drop_first() =~= Seq::<(
                    String,
                    DirectoryEntry,
                )>::empty());
                if n == nmv {
                    // earlier names of `sub` are strictly below this one
                    assert forall|i: int| 0 <= i < tk.len() implies (#[trigger] tk[i]).0@
                        != n by {
                        assert(tk[i] == sub0[i]);
                        assert(bytes_lt(name_bytes(sub0[i].0@), name_bytes(sub0[k as int].0@)));
                        if sub0[i].0@ == n {
                            lemma_bytes_lt_irreflexive(name_bytes(n));
                        }
                    }
                    if find(tk, n) is Some {
                        lemma_find_some(tk, n);
                        assert(false);
                    }
                    assert(find(tk1, n) == Some(ev));
                    assert(find(r@, n) == Some(ev));
                } else {
                    assert(sub0[k as int].0@ == nmv);
                    assert(find(Seq::<(String, DirectoryEntry)>::empty(), n) is None);
                    assert(find(seq![sub0[k as int]].drop_first(), n) is None);
                    assert(find(seq![sub0[k as int]], n) is None);
                    assert(find(r@, n) == find(rprev, n));
                }
            }
        }
        k = k + 1;
    }
    proof {
        assert(sub0.take(sub0.len() as int) =~= sub0);
    }
}

impl Directory {
    /// Entries present in `other` but absent from `main`, at any depth under
    /// subtrees the two have in common, flattened into one level keyed by
    /// basename.
    fn get_added(main: &Directory, other: &Directory) -> (r: Vec<(String, DirectoryEntry)>)
        requires
            dir_wf(*main),
            dir_wf(*other),
        ensures
            entries_sorted(r@),
            forall|n: Seq<char>| same_opt(find(r@, n), spec_added(*main, *other, n)),
        decreases *other,
    {
        let mut r: Vec<(String, DirectoryEntry)> = Vec::new();
        let n_len = other.root.len();
        let mut i: usize = 0;
        while i < n_len
            invariant
                dir_wf(*main),
                dir_wf(*other),
                other.root@.len() == n_len,
                0 <= i <= n_len,
                entries_sorted(r@),
                forall|n: Seq<char>|
                    same_opt(find(r@, n), added_upto(*main, *other, i as int, n)),
            decreases n_len - i,
        {
            let ghost rprev = r@;
            let (nm, e) = &other.root[i];
            proof {
                assert(entry_wf(other.root@[i as int].1));
            }
            match main.get(nm.as_str()) {
                Option::None => {
                    let nmc = nm.clone();
                    let ec = e.clone();
                    proof {
                        lemma_same_entry_wf(ec, other.root@[i as int].1);
                    }
                    map_insert(&mut r, nmc, ec);
                },
                Option::Some(oe) => {
                    match (oe, e) {
                        (DirectoryEntry::File(_), DirectoryEntry::File(_)) => {},
                        (DirectoryEntry::Directory(ds), DirectoryEntry::Directory(dn)) => {
                            proof {
                                lemma_find_some(main.root@, other.root@[i as int].0@);
                            }
                            let sub = Directory::get_added(&**ds, &**dn);
                            map_extend(&mut r, sub);
                        },
                        _ => {
                            let nmc = nm.clone();
                            let ec = e.clone();
                            proof {
                                lemma_same_entry_wf(ec, other.root@[i as int].1);
                            }
                            map_insert(&mut r, nmc, ec);
                        },
                    }
                },
            }
            proof {
                assert forall|n: Seq<char>|
                    same_opt(find(r@, n), added_upto(*main, *other, i + 1, n)) by {
                    let nm0 = other.root@[i as int].0;
                    let e0 = other.root@[i as int].1;
                    assert(added_upto(*main, *other, i + 1, n) == (
                    {
                        let here = match find(main.root@, nm0@) {
                            Option::None => if nm0@ == n {
                                Option::Some(e0)
                            } else {
                                Option::None
                            },
                            Option::Some(oe) => match (oe, e0) {
                                (DirectoryEntry::File(_), DirectoryEntry::File(_)) => Option::None,
                                (
                                    DirectoryEntry::Directory(ds),
                                    DirectoryEntry::Directory(dn),
                                ) => added_upto(*ds, *dn, dn.root@.len() as int, n),
                                _ => if nm0@ == n {
                                    Option::Some(e0)
                                } else {
                                    Option::None
                                },
                            },
                        };
                        if here is Some {
                            here
                        } else {
                            added_upto(*main, *other, i as int, n)
                        }
                    }));
                }
            }
            i = i + 1;
        }
        r
    }

    /// Entries present in `main` but absent from `other`, at any depth under
    /// subtrees the two have in common, flattened into one level keyed by
    /// basename.
    fn get_deleted(main: &Directory, other: &Directory) -> (r: Vec<(String, DirectoryEntry)>)
        requires
            dir_wf(*main),
            dir_wf(*other),
        ensures
            entries_sorted(r@),
            forall|n: Seq<char>| same_opt(find(r@, n), spec_added(*other, *main, n)),
    {
        Directory::get_added(other, main)
    }

    /// Entries present in both trees whose contents changed: files whose
    /// fingerprints differ (reported with the new fingerprint), and changes
    /// inside common subtrees, flattened into one level keyed by basename.
    fn get_changes(main: &Directory, other: &Directory) -> (r: Vec<(String, DirectoryEntry)>)
        requires
            dir_wf(*main),
            dir_wf(*other),
        ensures
            entries_sorted(r@),
            forall|n: Seq<char>| same_opt(find(r@, n), spec_modified(*main, *other, n)),
        decreases *other,
    {
        let mut r: Vec<(String, DirectoryEntry)> = Vec::new();
        let n_len = other.root.len();
        let mut i: usize = 0;
        while i < n_len
            invariant
                dir_wf(*main),
                dir_wf(*other),
                other.root@.len() == n_len,
                0 <= i <= n_len,
                entries_sorted(r@),
                forall|n: Seq<char>|
                    same_opt(find(r@, n), modified_upto(*main, *other, i as int, n)),
            decreases n_len - i,
        {
            let ghost rprev = r@;
            let (nm, e) = &other.root[i];
            proof {
                assert(entry_wf(other.root@[i as int].1));
            }
            match main.get(nm.as_str()) {
                Option::None => {},
                Option::Some(oe) => {
                    match (oe, e) {
                        (DirectoryEntry::File(ob), DirectoryEntry::File(nb)) => {
                            if !crate::order::bytes_eq(ob.0.as_slice(), nb.0.as_slice()) {
                                let nmc = nm.clone();
                                let ec = e.clone();
                                proof {
                                    lemma_same_entry_wf(ec, other.root@[i as int].1);
                                }
                                map_insert(&mut r, nmc, ec);
                            }
                        },
                        (DirectoryEntry::Directory(ds), DirectoryEntry::Directory(dn)) => {
                            proof {
                                lemma_find_some(main.root@, other.root@[i as int].0@);
                            }
                            let sub = Directory::get_changes(&**ds, &**dn);
                            map_extend(&mut r, sub);
                        },
                        _ => {},
                    }
                },
            }
            proof {
                assert forall|n: Seq<char>|
                    same_opt(find(r@, n), modified_upto(*main, *other, i + 1, n)) by {
                    let nm0 = other.root@[i as int].0;
                    let e0 = other.root@[i as int].1;
                    assert(modified_upto(*main, *other, i + 1, n) == (
                    {
                        let here = match find(main.root@, nm0@) {
                            Option::None => Option::None,
                            Option::Some(oe) => match (oe, e0) {
                                (DirectoryEntry::File(ob), DirectoryEntry::File(nb)) => if ob@
                                    != nb@ && nm0@ == n {
                                    Option::Some(e0)
                                } else {
                                    Option::None
                                },
                                (
                                    DirectoryEntry::Directory(ds),
                                    DirectoryEntry::Directory(dn),
                                ) => modified_upto(*ds, *dn, dn.root@.len() as int, n),
                                _ => Option::None,
                            },
                        };
                        if here is Some {
                            here
                        } else {
                            modified_upto(*main, *other, i as int, n)
                        }
                    }));
                }
            }
            i = i + 1;
        }
        r
    }

    /// Compares `self` (the old tree) against `other` (the new tree).
    pub fn diff(&self, other: &Directory) -> (r: Diff)
        requires
            dir_wf(*self),
            dir_wf(*other),
        ensures
            entries_sorted(r.added@),
            entries_sorted(r.deleted@),
            entries_sorted(r.modified@),
            forall|n: Seq<char>| same_opt(find(r.added@, n), spec_added(*self, *other, n)),
            forall|n: Seq<char>| same_opt(find(r.deleted@, n), spec_added(*other, *self, n)),
            forall|n: Seq<char>| same_opt(find(r.modified@, n), spec_modified(*self, *other, n)),
    {
        let added = Directory::get_added(self, other);
        let deleted = Directory::get_deleted(self, other);
        let modified = Directory::get_changes(self, other);
        Diff { deleted, added, modified }
    }
}

impl PartialEq for DirectoryEntry {
    fn eq(&self, other: &Self) -> (r: bool)
        decreases *self,
    {
        match (self, other) {
            (DirectoryEntry::File(a), DirectoryEntry::File(b)) => bytes_eq(
                a.0.as_slice(),
                b.0.as_slice(),
            ),
            (DirectoryEntry::Directory(da), DirectoryEntry::Directory(db)) => (&**da).eq(&**db),
            _ => false,
        }
    }
}

impl vstd::std_specs::cmp::PartialEqSpecImpl for DirectoryEntry {
    open spec fn obeys_eq_spec() -> bool {
        true
    }

    open spec fn eq_spec(&self, other: &DirectoryEntry) -> bool {
        same_entry(*self, *other)
    }
}

impl Eq for DirectoryEntry {}

impl PartialEq for Directory {
    fn eq(&self, other: &Self) -> (r: bool)
        decreases *self,
    {
        let n = self.root.len();
        if n != other.root.len() {
            return false;
        }
        let mut i: usize = 0;
        while i < n
            invariant
                0 <= i <= n,
                self.root@.len() == n,
                other.root@.len() == n,
                forall|k: int|
                    0 <= k < i ==> (#[trigger] self.root@[k]).0@ == other.root@[k].0@
                        && same_entry(self.root@[k].1, other.root@[k].1),
            decreases n - i,
        {
            let (na, ea) = &self.root[i];
            let (nb, eb) = &other.root[i];
            if !bytes_eq(na.as_str().as_bytes(), nb.as_str().as_bytes()) {
                proof {
                    if self.root@[i as int].0@ == other.root@[i as int].0@ {
                        assert(name_bytes(self.root@[i as int].0@) == name_bytes(
                            other.root@[i as int].0@,
                        ));
                        assert(false);
                    }
                }
                return false;
            }
            proof {
                lemma_name_bytes_injective(self.root@[i as int].0@, other.root@[i as int].0@);
            }
            if !ea.eq(eb) {
                return false;
            }
            i = i + 1;
        }
        true
    }
}

impl vstd::std_specs::cmp::PartialEqSpecImpl for Directory {
    open spec fn obeys_eq_spec() -> bool {
        true
    }

    open spec fn eq_spec(&self, other: &Directory) -> bool {
        same_dir(*self, *other)
    }
}

impl Eq for Directory {}

/// Structural equality of two flattened diff maps and of diff reports.
pub open spec fn same_diff(a: Diff, b: Diff) -> bool {
    &&& same_entries(a.added@, b.added@)
    &&& same_entries(a.deleted@, b.deleted@)
    &&& same_entries(a.modified@, b.modified@)
}

pub open spec fn same_diff_entry(a: DiffEntry, b: DiffEntry) -> bool {
    match (a, b) {
        (DiffEntry::File(x), DiffEntry::File(y)) => x@ == y@,
        (DiffEntry::Directory(da), DiffEntry::Directory(db)) => same_diff(*da, *db),
        _ => false,
    }
}

/// Compares two entry sequences structurally.
fn entries_eq(a: &Vec<(String, DirectoryEntry)>, b: &Vec<(String, DirectoryEntry)>) -> (r: bool)
    ensures
        r == same_entries(a@, b@),
{
    let n = a.len();
    if n != b.len() {
        return false;
    }
    let mut i: usize = 0;
    while i < n
        invariant
            0 <= i <= n,
            a@.len() == n,
            b@.len() == n,
            forall|k: int|
                0 <= k < i ==> (#[trigger] a@[k]).0@ == b@[k].0@ && same_entry(
                    a@[k].1,
                    b@[k].1,
                ),
        decreases n - i,
    {
        let (na, ea) = &a[i];
        let (nb, eb) = &b[i];
        if !bytes_eq(na.as_str().as_bytes(), nb.as_str().as_bytes()) {
            proof {
                if a@[i as int].0@ == b@[i as int].0@ {
                    assert(name_bytes(a@[i as int].0@) == name_bytes(b@[i as int].0@));
                    assert(false);
                }
            }
            return false;
        }
        proof {
            lemma_name_bytes_injective(a@[i as int].0@, b@[i as int].0@);
        }
        if !ea.eq(eb) {
            return false;
        }
        i = i + 1;
    }
    true
}

impl PartialEq for Diff {
    fn eq(&self, other: &Self) -> (r: bool) {
        entries_eq(&self.added, &other.added) && entries_eq(&self.deleted, &other.deleted)
            && entries_eq(&self.modified, &other.modified)
    }
}

impl vstd::std_specs::cmp::PartialEqSpecImpl for Diff {
    open spec fn obeys_eq_spec() -> bool {
        true
    }

    open spec fn eq_spec(&self, other: &Diff) -> bool {
        same_diff(*self, *other)
    }
}

impl Eq for Diff {}

impl PartialEq for DiffEntry {
    fn eq(&self, other: &Self) -> (r: bool) {
        match (self, other) {
            (DiffEntry::File(a), DiffEntry::File(b)) => bytes_eq(a.0.as_slice(), b.0.as_slice()),
            (DiffEntry::Directory(da), DiffEntry::Directory(db)) => (&**da).eq(&**db),
            _ => false,
        }
    }
}

impl vstd::std_specs::cmp::PartialEqSpecImpl for DiffEntry {
    open spec fn obeys_eq_spec() -> bool {
        true
    }

    open spec fn eq_spec(&self, other: &DiffEntry) -> bool {
        same_diff_entry(*self, *other)
    }
}

impl Eq for DiffEntry {}

/// Structural equality is reflexive.
pub proof fn lemma_same_entry_reflexive(a: DirectoryEntry)
    ensures
        same_entry(a, a),
    decreases a,
{
    match a {
        DirectoryEntry::Directory(d) => {
            assert forall|i: int| 0 <= i < d.root@.len() implies same_entry(
                (#[trigger] d.root@[i]).1,
                d.root@[i].1,
            ) by {
                lemma_same_entry_reflexive(d.root@[i].1);
            }
        },
        _ => {},
    }
}

/// Structural equality is symmetric.
pub proof fn lemma_same_entry_symmetric(a: DirectoryEntry, b: DirectoryEntry)
    requires
        same_entry(a, b),
    ensures
        same_entry(b, a),
    decreases a,
{
    match (a, b) {
        (DirectoryEntry::Directory(da), DirectoryEntry::Directory(db)) => {
            assert forall|i: int| 0 <= i < db.root@.len() implies (#[trigger] db.root@[i]).0@
                == da.root@[i].0@ && same_entry(db.root@[i].1, da.root@[i].1) by {
                lemma_same_entry_symmetric(da.root@[i].1, db.root@[i].1);
            }
        },
        _ => {},
    }
}

/// Structural equality is transitive.
pub proof fn lemma_same_entry_transitive(a: DirectoryEntry, b: DirectoryEntry, c: DirectoryEntry)
    requires
        same_entry(a, b),
        same_entry(b, c),
    ensures
        same_entry(a, c),
    decreases a,
{
    match (a, b, c) {
        (
            DirectoryEntry::Directory(da),
            DirectoryEntry::Directory(db),
            DirectoryEntry::Directory(dc),
        ) => {
            assert forall|i: int| 0 <= i < da.root@.len() implies (#[trigger] da.root@[i]).0@
                == dc.root@[i].0@ && same_entry(da.root@[i].1, dc.root@[i].1) by {
                lemma_same_entry_transitive(da.root@[i].1, db.root@[i].1, dc.root@[i].1);
            }
        },
        _ => {},
    }
}

/// Diff identity: comparing a well-formed tree against itself reports
/// nothing under any name — no addition, no deletion, no modification.
pub proof fn lemma_diff_identity(t: Directory, n: Seq<char>)
    requires
        dir_wf(t),
    ensures
        spec_added(t, t, n) is None,
        spec_modified(t, t, n) is None,
{
    lemma_added_upto_identity(t, t.root@.len() as int, n);
    lemma_modified_upto_identity(t, t.root@.len() as int, n);
}

proof fn lemma_added_upto_identity(t: Directory, k: int, n: Seq<char>)
    requires
        dir_wf(t),
    ensures
        added_upto(t, t, k, n) is None,
    decreases t, k,
{
    if 0 < k <= t.root@.len() {
        lemma_find_index(t.root@, k - 1);
        let e = t.root@[k - 1].1;
        match e {
            DirectoryEntry::Directory(dn) => {
                assert(entry_wf(e));
                lemma_added_upto_identity(*dn, dn.root@.len() as int, n);
            },
            _ => {},
        }
        lemma_added_upto_identity(t, k - 1, n);
    }
}

proof fn lemma_modified_upto_identity(t: Directory, k: int, n: Seq<char>)
    requires
        dir_wf(t),
    ensures
        modified_upto(t, t, k, n) is None,
    decreases t, k,
{
    if 0 < k <= t.root@.len() {
        lemma_find_index(t.root@, k - 1);
        let e = t.root@[k - 1].1;
        match e {
            DirectoryEntry::Directory(dn) => {
                assert(entry_wf(e));
                lemma_modified_upto_identity(*dn, dn.root@.len() as int, n);
            },
            _ => {},
        }
        lemma_modified_upto_identity(t, k - 1, n);
    }
}

/// Diff symmetry: what comparing `a` against `b` reports as added under a
/// name is structurally what comparing `b` against `a` reports as deleted
/// under it, both being the entry the specification adds from `a` to `b`.
pub proof fn lemma_diff_symmetry(
    a: Directory,
    b: Directory,
    d_ab: Diff,
    d_ba: Diff,
    n: Seq<char>,
)
    requires
        same_opt(find(d_ab.added@, n), spec_added(a, b, n)),
        same_opt(find(d_ba.deleted@, n), spec_added(a, b, n)),
    ensures
        same_opt(find(d_ab.added@, n), find(d_ba.deleted@, n)),
{
    match (find(d_ab.added@, n), find(d_ba.deleted@, n), spec_added(a, b, n)) {
        (Option::Some(x), Option::Some(y), Option::Some(s)) => {
            lemma_same_entry_symmetric(y, s);
            lemma_same_entry_transitive(x, s, y);
        },
        _ => {},
    }
}

/// A canonical sequence is empty exactly when every lookup misses.
pub proof fn lemma_find_empty(s: Seq<(String, DirectoryEntry)>)
    requires
        entries_sorted(s),
    ensures
        (s.len() == 0) <==> (forall|n: Seq<char>| find(s, n) is None),
{
    if s.len() > 0 {
        lemma_find_index(s, 0);
        assert(find(s, s[0].0@) is Some);
    }
}

/// The result of comparing two snapshot trees: entries only in the new tree,
/// entries only in the old tree, and entries in both whose contents changed,
/// each flattened into one level keyed by basename.
#[derive(Debug)]
pub struct Diff {
    pub deleted: Vec<(String, DirectoryEntry)>,
    pub added: Vec<(String, DirectoryEntry)>,
    pub modified: Vec<(String, DirectoryEntry)>,
}

/// What changed at one entry: a file's new fingerprint, or a nested diff.
#[derive(Debug)]
pub enum DiffEntry {
    File(Blob),
    Directory(Box<Diff>),
}

impl DirectoryEntry {
    /// Compares one entry against another carried by the same name, `self`
    /// being the old side. Equal contents yield `None`. Two files yield the
    /// new fingerprint; two subtrees yield their nested diff; an entry whose
    /// kind changed is reported as the new side in full — a new file
    /// directly, a new subtree as a diff that adds its top-level entries.
    pub fn diff(&self, other: &DirectoryEntry) -> (r: Option<DiffEntry>)
        requires
            entry_wf(*self),
            entry_wf(*other),
        ensures
            match (*self, *other) {
                (DirectoryEntry::File(a), DirectoryEntry::File(b)) => if a@ == b@ {
                    r is None
                } else {
                    r matches Some(DiffEntry::File(c)) && c@ == b@
                },
                (DirectoryEntry::Directory(da), DirectoryEntry::Directory(db)) => {
                    if (forall|n: Seq<char>|
                        spec_added(*da, *db, n) is None && spec_added(*db, *da, n) is None
                            && spec_modified(*da, *db, n) is None) {
                        r is None
                    } else {
                        r matches Some(DiffEntry::Directory(d)) && (forall|n: Seq<char>|
                            same_opt(find(d.added@, n), spec_added(*da, *db, n)) && same_opt(
                                find(d.deleted@, n),
                                spec_added(*db, *da, n),
                            ) && same_opt(find(d.modified@, n), spec_modified(*da, *db, n)))
                    }
                },
                (DirectoryEntry::Directory(_), DirectoryEntry::File(b)) => r matches Some(
                    DiffEntry::File(c),
                ) && c@ == b@,
                (DirectoryEntry::File(_), DirectoryEntry::Directory(db)) => r matches Some(
                    DiffEntry::Directory(d),
                ) && d.deleted@.len() == 0 && d.modified@.len() == 0 && (forall|n: Seq<char>|
                    same_opt(find(d.added@, n), find(db.root@, n))),
            },
    {
        match (self, other) {
            (DirectoryEntry::File(a), DirectoryEntry::File(b)) => {
                if bytes_eq(a.0.as_slice(), b.0.as_slice()) {
                    None
                } else {
                    Some(DiffEntry::File(b.clone()))
                }
            },
            (DirectoryEntry::Directory(da), DirectoryEntry::Directory(db)) => {
                let d = da.diff(db);
                if d.is_empty() {
                    proof {
                        lemma_find_empty(d.added@);
                        lemma_find_empty(d.deleted@);
                        lemma_find_empty(d.modified@);
                    }
                    None
                } else {
                    proof {
                        let n0 = if d.added@.len() > 0 {
                            d.added@[0].0@
                        } else if d.deleted@.len() > 0 {
                            d.deleted@[0].0@
                        } else {
                            d.modified@[0].0@
                        };
                        if d.added@.len() > 0 {
                            lemma_find_index(d.added@, 0);
                        } else if d.deleted@.len() > 0 {
                            lemma_find_index(d.deleted@, 0);
                        } else {
                            lemma_find_index(d.modified@, 0);
                        }
                        assert(!(spec_added(**da, **db, n0) is None && spec_added(
                            **db,
                            **da,
                            n0,
                        ) is None && spec_modified(**da, **db, n0) is None));
                    }
                    Some(DiffEntry::Directory(Box::new(d)))
                }
            },
            (DirectoryEntry::Directory(_), DirectoryEntry::File(b)) => {
                Some(DiffEntry::File(b.clone()))
            },
            (DirectoryEntry::File(_), DirectoryEntry::Directory(db)) => {
                let none = Directory::empty();
                let d = none.diff(db);
                proof {
                    assert(db.root@.take(db.root@.len() as int) =~= db.root@);
                    assert forall|n: Seq<char>|
                        same_opt(find(d.added@, n), find(db.root@, n)) by {
                        lemma_added_top(none, **db, db.root@.len() as int, n);
                        match (find(d.added@, n), spec_added(none, **db, n), find(db.root@, n)) {
                            (Option::Some(x), Option::Some(s), Option::Some(f)) => {
                                lemma_same_entry_transitive(x, s, f);
                            },
                            _ => {},
                        }
                    }
                    assert forall|n: Seq<char>| find(d.deleted@, n) is None by {
                        assert(same_opt(find(d.deleted@, n), spec_added(**db, none, n)));
                        assert(added_upto(**db, none, none.root@.len() as int, n) is None);
                    }
                    assert forall|n: Seq<char>| find(d.modified@, n) is None by {
                        assert(same_opt(find(d.modified@, n), spec_modified(none, **db, n)));
                        lemma_modified_empty_old(none, **db, db.root@.len() as int, n);
                    }
                    lemma_find_empty(d.deleted@);
                    lemma_find_empty(d.modified@);
                }
                Some(DiffEntry::Directory(Box::new(d)))
            },
        }
    }
}

/// Against an empty old tree, the diff adds exactly the new tree's top-level
/// entries.
proof fn lemma_added_top(empty: Directory, db: Directory, k: int, n: Seq<char>)
    requires
        empty.root@.len() == 0,
        dir_wf(db),
        0 <= k <= db.root@.len(),
    ensures
        same_opt(added_upto(empty, db, k, n), find(db.root@.take(k), n)),
    decreases k,
{
    if k <= 0 {
        assert(db.root@.take(0) =~= Seq::<(String, DirectoryEntry)>::empty());
        assert(find(db.root@.take(0), n) is None);
        assert(added_upto(empty, db, k, n) is None);
    } else {
        let nm = db.root@[k - 1].0;
        let e = db.root@[k - 1].1;
        assert(find(empty.root@, nm@) is None);
        lemma_added_top(empty, db, k - 1, n);
        assert(db.root@.take(k) =~= db.root@.take(k - 1) + seq![db.root@[k - 1]]);
        lemma_find_concat(db.root@.take(k - 1), seq![db.root@[k - 1]], n);
        assert(seq![db.root@[k - 1]][0] == db.root@[k - 1]);
        assert(seq![db.root@[k - 1]].drop_first() =~= Seq::<(String, DirectoryEntry)>::empty());
        assert(find(seq![db.root@[k - 1]].drop_first(), n) is None);
        if nm@ != n {
            assert(find(seq![db.root@[k - 1]], n) is None);
        }
        if nm@ == n {
            // earlier entries carry strictly smaller names, so the earlier
            // prefix misses `n`
            assert forall|i: int| 0 <= i < db.root@.take(k - 1).len() implies (#[trigger] db.root@.take(
                k - 1,
            )[i]).0@ != n by {
                assert(db.root@.take(k - 1)[i] == db.root@[i]);
                assert(bytes_lt(name_bytes(db.root@[i].0@), name_bytes(nm@)));
                if db.root@[i].0@ == n {
                    lemma_bytes_lt_irreflexive(name_bytes(n));
                }
            }
            if find(db.root@.take(k - 1), n) is Some {
                lemma_find_some(db.root@.take(k - 1), n);
                assert(false);
            }
            lemma_same_entry_reflexive(e);
        }
    }
}

/// Against an empty old tree, nothing is reported as modified.
proof fn lemma_modified_empty_old(empty: Directory, db: Directory, k: int, n: Seq<char>)
    requires
        empty.root@.len() == 0,
        0 <= k <= db.root@.len(),
    ensures
        modified_upto(empty, db, k, n) is None,
    decreases k,
{
    if k > 0 {
        assert(find(empty.root@, db.root@[k - 1].0@) is None);
        lemma_modified_empty_old(empty, db, k - 1, n);
    }
}

impl Diff {
    /// A diff that reports nothing.
    pub fn is_empty(&self) -> (r: bool)
        ensures
            r == (self.added@.len() == 0 && self.deleted@.len() == 0 && self.modified@.len()
                == 0),
    {
        self.added.len() == 0 && self.deleted.len() == 0 && self.modified.len() == 0
    }
}

/// The basenames excluded from snapshot-tree construction.
#[derive(Debug, Clone)]
pub struct Ignores {
    pub set: Vec<String>,
}

/// Whether a basename is excluded.
pub open spec fn ignores_contains(ig: Ignores, n: Seq<char>) -> bool {
    exists|i: int| 0 <= i < ig.set@.len() && (#[trigger] ig.set@[i])@ == n
}

impl Ignores {
    /// Decides whether a basename is excluded.
    pub fn contains(&self, name: &str) -> (r: bool)
        ensures
            r == ignores_contains(*self, name@),
    {
        let n = self.set.len();
        let mut i: usize = 0;
        while i < n
            invariant
                0 <= i <= n,
                self.set@.len() == n,
                forall|j: int| 0 <= j < i ==> (#[trigger] self.set@[j])@ != name@,
            decreases n - i,
        {
            if bytes_eq(self.set[i].as_str().as_bytes(), name.as_bytes()) {
                proof {
                    lemma_name_bytes_injective(self.set@[i as int]@, name@);
                }
                return true;
            }
            proof {
                if self.set@[i as int]@ == name@ {
                    assert(name_bytes(self.set@[i as int]@) == name_bytes(name@));
                    assert(false);
                }
            }
            i = i + 1;
        }
        false
    }
}

impl Default for Ignores {
    /// The default exclusion list: the repository's own state directory.
    fn default() -> (r: Self)
        ensures
            r.set@.len() == 1,
            r.set@[0]@ == ".log"@,
    {
        let mut set: Vec<String> = Vec::new();
        set.push(".log".to_owned());
        Ignores { set }
    }
}

impl Directory {
    /// Adds or replaces one entry under a name, keeping the tree canonical.
    pub fn insert_entry(&mut self, name: String, e: DirectoryEntry)
        requires
            dir_wf(*old(self)),
            name_ok(name@),
            entry_wf(e),
            old(self).root@.len() + 1 < 0x1_0000_0000,
        ensures
            dir_wf(*final(self)),
            find(final(self).root@, name@) == Some(e),
            forall|n: Seq<char>|
                n != name@ ==> find(final(self).root@, n) == find(old(self).root@, n),
    {
        map_insert(&mut self.root, name, e);
    }

    /// Records one regular file met while walking the working tree: an
    /// excluded basename always succeeds, is never pushed, and leaves the
    /// tree and the store untouched; any other file's bytes are pushed into
    /// the store and its fingerprint recorded under its basename. Even a
    /// failing store leaves the tree untouched and every other stored
    /// object in place.
    pub fn record_file<S: crate::objects::Objects>(
        &mut self,
        name: String,
        bytes: &[u8],
        ignores: &Ignores,
        store: &mut S,
    ) -> (r: Result<bool, S::Error>)
        requires
            dir_wf(*old(self)),
            name_ok(name@),
            old(self).root@.len() + 1 < 0x1_0000_0000,
        ensures
            ignores_contains(*ignores, name@) ==> (r matches Ok(added) && !added),
            match r {
                Ok(added) => if ignores_contains(*ignores, name@) {
                    !added && *final(self) == *old(self) && final(store).contents() == old(
                        store,
                    ).contents()
                } else {
                    &&& added
                    &&& dir_wf(*final(self))
                    &&& final(store).contents() == old(store).contents().insert(
                        crate::blob::digest_of(bytes@),
                        bytes@,
                    )
                    &&& (match find(final(self).root@, name@) {
                        Some(e) => e matches DirectoryEntry::File(b) && b@
                            == crate::blob::digest_of(bytes@),
                        None => false,
                    })
                    &&& (forall|n: Seq<char>|
                        n != name@ ==> find(final(self).root@, n) == find(old(self).root@, n))
                },
                Err(_) => !ignores_contains(*ignores, name@) && *final(self) == *old(self)
                    && final(store).contents().remove(crate::blob::digest_of(bytes@)) == old(
                    store,
                ).contents().remove(crate::blob::digest_of(bytes@)),
            },
            old(store).never_fails() ==> r is Ok,
            final(store).never_fails() == old(store).never_fails(),
    {
        if ignores.contains(name.as_str()) {
            return Ok(false);
        }
        let id = match store.push(bytes) {
            Ok(id) => id,
            Err(e) => {
                return Err(e);
            },
        };
        self.insert_entry(name, DirectoryEntry::File(id));
        Ok(true)
    }

    /// Records one subtree met while walking the working tree: an excluded
    /// basename leaves the tree untouched; any other is recorded under its
    /// basename.
    pub fn record_dir(&mut self, name: String, sub: Directory, ignores: &Ignores) -> (r: bool)
        requires
            dir_wf(*old(self)),
            name_ok(name@),
            dir_wf(sub),
            old(self).root@.len() + 1 < 0x1_0000_0000,
        ensures
            if ignores_contains(*ignores, name@) {
                !r && *final(self) == *old(self)
            } else {
                &&& r
                &&& dir_wf(*final(self))
                &&& (match find(final(self).root@, name@) {
                    Some(e) => e matches DirectoryEntry::Directory(d) && *d == sub,
                    None => false,
                })
                &&& (forall|n: Seq<char>|
                    n != name@ ==> find(final(self).root@, n) == find(old(self).root@, n))
            },
    {
        if ignores.contains(name.as_str()) {
            return false;
        }
        self.insert_entry(name, DirectoryEntry::Directory(Box::new(sub)));
        true
    }
}

} // verus!
