use dot_log::blob::Blob;
use dot_log::codec::{decode_directory, encode_directory};
use dot_log::directory::{Directory, DirectoryEntry, DiffEntry, Ignores};
use dot_log::objects::{MemoryObjects, Objects};

fn blob_of(byte: u8) -> Blob {
    Blob(vec![byte; 32])
}

fn file(byte: u8) -> DirectoryEntry {
    DirectoryEntry::File(blob_of(byte))
}

fn dir(d: Directory) -> DirectoryEntry {
    DirectoryEntry::Directory(Box::new(d))
}

fn entry_is_file(e: &DirectoryEntry, byte: u8) -> bool {
    match e {
        DirectoryEntry::File(b) => *b == blob_of(byte),
        DirectoryEntry::Directory(_) => false,
    }
}

#[test]
fn tree_round_trip() {
    let mut sub = Directory::empty();
    sub.insert_entry("y.txt".to_owned(), file(2));
    let mut t = Directory::empty();
    t.insert_entry("x.txt".to_owned(), file(1));
    t.insert_entry("dir".to_owned(), dir(sub));
    let bytes = encode_directory(&t);
    let back = decode_directory(bytes.as_slice()).expect("a canonical encoding parses");
    // structural equality
    assert_eq!(back, t);
    assert_eq!(encode_directory(&back), bytes);
    match back.get("x.txt") {
        Some(e) => assert!(entry_is_file(e, 1)),
        None => panic!("x.txt lost in the round trip"),
    }
    match back.get("dir") {
        Some(DirectoryEntry::Directory(d)) => match d.get("y.txt") {
            Some(e) => assert!(entry_is_file(e, 2)),
            None => panic!("y.txt lost in the round trip"),
        },
        _ => panic!("dir lost in the round trip"),
    }
}

#[test]
fn decode_rejects_corrupted_name() {
    let mut t = Directory::empty();
    t.insert_entry("a".to_owned(), file(1));
    let mut bytes = encode_directory(&t);
    // the single name byte sits right after the two count fields
    assert_eq!(bytes[8], b'a');
    bytes[8] = 0xff;
    assert!(decode_directory(bytes.as_slice()).is_none());
}

#[test]
fn decode_rejects_trailing_bytes() {
    let t = Directory::empty();
    let mut bytes = encode_directory(&t);
    bytes.push(0);
    assert!(decode_directory(bytes.as_slice()).is_none());
}

#[test]
fn diff_of_a_tree_with_itself_is_empty() {
    let mut sub = Directory::empty();
    sub.insert_entry("y.txt".to_owned(), file(2));
    let mut t = Directory::empty();
    t.insert_entry("x.txt".to_owned(), file(1));
    t.insert_entry("dir".to_owned(), dir(sub));
    assert!(t.diff(&t).is_empty());
}

fn names_of(entries: &Vec<(String, DirectoryEntry)>) -> Vec<String> {
    let mut out = Vec::new();
    for (n, _) in entries.iter() {
        out.push(n.clone());
    }
    out
}

#[test]
fn diff_symmetry_added_deleted() {
    let mut a = Directory::empty();
    a.insert_entry("only_a".to_owned(), file(1));
    a.insert_entry("both".to_owned(), file(2));
    let mut b = Directory::empty();
    b.insert_entry("only_b".to_owned(), file(3));
    b.insert_entry("both".to_owned(), file(2));
    let d_ab = a.diff(&b);
    let d_ba = b.diff(&a);
    assert_eq!(d_ab.added, d_ba.deleted);
    assert_eq!(d_ab.deleted, d_ba.added);
    assert_eq!(names_of(&d_ab.added), vec!["only_b".to_owned()]);
    assert_eq!(names_of(&d_ab.deleted), vec!["only_a".to_owned()]);
}

#[test]
fn diff_composition_example() {
    // A = { "x.txt": File(h1), "dir": { "y.txt": File(h2) } }
    let mut sub_a = Directory::empty();
    sub_a.insert_entry("y.txt".to_owned(), file(2));
    let mut a = Directory::empty();
    a.insert_entry("x.txt".to_owned(), file(1));
    a.insert_entry("dir".to_owned(), dir(sub_a));
    // B = { "x.txt": File(h1), "dir": { "y.txt": File(h3) }, "z.txt": File(h4) }
    let mut sub_b = Directory::empty();
    sub_b.insert_entry("y.txt".to_owned(), file(3));
    let mut b = Directory::empty();
    b.insert_entry("x.txt".to_owned(), file(1));
    b.insert_entry("dir".to_owned(), dir(sub_b));
    b.insert_entry("z.txt".to_owned(), file(4));

    let d = a.diff(&b);
    assert_eq!(names_of(&d.added), vec!["z.txt".to_owned()]);
    assert!(entry_is_file(&d.added[0].1, 4));
    assert!(d.deleted.is_empty());
    // the change under "dir" is flattened to its own basename, with the new
    // fingerprint
    assert_eq!(names_of(&d.modified), vec!["y.txt".to_owned()]);
    assert!(entry_is_file(&d.modified[0].1, 3));
}

#[test]
fn entry_diff_reports_kind_change_as_new_side() {
    let f = file(1);
    let mut sub = Directory::empty();
    sub.insert_entry("inner".to_owned(), file(2));
    let d = dir(sub);
    match f.diff(&d) {
        Some(DiffEntry::Directory(nested)) => {
            assert_eq!(names_of(&nested.added), vec!["inner".to_owned()]);
            assert!(nested.deleted.is_empty());
            assert!(nested.modified.is_empty());
        },
        _ => panic!("a file replaced by a directory reports the new subtree"),
    }
    match d.diff(&f) {
        Some(DiffEntry::File(b)) => assert_eq!(b, blob_of(1)),
        _ => panic!("a directory replaced by a file reports the new file"),
    }
}

#[test]
fn entry_diff_of_equal_entries_is_none() {
    assert!(file(1).diff(&file(1)).is_none());
    let mut s1 = Directory::empty();
    s1.insert_entry("a".to_owned(), file(1));
    let mut s2 = Directory::empty();
    s2.insert_entry("a".to_owned(), file(1));
    assert!(dir(s1).diff(&dir(s2)).is_none());
}

#[test]
fn entry_diff_of_changed_file_reports_new_fingerprint() {
    match file(1).diff(&file(9)) {
        Some(DiffEntry::File(b)) => assert_eq!(b, blob_of(9)),
        _ => panic!("a changed file reports its new fingerprint"),
    }
}

#[test]
fn insert_replaces_under_the_same_name() {
    let mut t = Directory::empty();
    t.insert_entry("a".to_owned(), file(1));
    t.insert_entry("a".to_owned(), file(2));
    assert_eq!(t.root.len(), 1);
    assert!(entry_is_file(&t.root[0].1, 2));
}

#[test]
fn ignored_file_never_enters_tree_or_store() {
    let mut store = MemoryObjects::new();
    let mut t = Directory::empty();
    let ignores = Ignores::default();
    let added = t
        .record_file(".log".to_owned(), b"ref state", &ignores, &mut store)
        .unwrap();
    assert!(!added);
    assert!(t.get(".log").is_none());
    assert!(t.root.is_empty());
    let would_be = Blob::of_bytes(b"ref state");
    assert!(!store.contains(&would_be).unwrap());
    assert!(store.items.is_empty());
}

#[test]
fn recorded_file_is_pushed_and_listed() {
    let mut store = MemoryObjects::new();
    let mut t = Directory::empty();
    let ignores = Ignores::default();
    let added = t
        .record_file("kept.txt".to_owned(), b"contents", &ignores, &mut store)
        .unwrap();
    assert!(added);
    let id = Blob::of_bytes(b"contents");
    match t.get("kept.txt") {
        Some(DirectoryEntry::File(b)) => assert_eq!(*b, id),
        _ => panic!("the file was not recorded"),
    }
    assert_eq!(store.get(&id).unwrap(), Some(b"contents".to_vec()));
}

#[test]
fn ignored_subtree_is_skipped() {
    let mut t = Directory::empty();
    let ignores = Ignores::default();
    let mut sub = Directory::empty();
    sub.insert_entry("inner".to_owned(), file(1));
    assert!(!t.record_dir(".log".to_owned(), sub, &ignores));
    assert!(t.root.is_empty());
    let mut sub2 = Directory::empty();
    sub2.insert_entry("inner".to_owned(), file(1));
    assert!(t.record_dir("src".to_owned(), sub2, &ignores));
    assert!(t.get("src").is_some());
}
