use dot_log::blob::Blob;
use dot_log::commit::{encode_commit, Commit};
use dot_log::directory::Directory;
use dot_log::dot_log::DotLog;
use dot_log::objects::{insert_commit, insert_directory, read_commit, read_directory,
    MemoryObjects, Objects};

fn blob_of(byte: u8) -> Blob {
    Blob(vec![byte; 32])
}

#[test]
fn commit_identity_is_content_sensitive() {
    let mut store = MemoryObjects::new();
    let tree = blob_of(1);
    let no_parents = Commit {
        directory: tree.clone(),
        message: "same message".to_owned(),
        previous: Vec::new(),
    };
    let with_parent = Commit {
        directory: tree.clone(),
        message: "same message".to_owned(),
        previous: vec![blob_of(2)],
    };
    let id_a = insert_commit(&mut store, &no_parents).unwrap();
    let id_b = insert_commit(&mut store, &with_parent).unwrap();
    assert!(id_a != id_b);

    let same_again = Commit {
        directory: tree,
        message: "same message".to_owned(),
        previous: Vec::new(),
    };
    let id_c = insert_commit(&mut store, &same_again).unwrap();
    assert_eq!(id_a, id_c);
}

#[test]
fn commit_identity_is_message_sensitive() {
    let mut store = MemoryObjects::new();
    let a = Commit { directory: blob_of(1), message: "one".to_owned(), previous: Vec::new() };
    let b = Commit { directory: blob_of(1), message: "two".to_owned(), previous: Vec::new() };
    let id_a = insert_commit(&mut store, &a).unwrap();
    let id_b = insert_commit(&mut store, &b).unwrap();
    assert!(id_a != id_b);
}

#[test]
fn commit_round_trip() {
    let mut store = MemoryObjects::new();
    let c = Commit {
        directory: blob_of(1),
        message: "a step".to_owned(),
        previous: vec![blob_of(2), blob_of(3)],
    };
    let id = insert_commit(&mut store, &c).unwrap();
    let back = read_commit(&store, &id).unwrap();
    assert_eq!(back.directory, c.directory);
    assert_eq!(back.message, c.message);
    assert_eq!(back.previous, c.previous);
    assert_eq!(encode_commit(&back), encode_commit(&c));
}

#[test]
fn tree_insert_and_read_back() {
    let mut store = MemoryObjects::new();
    let mut t = Directory::empty();
    t.insert_entry("f".to_owned(), dot_log::directory::DirectoryEntry::File(blob_of(7)));
    let id = insert_directory(&mut store, &t).unwrap();
    let back = read_directory(&store, &id).unwrap();
    assert_eq!(back, t);
}

#[test]
fn init_is_deterministic_and_idempotent() {
    let mut store1 = MemoryObjects::new();
    let log1 = DotLog::init(&mut store1).unwrap();
    let after_first = store1.items.len();

    // a second initialization against the same store re-derives the same
    // refs and adds no object
    let log2 = DotLog::init(&mut store1).unwrap();
    assert_eq!(log1.branch, log2.branch);
    assert_eq!(log1.branches[0].0, log2.branches[0].0);
    assert_eq!(log1.branches[0].1, log2.branches[0].1);
    assert_eq!(log1.ignores.set, log2.ignores.set);
    for (id, _) in store1.items.iter().skip(after_first) {
        // anything appended again carries an id the store already held
        assert!(store1.items[..after_first].iter().any(|(i, _)| i == id));
    }

    // and a fresh store yields the same commit id: identity is content alone
    let mut store2 = MemoryObjects::new();
    let log3 = DotLog::init(&mut store2).unwrap();
    assert_eq!(log1.branches[0].1, log3.branches[0].1);
}

#[test]
fn initial_repo_layout() {
    let mut store = MemoryObjects::new();
    let log = DotLog::init(&mut store).unwrap();
    assert_eq!(log.branch, "master".to_owned());
    assert_eq!(log.branches.len(), 1);
    assert_eq!(log.branches[0].0, "master".to_owned());
    assert_eq!(log.ignores.set, vec![".log".to_owned()]);
    // the root commit is stored and wraps the empty tree with no parents
    let root = read_commit(&store, &log.branches[0].1).unwrap();
    assert_eq!(root.message, "first commit".to_owned());
    assert!(root.previous.is_empty());
    let tree = read_directory(&store, &root.directory).unwrap();
    assert!(tree.root.is_empty());
}

#[test]
fn branch_operations() {
    let mut store = MemoryObjects::new();
    let mut log = DotLog::init(&mut store).unwrap();
    assert!(log.branch_exists("master"));
    assert!(!log.branch_exists("feature"));
    assert_eq!(log.branch_commit("feature"), None);

    let master_commit = log.branch_commit("master").unwrap();
    assert!(log.create_branch("feature"));
    assert_eq!(log.branch_commit("feature"), Some(master_commit.clone()));

    log.set_current_branch("feature".to_owned());
    assert_eq!(log.current_branch(), &"feature".to_owned());

    let next = blob_of(5);
    log.set_branch_commit("feature", next.clone());
    assert_eq!(log.branch_commit("feature"), Some(next));
    // the other branch still points where it did
    assert_eq!(log.branch_commit("master"), Some(master_commit));
}

#[test]
fn repository_state_snapshot_and_commit_flow() {
    // build a working tree, snapshot it, commit it, move the branch
    let mut store = MemoryObjects::new();
    let mut log = DotLog::init(&mut store).unwrap();
    let parent = log.branch_commit("master").unwrap();

    let mut tree = Directory::empty();
    let ignores = log.ignores().set.clone();
    let ig = dot_log::directory::Ignores { set: ignores };
    assert!(tree
        .record_file("notes.txt".to_owned(), b"remember", &ig, &mut store)
        .unwrap());
    let tree_id = insert_directory(&mut store, &tree).unwrap();

    let commit = Commit {
        directory: tree_id,
        message: "add notes".to_owned(),
        previous: vec![parent.clone()],
    };
    let commit_id = insert_commit(&mut store, &commit).unwrap();
    log.set_branch_commit("master", commit_id.clone());
    assert_eq!(log.branch_commit("master"), Some(commit_id.clone()));

    // history reads back: commit, its tree, and the file bytes
    let back = read_commit(&store, &commit_id).unwrap();
    assert_eq!(back.previous, vec![parent]);
    let snap = read_directory(&store, &back.directory).unwrap();
    match snap.get("notes.txt") {
        Some(dot_log::directory::DirectoryEntry::File(b)) => {
            assert_eq!(store.get(b).unwrap(), Some(b"remember".to_vec()));
        },
        _ => panic!("the snapshot lost the file"),
    }
}

#[test]
fn decode_rejects_unsorted_parents() {
    let sorted = Commit {
        directory: blob_of(1),
        message: "m".to_owned(),
        previous: vec![blob_of(2), blob_of(3)],
    };
    let mut bytes = encode_commit(&sorted);
    // swap the two parent digests: the canonical form demands ascending order
    let tail = bytes.len() - 64;
    for i in 0..32 {
        bytes.swap(tail + i, tail + 32 + i);
    }
    assert!(dot_log::commit::decode_commit(bytes.as_slice()).is_none());
}

#[test]
fn decode_rejects_truncated_commit() {
    let c = Commit { directory: blob_of(1), message: "m".to_owned(), previous: Vec::new() };
    let mut bytes = encode_commit(&c);
    bytes.pop();
    assert!(dot_log::commit::decode_commit(bytes.as_slice()).is_none());
}
