use dot_log::blob::Blob;
use dot_log::hex::{shard, Hex};
use dot_log::objects::{Error, MemoryObjects, Objects};
use dot_log::order::{bytes_eq, bytes_less};
use dot_log::objects::{typed_commit, typed_directory};

fn blob_of(byte: u8) -> Blob {
    Blob(vec![byte; 32])
}

#[test]
fn fingerprint_is_deterministic() {
    let a = Blob::of_bytes(b"hello world");
    let b = Blob::of_bytes(b"hello world");
    assert_eq!(a, b);
    assert_eq!(a.0.len(), 32);
}

#[test]
fn fingerprint_matches_backend_digest() {
    // the trusted digest wrapper must hand back blake3's digest, not its input
    let lib = Blob::of_bytes(b"some content");
    let direct = blake3::hash(b"some content");
    assert_eq!(lib.0.as_slice(), direct.as_bytes());
    assert_ne!(lib.0.as_slice(), b"some content" as &[u8]);
}

#[test]
fn fingerprints_differ_for_different_content() {
    let a = Blob::of_bytes(b"one");
    let b = Blob::of_bytes(b"two");
    assert!(a != b);
}

#[test]
fn push_is_idempotent() {
    let mut store = MemoryObjects::new();
    let id1 = store.push(b"payload").unwrap();
    let id2 = store.push(b"payload").unwrap();
    assert_eq!(id1, id2);
    assert_eq!(store.get(&id1).unwrap(), Some(b"payload".to_vec()));
}

#[test]
fn get_of_pushed_returns_exact_bytes() {
    let mut store = MemoryObjects::new();
    let id = store.push(&[0u8, 255, 3, 7]).unwrap();
    assert_eq!(store.get(&id).unwrap(), Some(vec![0u8, 255, 3, 7]));
    assert!(store.contains(&id).unwrap());
}

#[test]
fn get_of_never_pushed_is_none() {
    let store = MemoryObjects::new();
    let id = Blob::of_bytes(b"never pushed");
    assert_eq!(store.get(&id).unwrap(), None);
    assert!(!store.contains(&id).unwrap());
}

#[test]
fn missing_object_error() {
    let store = MemoryObjects::new();
    let id = blob_of(9);
    match dot_log::objects::read_directory(&store, &id) {
        Err(Error::MissingObject(b)) => assert_eq!(b, id),
        _ => panic!("expected a missing-object error"),
    }
}

#[test]
fn malformed_object_error() {
    let mut store = MemoryObjects::new();
    let id = store.push(b"not a directory encoding").unwrap();
    match dot_log::objects::read_directory(&store, &id) {
        Err(Error::Malformed(b)) => assert_eq!(b, id),
        _ => panic!("expected a malformed-object error"),
    }
    match dot_log::objects::read_commit(&store, &id) {
        Err(Error::Malformed(b)) => assert_eq!(b, id),
        _ => panic!("expected a malformed-object error"),
    }
}

#[test]
fn hex_renders_lowercase_pairs() {
    let h = Hex::from_bytes(&[0x0f, 0xa0, 0xff]);
    assert_eq!(h.0, b"0fa0ff".to_vec());
}

#[test]
fn hex_round_trip() {
    let h = Hex::from_bytes(&[1, 2, 250]);
    assert_eq!(h.to_bytes(), Some(vec![1, 2, 250]));
}

#[test]
fn hex_rejects_odd_length_and_bad_digits() {
    assert_eq!(Hex(b"abc".to_vec()).to_bytes(), None);
    assert_eq!(Hex(b"zz".to_vec()).to_bytes(), None);
    assert_eq!(Hex(b"AB".to_vec()).to_bytes(), None);
}

#[test]
fn shard_splits_after_two_digits() {
    let id = Blob::of_bytes(b"shard me");
    let (dir, file) = shard(&id);
    let full = Hex::from_bytes(id.0.as_slice());
    assert_eq!(dir.0.len(), 2);
    assert_eq!(file.0.len(), 62);
    let mut joined = dir.0.clone();
    joined.extend(file.0.iter().copied());
    assert_eq!(joined, full.0);
}

#[test]
fn byte_order_is_lexicographic() {
    assert!(bytes_less(b"", b"a"));
    assert!(bytes_less(b"abc", b"abd"));
    assert!(bytes_less(b"ab", b"abc"));
    assert!(!bytes_less(b"abc", b"abc"));
    assert!(!bytes_less(b"b", b"ab"));
    assert!(bytes_eq(b"same", b"same"));
    assert!(!bytes_eq(b"same", b"sam"));
}

#[test]
fn blob_order_follows_digest_bytes() {
    let lo = Blob(vec![0u8; 32]);
    let hi = Blob(vec![1u8; 32]);
    assert!(lo.lt(&hi));
    assert!(!hi.lt(&lo));
    assert!(!lo.lt(&lo));
}

#[test]
fn typed_decision_is_exact() {
    let id = blob_of(4);
    match typed_directory::<()>(&id, None) {
        Err(Error::MissingObject(b)) => assert_eq!(b, id),
        _ => panic!("a missing answer is exactly a missing-object error"),
    }
    match typed_directory::<()>(&id, Some(b"garbage".to_vec())) {
        Err(Error::Malformed(b)) => assert_eq!(b, id),
        _ => panic!("undecodable bytes are exactly a malformed-object error"),
    }
    let tree = dot_log::directory::Directory::empty();
    let bytes = dot_log::codec::encode_directory(&tree);
    match typed_directory::<()>(&id, Some(bytes)) {
        Ok(t) => assert_eq!(t, tree),
        _ => panic!("canonical bytes are exactly the tree they encode"),
    }
}

#[test]
fn typed_commit_decision_is_exact() {
    let id = blob_of(5);
    match typed_commit::<()>(&id, None) {
        Err(Error::MissingObject(b)) => assert_eq!(b, id),
        _ => panic!("a missing answer is exactly a missing-object error"),
    }
    match typed_commit::<()>(&id, Some(b"garbage".to_vec())) {
        Err(Error::Malformed(b)) => assert_eq!(b, id),
        _ => panic!("undecodable bytes are exactly a malformed-object error"),
    }
}
