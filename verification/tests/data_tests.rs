use rdovetail::data::{FileData, Index};
use rdovetail::error::CodecError;
use rdovetail::hash::hash_path;
use rdovetail::scan::{build_entry, create_file_data, find_relative_path, partition_ranges};
use sha2::{Digest, Sha256};

fn pathv(parts: &[&str]) -> Vec<String> {
    parts.iter().map(|s| s.to_string()).collect()
}

#[test]
fn copy_and_clone_works_for_file_data() {
    let mut original = FileData::new();
    let mut array = [0u8; 32];
    for i in 0..32 {
        array[i] = 1;
    }
    original.set_hash(array);
    original.set_timestamp(5000 * 1_000_000);
    let clone = original.clone();
    assert_eq!(original, clone);
}

#[test]
fn new_file_data_defaults() {
    let fd = FileData::new();
    assert_eq!(*fd.get_hash(), [0u8; 32]);
    assert_eq!(fd.get_path_from_root(), pathv(&["."]));
    assert_eq!(fd.get_timestamp(), 0);
}

#[test]
fn display_hash_is_lowercase_hex() {
    let mut fd = FileData::new();
    assert_eq!(fd.display_hash(), "0".repeat(64));
    let mut h = [0u8; 32];
    h[0] = 0xab;
    h[31] = 0x01;
    fd.set_hash(h);
    let s = fd.display_hash();
    assert_eq!(&s[0..2], "ab");
    assert_eq!(&s[62..64], "01");
    assert_eq!(s.len(), 64);
}

#[test]
fn file_data_record_round_trips() {
    let mut fd = FileData::new();
    fd.set_hash([7u8; 32]);
    fd.set_path_from_root(pathv(&[".", "sub", "b.txt"]));
    fd.set_timestamp(123_456_789_000);
    let body = fd.serialize().expect("record should encode");
    // The body is the 4-byte length field followed by the payload.
    let payload = &body[4..];
    let len = u32::from_be_bytes([body[0], body[1], body[2], body[3]]) as usize;
    assert_eq!(len, payload.len());
    assert_eq!(len, ".".len() + "/sub/b.txt".len() + 40);
    let back = FileData::deserialize(payload).expect("record should decode");
    assert_eq!(back, fd);
}

#[test]
fn deserialize_rejects_short_payload() {
    let bytes = vec![0u8; 39];
    assert_eq!(FileData::deserialize(&bytes), Err(CodecError::Truncated));
}

#[test]
fn deserialize_rejects_invalid_utf8_path() {
    let mut bytes = vec![0xffu8, 0xfe];
    bytes.extend_from_slice(&[0u8; 40]);
    assert_eq!(FileData::deserialize(&bytes), Err(CodecError::InvalidPath));
}

#[test]
fn deserialize_rejects_empty_component() {
    let mut bytes = Vec::new();
    bytes.extend_from_slice(b"a//b");
    bytes.extend_from_slice(&[0u8; 40]);
    assert_eq!(FileData::deserialize(&bytes), Err(CodecError::InvalidPath));
}

#[test]
fn hash_path_matches_sha256_of_component_bytes() {
    let key = hash_path(&pathv(&[".", "test", "test_data.txt"]));
    let expected: [u8; 32] = Sha256::digest(b".testtest_data.txt").into();
    assert_eq!(key, expected);
}

#[test]
fn identity_hash_folds_content_and_path() {
    let root = pathv(&["r"]);
    let fd = create_file_data(&root, &pathv(&["r", "a.txt"]), &b"hello".to_vec(), 5);
    let expected: [u8; 32] = Sha256::digest(b"hello.a.txt").into();
    assert_eq!(*fd.get_hash(), expected);
    assert_eq!(fd.get_path_from_root(), pathv(&[".", "a.txt"]));
    assert_eq!(fd.get_timestamp(), 5);
}

#[test]
fn identity_hash_changes_with_path_alone() {
    let root = pathv(&["r"]);
    let content = b"same content".to_vec();
    let fd1 = create_file_data(&root, &pathv(&["r", "a.txt"]), &content, 1);
    let fd2 = create_file_data(&root, &pathv(&["r", "b.txt"]), &content, 1);
    assert_ne!(fd1.get_hash(), fd2.get_hash());
}

#[test]
fn identity_hash_changes_with_content_alone() {
    let root = pathv(&["r"]);
    let fd1 = create_file_data(&root, &pathv(&["r", "a.txt"]), &b"one".to_vec(), 1);
    let fd2 = create_file_data(&root, &pathv(&["r", "a.txt"]), &b"two".to_vec(), 1);
    assert_ne!(fd1.get_hash(), fd2.get_hash());
}

#[test]
fn find_relative_path_strips_root_prefix() {
    let rel = find_relative_path(&pathv(&["home", "r"]), &pathv(&["home", "r", "x", "y"]));
    assert_eq!(rel, pathv(&[".", "x", "y"]));
    let just_root = find_relative_path(&pathv(&["home", "r"]), &pathv(&["home", "r"]));
    assert_eq!(just_root, pathv(&["."]));
}

#[test]
fn insert_conflicts_only_on_equal_keys() {
    let mut index = Index::new(pathv(&["r"]));
    let root = pathv(&["r"]);
    let content = b"same".to_vec();
    let fd1 = create_file_data(&root, &pathv(&["r", "a.txt"]), &content, 1);
    let fd2 = create_file_data(&root, &pathv(&["r", "b.txt"]), &content, 1);
    let k1 = hash_path(&fd1.get_path_from_root());
    let k2 = hash_path(&fd2.get_path_from_root());
    // Identical content at two paths: both inserts succeed.
    assert!(index.add_file_data(k1, fd1.clone()).is_ok());
    assert!(index.add_file_data(k2, fd2).is_ok());
    // The same relative path hashes to the same key: the second insert fails.
    assert!(index.add_file_data(k1, fd1).is_err());
    assert!(index.get_file_data(&k1).is_some());
    assert!(index.get_file_data(&k2).is_some());
}

#[test]
fn remove_returns_entry_and_ignores_absent_keys() {
    let mut index = Index::new(pathv(&["r"]));
    let root = pathv(&["r"]);
    let fd = create_file_data(&root, &pathv(&["r", "a.txt"]), &b"x".to_vec(), 9);
    let key = hash_path(&fd.get_path_from_root());
    assert!(index.add_file_data(key, fd.clone()).is_ok());
    assert_eq!(index.remove_file_data(key), Some(fd));
    assert_eq!(index.remove_file_data(key), None);
    assert!(index.get_file_data(&key).is_none());
}

#[test]
fn edit_file_data_replaces_or_inserts() {
    let mut index = Index::new(pathv(&["r"]));
    let root = pathv(&["r"]);
    let fd1 = create_file_data(&root, &pathv(&["r", "a.txt"]), &b"one".to_vec(), 1);
    let fd2 = create_file_data(&root, &pathv(&["r", "a.txt"]), &b"two".to_vec(), 2);
    let key = hash_path(&fd1.get_path_from_root());
    assert_eq!(index.edit_file_data(key, fd1.clone()), None);
    assert_eq!(index.edit_file_data(key, fd2.clone()), Some(fd1));
    assert_eq!(index.get_file_data(&key), Some(&fd2));
}

#[test]
fn current_state_ignores_insertion_order() {
    let root = pathv(&["r"]);
    let fd_a = create_file_data(&root, &pathv(&["r", "a.txt"]), &b"hello".to_vec(), 1);
    let fd_b = create_file_data(&root, &pathv(&["r", "sub", "b.txt"]), &b"world".to_vec(), 2);
    let ka = hash_path(&fd_a.get_path_from_root());
    let kb = hash_path(&fd_b.get_path_from_root());

    let mut first = Index::new(root.clone());
    first.add_file_data(ka, fd_a.clone()).unwrap();
    first.add_file_data(kb, fd_b.clone()).unwrap();

    let mut second = Index::new(root.clone());
    second.add_file_data(kb, fd_b.clone()).unwrap();
    second.add_file_data(ka, fd_a.clone()).unwrap();

    assert_eq!(first.get_current_state(), second.get_current_state());

    // The digest is the SHA-256 of the entries' content hashes in ascending
    // key order, reproducible from scratch.
    let (lo, hi) = if ka < kb { (&fd_a, &fd_b) } else { (&fd_b, &fd_a) };
    let mut data = Vec::new();
    data.extend_from_slice(lo.get_hash());
    data.extend_from_slice(hi.get_hash());
    let expected: [u8; 32] = Sha256::digest(&data).into();
    assert_eq!(first.get_current_state(), expected);
}

#[test]
fn index_round_trips_through_bytes() {
    let root = pathv(&["r"]);
    let mut index = Index::new(root.clone());
    let fd_a = create_file_data(&root, &pathv(&["r", "a.txt"]), &b"hello".to_vec(), 11);
    let fd_b = create_file_data(&root, &pathv(&["r", "sub", "b.txt"]), &b"world".to_vec(), 22);
    let ka = hash_path(&fd_a.get_path_from_root());
    let kb = hash_path(&fd_b.get_path_from_root());
    index.add_file_data(ka, fd_a.clone()).unwrap();
    index.add_file_data(kb, fd_b.clone()).unwrap();

    let bytes = index.serialize().expect("index should encode");
    let loaded = Index::from_file(root, &bytes).expect("index should decode");
    assert_eq!(loaded.get_file_data(&ka), Some(&fd_a));
    assert_eq!(loaded.get_file_data(&kb), Some(&fd_b));
    assert_eq!(loaded.get_current_state(), index.get_current_state());
    assert_eq!(loaded.serialize().unwrap(), bytes);
}

#[test]
fn from_file_rejects_truncated_records() {
    let root = pathv(&["r"]);
    let mut index = Index::new(root.clone());
    let fd = create_file_data(&root, &pathv(&["r", "a.txt"]), &b"x".to_vec(), 1);
    let key = hash_path(&fd.get_path_from_root());
    index.add_file_data(key, fd).unwrap();
    let mut bytes = index.serialize().unwrap();
    bytes.pop();
    assert_eq!(Index::from_file(root.clone(), &bytes).err(), Some(CodecError::Truncated));
    let stub = vec![0u8; 10];
    assert_eq!(Index::from_file(root, &stub).err(), Some(CodecError::Truncated));
}

#[test]
fn from_file_keeps_first_record_under_duplicate_key() {
    let root = pathv(&["r"]);
    let mut fd1 = FileData::new();
    fd1.set_hash([1u8; 32]);
    fd1.set_timestamp(1);
    let mut fd2 = FileData::new();
    fd2.set_hash([2u8; 32]);
    fd2.set_timestamp(2);
    let key = [9u8; 32];
    let mut bytes = Vec::new();
    for fd in [&fd1, &fd2] {
        bytes.extend_from_slice(&key);
        bytes.extend_from_slice(&fd.serialize().unwrap());
    }
    let loaded = Index::from_file(root, &bytes).unwrap();
    assert_eq!(loaded.get_file_data(&key), Some(&fd1));
}

#[test]
fn build_entry_keys_record_by_relative_path_hash() {
    let root = pathv(&["r"]);
    let (key, data) = build_entry(&root, &pathv(&["r", "a.txt"]), &b"hello".to_vec(), 3);
    let expected_key: [u8; 32] = Sha256::digest(b".a.txt").into();
    assert_eq!(key, expected_key);
    assert_eq!(data, create_file_data(&root, &pathv(&["r", "a.txt"]), &b"hello".to_vec(), 3));
}

#[test]
fn partition_ranges_covers_the_list() {
    let ranges = partition_ranges(10, 4);
    assert_eq!(ranges, vec![(0, 2), (2, 4), (4, 6), (6, 10)]);
    let empty = partition_ranges(0, 4);
    assert_eq!(empty, vec![(0, 0), (0, 0), (0, 0), (0, 0)]);
    let single = partition_ranges(7, 1);
    assert_eq!(single, vec![(0, 7)]);
}
