use rdovetail::control::{normalize_event, RawEventKind, VersionControl};
use rdovetail::data::{ChangeType, Index};
use rdovetail::error::IllegalState;
use rdovetail::hash::hash_path;
use rdovetail::message::Message;
use rdovetail::scan::{build_entry, index_from_entries};
use sha2::{Digest, Sha256};

fn pathv(parts: &[&str]) -> Vec<String> {
    parts.iter().map(|s| s.to_string()).collect()
}

#[test]
fn normalizer_maps_created_and_removed() {
    let paths = vec![pathv(&["r", "a.txt"])];
    match normalize_event(RawEventKind::Created, &paths) {
        Some(Message::FileCreated { path }) => assert_eq!(path, pathv(&["r", "a.txt"])),
        other => panic!("unexpected message: {:?}", other),
    }
    match normalize_event(RawEventKind::Removed, &paths) {
        Some(Message::FileRemoved { path }) => assert_eq!(path, pathv(&["r", "a.txt"])),
        other => panic!("unexpected message: {:?}", other),
    }
    assert!(normalize_event(RawEventKind::Other, &paths).is_none());
    assert!(normalize_event(RawEventKind::Created, &Vec::new()).is_none());
}

#[test]
fn normalizer_suppresses_metadata_directory_events() {
    let touching = vec![pathv(&["r", ".rdovetail", "index"])];
    assert!(normalize_event(RawEventKind::Created, &touching).is_none());
    assert!(normalize_event(RawEventKind::Removed, &touching).is_none());
    assert!(normalize_event(RawEventKind::Other, &touching).is_none());
    // Any path of the event touching the metadata directory is enough.
    let mixed = vec![pathv(&["r", "a.txt"]), pathv(&["r", ".rdovetail"])];
    assert!(normalize_event(RawEventKind::Created, &mixed).is_none());
}

#[test]
fn controller_logs_create_and_emits_outbound() {
    let root = pathv(&["r"]);
    let mut vcs = VersionControl::new(Index::new(root.clone()));
    let message = Message::FileCreated { path: pathv(&["r", "a.txt"]) };
    let outbound = vcs.handle_message(message, Some((b"hello".to_vec(), 77)), 1000);
    match outbound {
        Some(Message::FileCreated { path }) => assert_eq!(path, pathv(&["r", "a.txt"])),
        other => panic!("unexpected outbound: {:?}", other),
    }
    assert_eq!(vcs.get_changes().len(), 1);
    let change = &vcs.get_changes()[0];
    let expected_hash: [u8; 32] = Sha256::digest(b"hello.a.txt").into();
    match &change.change_type {
        ChangeType::Create { file_hash } => assert_eq!(*file_hash, expected_hash),
        other => panic!("unexpected change type: {:?}", other),
    }
    assert_eq!(change.timestamp, 1000);
    assert_eq!(change.file_path, pathv(&["r", "a.txt"]));
    assert_eq!(change.new_state, vcs.get_index().get_current_state());
    let key = hash_path(&pathv(&[".", "a.txt"]));
    assert!(vcs.get_index().get_file_data(&key).is_some());
}

#[test]
fn unreadable_file_leaves_no_trace() {
    let root = pathv(&["r"]);
    let mut vcs = VersionControl::new(Index::new(root.clone()));
    vcs.handle_message(
        Message::FileCreated { path: pathv(&["r", "a.txt"]) },
        Some((b"hello".to_vec(), 1)),
        10,
    );
    let state_before = vcs.get_index().get_current_state();
    // The file vanished before its content could be read: the event is
    // dropped with no change logged and nothing sent.
    let outbound = vcs.handle_message(
        Message::FileCreated { path: pathv(&["r", "ghost.txt"]) },
        None,
        20,
    );
    assert!(outbound.is_none());
    assert_eq!(vcs.get_changes().len(), 1);
    assert_eq!(vcs.get_index().get_current_state(), state_before);
}

#[test]
fn duplicate_create_is_absorbed() {
    let root = pathv(&["r"]);
    let mut vcs = VersionControl::new(Index::new(root.clone()));
    let path = pathv(&["r", "a.txt"]);
    vcs.handle_message(
        Message::FileCreated { path: path.clone() },
        Some((b"hello".to_vec(), 1)),
        10,
    );
    let outbound = vcs.handle_message(
        Message::FileCreated { path },
        Some((b"hello".to_vec(), 1)),
        20,
    );
    assert!(outbound.is_none());
    assert_eq!(vcs.get_changes().len(), 1);
}

#[test]
fn reserved_messages_are_absorbed() {
    let mut vcs = VersionControl::new(Index::new(pathv(&["r"])));
    assert!(vcs.handle_message(Message::FileRequest { relative_path_hash: [0u8; 32] }, None, 1)
        .is_none());
    assert!(vcs.handle_message(Message::ExternalChange {}, None, 2).is_none());
    assert_eq!(vcs.get_changes().len(), 0);
}

#[test]
fn scanner_and_controller_build_identical_entries() {
    let root = pathv(&["r"]);
    let existing = build_entry(&root, &pathv(&["r", "old.txt"]), &b"old".to_vec(), 1);
    let scanned_new = build_entry(&root, &pathv(&["r", "new.txt"]), &b"fresh".to_vec(), 2);
    let scanned = index_from_entries(root.clone(), &vec![existing.clone(), scanned_new.clone()])
        .expect("no duplicate keys in this walk");

    let mut vcs = VersionControl::new(
        index_from_entries(root.clone(), &vec![existing]).expect("no duplicate keys"),
    );
    vcs.handle_message(
        Message::FileCreated { path: pathv(&["r", "new.txt"]) },
        Some((b"fresh".to_vec(), 2)),
        99,
    );

    let key = scanned_new.0;
    assert_eq!(
        scanned.get_file_data(&key).expect("scanned entry"),
        vcs.get_index().get_file_data(&key).expect("controller entry"),
    );
    assert_eq!(scanned.get_current_state(), vcs.get_index().get_current_state());
}

#[test]
fn scan_rejects_duplicate_keys() {
    let root = pathv(&["r"]);
    let entry = build_entry(&root, &pathv(&["r", "a.txt"]), &b"x".to_vec(), 1);
    let result = index_from_entries(root, &vec![entry.clone(), entry]);
    assert!(result.is_err());
}

#[test]
fn bootstrap_then_delete_scenario() {
    let root = pathv(&["r"]);
    let a = build_entry(&root, &pathv(&["r", "a.txt"]), &b"hello".to_vec(), 1);
    let b = build_entry(&root, &pathv(&["r", "sub", "b.txt"]), &b"world".to_vec(), 2);
    let index = index_from_entries(root.clone(), &vec![a.clone(), b.clone()]).unwrap();
    assert!(index.get_file_data(&a.0).is_some());
    assert!(index.get_file_data(&b.0).is_some());

    // The canonical state digest of this fixed input is reproducible from
    // scratch: SHA-256 over the content hashes in ascending key order.
    let ha: [u8; 32] = Sha256::digest(b"hello.a.txt").into();
    let hb: [u8; 32] = Sha256::digest(b"world.subb.txt").into();
    let mut data = Vec::new();
    if a.0 < b.0 {
        data.extend_from_slice(&ha);
        data.extend_from_slice(&hb);
    } else {
        data.extend_from_slice(&hb);
        data.extend_from_slice(&ha);
    }
    let expected: [u8; 32] = Sha256::digest(&data).into();
    assert_eq!(index.get_current_state(), expected);

    let mut vcs = VersionControl::new(index);
    let outbound = vcs.handle_message(Message::FileRemoved { path: pathv(&["r", "a.txt"]) }, None, 5);
    match outbound {
        Some(Message::FileRemoved { path }) => assert_eq!(path, pathv(&["r", "a.txt"])),
        other => panic!("unexpected outbound: {:?}", other),
    }
    assert_eq!(vcs.get_changes().len(), 1);
    assert!(matches!(vcs.get_changes()[0].change_type, ChangeType::Delete));
    assert!(vcs.get_index().get_file_data(&a.0).is_none());
    assert!(vcs.get_index().get_file_data(&b.0).is_some());

    // Persisting now writes exactly the one remaining entry.
    let bytes = vcs.get_index().serialize().unwrap();
    let reloaded = Index::from_file(root, &bytes).unwrap();
    assert!(reloaded.get_file_data(&a.0).is_none());
    assert!(reloaded.get_file_data(&b.0).is_some());
}

#[test]
fn removal_of_untracked_path_is_a_no_op() {
    let mut vcs = VersionControl::new(Index::new(pathv(&["r"])));
    let outbound = vcs.handle_message(Message::FileRemoved { path: pathv(&["r", "a.txt"]) }, None, 5);
    assert!(outbound.is_none());
    assert_eq!(vcs.get_changes().len(), 0);
}

#[test]
fn implement_change_supports_only_delete() {
    let root = pathv(&["r"]);
    let a = build_entry(&root, &pathv(&["r", "a.txt"]), &b"hello".to_vec(), 1);
    let index = index_from_entries(root, &vec![a.clone()]).unwrap();
    let mut vcs = VersionControl::new(index);
    let state = vcs.get_index().get_current_state();

    let unsupported = rdovetail::data::Change {
        change_type: ChangeType::Modify { file_hash: [0u8; 32] },
        new_state: state,
        timestamp: 1,
        file_path: pathv(&["r", "a.txt"]),
    };
    assert!(vcs.implement_change(unsupported).is_err());
    assert!(vcs.get_index().get_file_data(&a.0).is_some());

    let delete = rdovetail::data::Change {
        change_type: ChangeType::Delete,
        new_state: state,
        timestamp: 2,
        file_path: pathv(&["r", "a.txt"]),
    };
    assert!(vcs.implement_change(delete).is_ok());
    assert!(vcs.get_index().get_file_data(&a.0).is_none());
}

#[test]
fn illegal_state_carries_its_message() {
    let err = IllegalState::new("filedata could not be created".to_string());
    assert_eq!(err.message().as_str(), "filedata could not be created");
}
