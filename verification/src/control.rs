//! The change controller and the event normalizer.  The controller owns the
//! index and the in-memory change log, consumes one normalized message at a
//! time, and hands back the outbound message to relay; the channels, the
//! file reads, and the persistence writes around it live outside the crate.

use vstd::prelude::*;
use crate::codec::wf_components;
use crate::data::{
    insert_pos, lemma_insert_lookup, seq_contains_key, seq_key_index, seq_value_of, state_input,
    Change, ChangeType, FileData, FileDataView, EntryView, Index, IndexView,
};
use crate::error::{EntryConflict, IllegalState};
use crate::hash::{components_view, hash_path, path_bytes, sha256_of, spec_identity_hash};
use crate::message::Message;
use crate::scan::{
    create_file_data, find_relative_path, scan_record, spec_relative_path,
};

verus! {

/// The name of the reserved subdirectory under the tracked root that holds
/// the persisted index.  Events under it are the engine's own writes.
pub open spec fn metadata_dir_name() -> Seq<char> {
    ".rdovetail"@
}

/// The metadata directory's name as an owned component.
pub fn metadata_dir() -> (r: String)
    ensures
        r@ == metadata_dir_name(),
{
    ".rdovetail".to_owned()
}

/// One raw event kind in the watch subsystem's vocabulary, as the
/// normalizer distinguishes them.
#[derive(Debug, Clone, Copy, PartialEq, Eq, Structural)]
pub enum RawEventKind {
    /// A path was created.
    Created,
    /// A path was removed.
    Removed,
    /// Any other kind of event; no semantic mapping is defined for these.
    Other,
}

/// The character-level value of a list of event paths.
pub open spec fn paths_view(paths: Seq<Vec<String>>) -> Seq<Seq<Seq<char>>> {
    Seq::new(paths.len(), |i: int| components_view(paths[i]@))
}

/// Whether any path of the event has the metadata directory as a component.
pub open spec fn mentions_metadata(paths: Seq<Seq<Seq<char>>>) -> bool {
    exists|i: int, j: int|
        0 <= i < paths.len() && 0 <= j < paths[i].len() && #[trigger] paths[i][j]
            == metadata_dir_name()
}

/// Turns one raw watch event into a controller message.  An event that
/// touches the metadata directory is dropped unconditionally, so the
/// controller never reacts to its own index writes; an event with no path,
/// or of a kind with no semantic mapping, is dropped as well.
pub fn normalize_event(kind: RawEventKind, paths: &Vec<Vec<String>>) -> (r: Option<Message>)
    ensures
        (r is Some) <==> (!mentions_metadata(paths_view(paths@)) && paths@.len() > 0 && kind
            != RawEventKind::Other),
        r matches Some(m) ==> match m {
            Message::FileCreated { path } => kind == RawEventKind::Created && path@ == paths@[0]@,
            Message::FileRemoved { path } => kind == RawEventKind::Removed && path@ == paths@[0]@,
            _ => false,
        },
{
    let ghost pv = paths_view(paths@);
    let md = metadata_dir();
    let mut i: usize = 0;
    while i < paths.len()
        invariant
            0 <= i <= paths@.len(),
            pv == paths_view(paths@),
            md@ == metadata_dir_name(),
            forall|a: int, b: int|
                0 <= a < i && 0 <= b < pv[a].len() ==> #[trigger] pv[a][b] != metadata_dir_name(),
        decreases paths@.len() - i,
    {
        let p: &Vec<String> = &paths[i];
        let mut j: usize = 0;
        while j < p.len()
            invariant
                0 <= j <= p@.len(),
                pv == paths_view(paths@),
                md@ == metadata_dir_name(),
                i < paths@.len(),
                p@ == paths@[i as int]@,
                forall|b: int| 0 <= b < j ==> #[trigger] pv[i as int][b] != metadata_dir_name(),
            decreases p@.len() - j,
        {
            if p[j] == md {
                proof {
                    assert(pv[i as int][j as int] == metadata_dir_name());
                    assert(mentions_metadata(pv));
                }
                return None;
            }
            j += 1;
        }
        i += 1;
    }
    proof {
        if mentions_metadata(pv) {
            let (a, b) = choose|a: int, b: int|
                0 <= a < pv.len() && 0 <= b < pv[a].len() && #[trigger] pv[a][b]
                    == metadata_dir_name();
            assert(pv[a][b] != metadata_dir_name());
        }
    }
    if paths.len() == 0 {
        return None;
    }
    match kind {
        RawEventKind::Removed => {
            let path = paths[0].clone();
            proof {
                assert(path@ =~= paths@[0]@);
            }
            Some(Message::FileRemoved { path })
        },
        RawEventKind::Created => {
            let path = paths[0].clone();
            proof {
                assert(path@ =~= paths@[0]@);
            }
            Some(Message::FileCreated { path })
        },
        RawEventKind::Other => None,
    }
}

/// The `(key, record)` pair the controller inserts when it processes a
/// `FileCreated` event for a file with the given content and modification
/// time.
pub open spec fn controller_record(
    root: Seq<Seq<char>>,
    path: Seq<Seq<char>>,
    content: Seq<u8>,
    modified: u64,
) -> EntryView {
    let rel = spec_relative_path(root, path);
    (
        sha256_of(path_bytes(rel)),
        FileDataView { hash: spec_identity_hash(content, rel), path: rel, timestamp: modified },
    )
}

/// Scanner/controller equivalence: for one file — same root, same absolute
/// path, same content bytes, and same modification time — the entry a scan
/// worker emits and the entry the controller inserts on a `FileCreated`
/// event are identical, key and record alike.
pub proof fn lemma_scan_controller_equivalence(
    root: Seq<Seq<char>>,
    path: Seq<Seq<char>>,
    content: Seq<u8>,
    modified: u64,
)
    ensures
        scan_record(root, path, content, modified) == controller_record(
            root,
            path,
            content,
            modified,
        ),
{
}

/// The long-lived change controller: the authoritative index and the
/// append-only log of changes applied to it.  It has a single logical
/// state — listening — and never blocks on anything but the next message.
pub struct VersionControl {
    index: Index,
    changes: Vec<Change>,
}

impl VersionControl {
    /// The index's mathematical value.
    pub closed spec fn index_view(self) -> IndexView {
        self.index@
    }

    /// The change log, oldest first.
    pub closed spec fn changes_seq(self) -> Seq<Change> {
        self.changes@
    }

    /// A well-formed controller holds a well-formed index.
    pub open spec fn wf(self) -> bool {
        self.index_view().wf()
    }

    /// Wraps a freshly built or loaded index, with an empty change log.
    pub fn new(index: Index) -> (r: Self)
        ensures
            r.index_view() == index@,
            r.changes_seq() == Seq::<Change>::empty(),
    {
        VersionControl { index, changes: Vec::new() }
    }

    /// The current index.
    pub fn get_index(&self) -> (r: &Index)
        ensures
            r@ == self.index_view(),
    {
        &self.index
    }

    /// The changes logged so far, oldest first.
    pub fn get_changes(&self) -> (r: &Vec<Change>)
        ensures
            r@ == self.changes_seq(),
    {
        &self.changes
    }

    /// Builds the record for a newly created file — identity hash over its
    /// content and relative path — and inserts it under its relative-path
    /// key.  Fails with `EntryConflict`, leaving the index unchanged, when
    /// the key is already tracked.  The caller persists the index after a
    /// successful insert.
    pub fn add_file_data(&mut self, path: &Vec<String>, content: &Vec<u8>, modified: u64) -> (r:
        Result<[u8; 32], EntryConflict>)
        requires
            old(self).wf(),
            wf_components(components_view(path@)),
        ensures
            final(self).wf(),
            final(self).changes_seq() == old(self).changes_seq(),
            final(self).index_view().root == old(self).index_view().root,
            ({
                let rec = controller_record(
                    old(self).index_view().root,
                    components_view(path@),
                    content@,
                    modified,
                );
                match r {
                    Ok(key) => key@ == rec.0 && !seq_contains_key(
                        old(self).index_view().entries,
                        rec.0,
                    ) && final(self).index_view().entries == old(self).index_view().entries.insert(
                        insert_pos(old(self).index_view().entries, rec.0),
                        rec,
                    ),
                    Err(e) => seq_contains_key(old(self).index_view().entries, rec.0) && final(self).index_view() == old(self).index_view(),
                }
            }),
    {
        let root_ref = self.index.get_path_to_dir();
        let root = root_ref.clone();
        proof {
            assert(root@ =~= root_ref@);
        }
        let file_data = create_file_data(&root, path, content, modified);
        let rel = file_data.get_path_from_root();
        let relative_path_hash = hash_path(&rel);
        match self.index.add_file_data(relative_path_hash, file_data) {
            Ok(()) => Ok(relative_path_hash),
            Err(e) => Err(e),
        }
    }

    /// Computes the relative-path key for a path and removes its entry,
    /// returning the record it held; absent keys — a duplicate or
    /// out-of-order event — are a silent no-op.
    pub fn remove_file_data(&mut self, path: &Vec<String>) -> (r: Option<FileData>)
        requires
            old(self).wf(),
        ensures
            final(self).wf(),
            final(self).changes_seq() == old(self).changes_seq(),
            final(self).index_view().root == old(self).index_view().root,
            ({
                let key = sha256_of(
                    path_bytes(
                        spec_relative_path(old(self).index_view().root, components_view(path@)),
                    ),
                );
                match r {
                    Some(fd) => seq_contains_key(old(self).index_view().entries, key) && fd@
                        == seq_value_of(old(self).index_view().entries, key) && final(self).index_view().entries == old(self).index_view().entries.remove(
                        seq_key_index(old(self).index_view().entries, key),
                    ),
                    None => !seq_contains_key(old(self).index_view().entries, key) && final(self).index_view() == old(self).index_view(),
                }
            }),
    {
        let root_ref = self.index.get_path_to_dir();
        let root = root_ref.clone();
        proof {
            assert(root@ =~= root_ref@);
        }
        let relative_path = find_relative_path(&root, path);
        let relative_path_hash = hash_path(&relative_path);
        self.index.remove_file_data(relative_path_hash)
    }

    /// Applies one logged change to the local index.  Only `Delete` is
    /// implemented: it removes the entry under the change's path, absent
    /// keys being a no-op.  The other kinds are reserved and reported as
    /// unsupported, never silently skipped.
    pub fn implement_change(&mut self, change: Change) -> (r: Result<(), IllegalState>)
        requires
            old(self).wf(),
        ensures
            final(self).wf(),
            final(self).changes_seq() == old(self).changes_seq(),
            final(self).index_view().root == old(self).index_view().root,
            match change.change_type {
                ChangeType::Delete => r is Ok && ({
                    let key = sha256_of(
                        path_bytes(
                            spec_relative_path(
                                old(self).index_view().root,
                                components_view(change.file_path@),
                            ),
                        ),
                    );
                    if seq_contains_key(old(self).index_view().entries, key) {
                        final(self).index_view().entries == old(self).index_view().entries.remove(
                            seq_key_index(old(self).index_view().entries, key),
                        )
                    } else {
                        final(self).index_view() == old(self).index_view()
                    }
                }),
                _ => r is Err && final(self).index_view() == old(self).index_view(),
            },
    {
        match &change.change_type {
            ChangeType::Delete => {
                let _ = self.remove_file_data(&change.file_path);
                Ok(())
            },
            _ => Err(IllegalState::new("unsupported change type".to_owned())),
        }
    }

    /// Processes one inbound message — the body of the listening loop — and
    /// returns the outbound message to relay, or `None` when the event is
    /// absorbed without a trace.
    ///
    /// For `FileCreated` the caller hands over the file's content and
    /// modification time as read from disk, or `None` when the file could
    /// not be read (it vanished between event and processing): the event is
    /// then dropped — no change logged, nothing sent.  A successful
    /// mutation appends a change carrying the canonical state digest right
    /// after it, stamped `now`.  `FileRequest` and `ExternalChange` are
    /// reserved and absorbed.  After a mutation the caller persists the
    /// index before sending the outbound message.
    pub fn handle_message(&mut self, message: Message, content: Option<(Vec<u8>, u64)>, now: u64)
        -> (outbound: Option<Message>)
        requires
            old(self).wf(),
            message matches Message::FileCreated { path } ==> wf_components(
                components_view(path@),
            ),
        ensures
            final(self).wf(),
            final(self).index_view().root == old(self).index_view().root,
            match message {
                Message::FileCreated { path } => match content {
                    Some(cm) => {
                        let rec = controller_record(
                            old(self).index_view().root,
                            components_view(path@),
                            cm.0@,
                            cm.1,
                        );
                        if seq_contains_key(old(self).index_view().entries, rec.0) {
                            final(self).index_view() == old(self).index_view() && final(self).changes_seq() == old(self).changes_seq() && outbound is None
                        } else {
                            final(self).index_view().entries == old(self).index_view().entries.insert(
                                insert_pos(old(self).index_view().entries, rec.0),
                                rec,
                            ) && final(self).changes_seq().len() == old(self).changes_seq().len()
                                + 1 && final(self).changes_seq().drop_last() == old(self).changes_seq() && ({
                                let ch = final(self).changes_seq().last();
                                &&& ch.change_type matches ChangeType::Create { file_hash }
                                    && file_hash@ == rec.1.hash
                                &&& ch.new_state@ == sha256_of(
                                    state_input(final(self).index_view().entries),
                                )
                                &&& ch.timestamp == now
                                &&& components_view(ch.file_path@) == components_view(path@)
                            }) && (outbound matches Some(m) && m matches Message::FileCreated {
                                path: p2,
                            } && p2@ == path@)
                        }
                    },
                    None => final(self).index_view() == old(self).index_view() && final(self).changes_seq() == old(self).changes_seq() && outbound is None,
                },
                Message::FileRemoved { path } => {
                    let key = sha256_of(
                        path_bytes(
                            spec_relative_path(
                                old(self).index_view().root,
                                components_view(path@),
                            ),
                        ),
                    );
                    if seq_contains_key(old(self).index_view().entries, key) {
                        final(self).index_view().entries == old(self).index_view().entries.remove(
                            seq_key_index(old(self).index_view().entries, key),
                        ) && final(self).changes_seq().len() == old(self).changes_seq().len() + 1
                            && final(self).changes_seq().drop_last() == old(self).changes_seq()
                            && ({
                            let ch = final(self).changes_seq().last();
                            &&& ch.change_type == ChangeType::Delete
                            &&& ch.new_state@ == sha256_of(
                                state_input(final(self).index_view().entries),
                            )
                            &&& ch.timestamp == now
                            &&& components_view(ch.file_path@) == components_view(path@)
                        }) && (outbound matches Some(m) && m matches Message::FileRemoved {
                            path: p2,
                        } && p2@ == path@)
                    } else {
                        final(self).index_view() == old(self).index_view() && final(self).changes_seq() == old(self).changes_seq() && outbound is None
                    }
                },
                Message::FileRequest { relative_path_hash } => final(self).index_view() == old(self).index_view() && final(self).changes_seq() == old(self).changes_seq()
                    && outbound is None,
                Message::ExternalChange {  } => final(self).index_view() == old(self).index_view()
                    && final(self).changes_seq() == old(self).changes_seq() && outbound is None,
            },
    {
        match message {
            Message::FileCreated { path } => {
                match content {
                    None => None,
                    Some((file_content, modified)) => {
                        let ghost prev = self.index@.entries;
                        match self.add_file_data(&path, &file_content, modified) {
                            Err(_) => None,
                            Ok(key) => {
                                proof {
                                    let rec = controller_record(
                                        old(self).index_view().root,
                                        components_view(path@),
                                        file_content@,
                                        modified,
                                    );
                                    crate::data::lemma_insert_pos_props(prev, rec.0);
                                    assert(prev.insert(
                                        insert_pos(prev, rec.0),
                                        rec,
                                    )[insert_pos(prev, rec.0)] == rec);
                                    assert(rec.0.len() == 32 && rec.1.wf());
                                    lemma_insert_lookup(prev, rec.0, rec.1, rec.0);
                                }
                                let file_hash = match self.index.get_file_data(&key) {
                                    Some(fd) => *fd.get_hash(),
                                    None => {
                                        proof {
                                            assert(false);
                                        }
                                        [0u8; 32]
                                    },
                                };
                                let new_state = self.index.get_current_state();
                                let ghost changes_before = self.changes@;
                                self.changes.push(
                                    Change {
                                        change_type: ChangeType::Create { file_hash },
                                        new_state,
                                        timestamp: now,
                                        file_path: path.clone(),
                                    },
                                );
                                proof {
                                    assert(self.changes@.drop_last() =~= changes_before);
                                }
                                Some(Message::FileCreated { path })
                            },
                        }
                    },
                }
            },
            Message::FileRemoved { path } => {
                match self.remove_file_data(&path) {
                    None => None,
                    Some(_) => {
                        let new_state = self.index.get_current_state();
                        let ghost changes_before = self.changes@;
                        self.changes.push(
                            Change {
                                change_type: ChangeType::Delete,
                                new_state,
                                timestamp: now,
                                file_path: path.clone(),
                            },
                        );
                        proof {
                            assert(self.changes@.drop_last() =~= changes_before);
                        }
                        Some(Message::FileRemoved { path })
                    },
                }
            },
            Message::FileRequest { relative_path_hash: _ } => None,
            Message::ExternalChange {  } => None,
        }
    }
}

} // verus!
