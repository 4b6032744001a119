//! The tracked-file record (`FileData`), the content-addressed `Index`, and
//! the change-log vocabulary, together with their binary persistence format.

use vstd::prelude::*;
use crate::bytes::{
    be_to_u32, be_to_u64, key_eq, key_lt, lemma_lex_asymmetric, lemma_lex_irreflexive,
    lemma_lex_transitive, lemma_lex_trichotomy, lemma_u64_be_round_trip, lex_lt, push_u32_be,
    push_u64_be, read_u32_be, read_u64_be, slice_range, u32_be, u64_be,
};
use crate::error::EntryConflict;
use crate::codec::{
    decode_path, join_path, joined_path, lemma_decode_joined_path, lemma_decoded_path_wf,
    spec_decode_path, wf_path,
};
use crate::error::CodecError;
use crate::hash::components_view;

verus! {

/// The number of bytes of a payload past the path prefix: a 32-byte content
/// hash and an 8-byte timestamp.
pub const FIXED_TAIL: usize = 40;

/// The mathematical value of a `FileData`: its identity hash, its relative
/// path as character-sequence components, and its timestamp in nanoseconds
/// since the epoch.
pub struct FileDataView {
    pub hash: Seq<u8>,
    pub path: Seq<Seq<char>>,
    pub timestamp: u64,
}

impl FileDataView {
    /// Well-formed record: a 32-byte hash and a well-formed relative path.
    pub open spec fn wf(self) -> bool {
        self.hash.len() == 32 && wf_path(self.path)
    }
}

/// One tracked file: its identity hash, its path relative to the tracked
/// root, and the modification time observed when the entry was built.
///
/// `hash` and `timestamp` are set together from a single read of the file;
/// an update replaces the whole value rather than mutating an entry in place.
#[derive(Debug, PartialEq, Eq)]
pub struct FileData {
    hash: [u8; 32],
    path_from_root: Vec<String>,
    timestamp: u64,
}

impl View for FileData {
    type V = FileDataView;

    closed spec fn view(&self) -> FileDataView {
        FileDataView {
            hash: self.hash@,
            path: components_view(self.path_from_root@),
            timestamp: self.timestamp,
        }
    }
}

impl Clone for FileData {
    /// A clone carries the same hash, path, and timestamp.
    fn clone(&self) -> (r: Self)
        ensures
            r@ == self@,
    {
        let path_clone = self.path_from_root.clone();
        proof {
            assert(path_clone@ =~= self.path_from_root@);
        }
        FileData { hash: self.hash, path_from_root: path_clone, timestamp: self.timestamp }
    }
}

impl FileData {
    /// An empty record: zero hash, the bare root path `.`, timestamp zero.
    pub fn new() -> (r: Self)
        ensures
            r@.hash == Seq::new(32, |i: int| 0u8),
            r@.path == seq!["."@],
            r@.timestamp == 0u64,
            r@.wf(),
    {
        let mut path_from_root: Vec<String> = Vec::new();
        path_from_root.push(".".to_owned());
        let r = FileData { hash: [0u8; 32], path_from_root, timestamp: 0 };
        proof {
            reveal_strlit(".");
            assert(r@.hash =~= Seq::new(32, |i: int| 0u8));
            assert(r@.path =~= seq!["."@]);
            assert(!"."@.contains('/')) by {
                assert("."@.len() == 1);
                assert("."@[0] == '.');
            }
        }
        r
    }

    /// The identity hash of the file's content and path.
    pub fn get_hash(&self) -> (r: &[u8; 32])
        ensures
            r@ == self@.hash,
    {
        &self.hash
    }

    /// Replaces the identity hash.
    pub fn set_hash(&mut self, hash: [u8; 32])
        ensures
            final(self)@ == (FileDataView { hash: hash@, ..old(self)@ }),
    {
        self.hash = hash;
    }

    /// The path of the file relative to the tracked root.
    pub fn get_path_from_root(&self) -> (r: Vec<String>)
        ensures
            components_view(r@) == self@.path,
    {
        let r = self.path_from_root.clone();
        proof {
            assert(r@ =~= self.path_from_root@);
        }
        r
    }

    /// Replaces the relative path.
    pub fn set_path_from_root(&mut self, path: Vec<String>)
        ensures
            final(self)@ == (FileDataView {
                path: components_view(path@),
                ..old(self)@
            }),
    {
        self.path_from_root = path;
    }

    /// The recorded modification time, in nanoseconds since the epoch.
    pub fn get_timestamp(&self) -> (r: u64)
        ensures
            r == self@.timestamp,
    {
        self.timestamp
    }

    /// Replaces the recorded modification time.
    pub fn set_timestamp(&mut self, timestamp: u64)
        ensures
            final(self)@ == (FileDataView { timestamp, ..old(self)@ }),
    {
        self.timestamp = timestamp;
    }
}

/// The hexadecimal digit for a value below sixteen.
pub open spec fn hex_digit(n: u8) -> char
    recommends
        n < 16,
{
    if n == 0 {
        '0'
    } else if n == 1 {
        '1'
    } else if n == 2 {
        '2'
    } else if n == 3 {
        '3'
    } else if n == 4 {
        '4'
    } else if n == 5 {
        '5'
    } else if n == 6 {
        '6'
    } else if n == 7 {
        '7'
    } else if n == 8 {
        '8'
    } else if n == 9 {
        '9'
    } else if n == 10 {
        'a'
    } else if n == 11 {
        'b'
    } else if n == 12 {
        'c'
    } else if n == 13 {
        'd'
    } else if n == 14 {
        'e'
    } else {
        'f'
    }
}

/// The lowercase hexadecimal form of the first `n` bytes, two digits each.
pub open spec fn hex_prefix(bytes: Seq<u8>, n: int) -> Seq<char>
    decreases n,
{
    if n <= 0 {
        Seq::empty()
    } else {
        hex_prefix(bytes, n - 1) + seq![
            hex_digit((bytes[n - 1] / 16) as u8),
            hex_digit((bytes[n - 1] % 16) as u8),
        ]
    }
}

/// The lowercase hexadecimal form of a byte string.
pub open spec fn hex_of(bytes: Seq<u8>) -> Seq<char> {
    hex_prefix(bytes, bytes.len() as int)
}

/// The one-character string for a hexadecimal digit.
fn hex_char_str(n: u8) -> (r: &'static str)
    requires
        n < 16,
    ensures
        r@ == seq![hex_digit(n)],
{
    proof {
        reveal_strlit("0");
        reveal_strlit("1");
        reveal_strlit("2");
        reveal_strlit("3");
        reveal_strlit("4");
        reveal_strlit("5");
        reveal_strlit("6");
        reveal_strlit("7");
        reveal_strlit("8");
        reveal_strlit("9");
        reveal_strlit("a");
        reveal_strlit("b");
        reveal_strlit("c");
        reveal_strlit("d");
        reveal_strlit("e");
        reveal_strlit("f");
    }
    if n == 0 {
        "0"
    } else if n == 1 {
        "1"
    } else if n == 2 {
        "2"
    } else if n == 3 {
        "3"
    } else if n == 4 {
        "4"
    } else if n == 5 {
        "5"
    } else if n == 6 {
        "6"
    } else if n == 7 {
        "7"
    } else if n == 8 {
        "8"
    } else if n == 9 {
        "9"
    } else if n == 10 {
        "a"
    } else if n == 11 {
        "b"
    } else if n == 12 {
        "c"
    } else if n == 13 {
        "d"
    } else if n == 14 {
        "e"
    } else {
        "f"
    }
}

impl FileData {
    /// The identity hash as a lowercase hexadecimal string, two digits per
    /// byte.
    pub fn display_hash(&self) -> (r: String)
        ensures
            r@ == hex_of(self@.hash),
    {
        let mut s = String::new();
        let mut i: usize = 0;
        while i < 32
            invariant
                0 <= i <= 32,
                s@ == hex_prefix(self@.hash, i as int),
            decreases 32 - i,
        {
            let b = self.hash[i];
            let hi = b >> 4;
            let lo = b & 15;
            proof {
                assert(hi < 16 && lo < 16 && hi == b / 16 && lo == b % 16) by (bit_vector)
                    requires
                        hi == b >> 4 && lo == b & 15,
                ;
            }
            s.append(hex_char_str(hi));
            s.append(hex_char_str(lo));
            proof {
                assert(s@ =~= hex_prefix(self@.hash, i as int + 1));
            }
            i += 1;
        }
        s
    }
}

/// The kind of one logged mutation.  `Modify` and `Rename` are declared
/// extension points: the controller never produces them yet, and applying
/// them is reported as unsupported rather than silently skipped.
#[derive(Debug, Clone, PartialEq, Eq)]
pub enum ChangeType {
    /// A file appeared; carries its identity hash.
    Create { file_hash: [u8; 32] },
    /// A file disappeared.
    Delete,
    /// A file's content changed in place.  Reserved.
    Modify { file_hash: [u8; 32] },
    /// A file moved to a new name.  Reserved.
    Rename { new_name: String },
}

/// One logged mutation: what happened, the canonical state digest right
/// after it was applied, the detection time in nanoseconds since the epoch,
/// and the affected file's path.
#[derive(Debug, Clone, PartialEq, Eq)]
pub struct Change {
    pub change_type: ChangeType,
    pub new_state: [u8; 32],
    pub timestamp: u64,
    pub file_path: Vec<String>,
}

/// The payload of one record: the '/'-joined relative path, the 32-byte
/// identity hash, and the big-endian timestamp.
pub open spec fn payload_bytes(v: FileDataView) -> Seq<u8> {
    joined_path(v.path) + v.hash + u64_be(v.timestamp)
}

/// The value of a record's 32-bit length field: path bytes plus the fixed
/// 40-byte tail.
pub open spec fn payload_len(v: FileDataView) -> int {
    joined_path(v.path).len() + FIXED_TAIL
}

/// Whether the payload length fits the format's 32-bit length field.
pub open spec fn encodable(v: FileDataView) -> bool {
    payload_len(v) <= u32::MAX
}

/// The length-prefixed record body: 4-byte big-endian payload length, then
/// the payload.
pub open spec fn record_body(v: FileDataView) -> Seq<u8> {
    u32_be(payload_len(v) as u32) + payload_bytes(v)
}

/// The record read back from a payload, or `None` when the payload is too
/// short for its fixed fields or its path prefix is malformed.
pub open spec fn spec_decode_payload(b: Seq<u8>) -> Option<FileDataView> {
    if b.len() < FIXED_TAIL {
        None
    } else {
        let n = b.len() as int;
        match spec_decode_path(b.take(n - 40)) {
            Some(path) => Some(
                FileDataView {
                    hash: b.subrange(n - 40, n - 8),
                    path,
                    timestamp: be_to_u64(b.subrange(n - 8, n)),
                },
            ),
            None => None,
        }
    }
}

/// Decoding a payload undoes encoding it, for any well-formed record.
pub proof fn lemma_payload_round_trip(v: FileDataView)
    requires
        v.wf(),
    ensures
        spec_decode_payload(payload_bytes(v)) == Some(v),
{
    let b = payload_bytes(v);
    let jp = joined_path(v.path);
    let n = b.len() as int;
    assert(n == jp.len() + 40);
    assert(b.take(n - 40) =~= jp);
    lemma_decode_joined_path(v.path);
    assert(b.subrange(n - 40, n - 8) =~= v.hash);
    assert(b.subrange(n - 8, n) =~= u64_be(v.timestamp));
    lemma_u64_be_round_trip(v.timestamp);
}

impl FileData {
    /// Writes the record body: the payload length in four big-endian bytes,
    /// then the '/'-joined path, the hash, and the timestamp.  Fails exactly
    /// when the payload length does not fit the 32-bit length field.
    pub fn serialize(&self) -> (r: Result<Vec<u8>, CodecError>)
        ensures
            match r {
                Ok(b) => encodable(self@) && b@ == record_body(self@),
                Err(e) => e == CodecError::RecordTooLong && !encodable(self@),
            },
    {
        let joined = join_path(&self.path_from_root);
        if joined.len() > (u32::MAX as usize) - FIXED_TAIL {
            return Err(CodecError::RecordTooLong);
        }
        let total: u32 = (joined.len() + FIXED_TAIL) as u32;
        let mut out: Vec<u8> = Vec::new();
        push_u32_be(&mut out, total);
        out.extend_from_slice(joined.as_slice());
        let mut k: usize = 0;
        while k < 32
            invariant
                0 <= k <= 32,
                out@ == u32_be(payload_len(self@) as u32) + joined_path(self@.path)
                    + self@.hash.take(k as int),
            decreases 32 - k,
        {
            out.push(self.hash[k]);
            proof {
                assert(self@.hash.take(k as int + 1) =~= self@.hash.take(k as int).push(
                    self@.hash[k as int],
                ));
                assert(out@ =~= u32_be(payload_len(self@) as u32) + joined_path(self@.path)
                    + self@.hash.take(k as int + 1));
            }
            k += 1;
        }
        proof {
            assert(self@.hash.take(32) =~= self@.hash);
        }
        push_u64_be(&mut out, self.timestamp);
        proof {
            assert(out@ =~= record_body(self@));
        }
        Ok(out)
    }

    /// Reads one record back from exactly its payload bytes.  Fails with
    /// `Truncated` when fewer than 40 bytes remain for the fixed fields, and
    /// with `InvalidPath` when the path prefix is not a '/'-joined list of
    /// nonempty, valid-UTF-8 components.
    pub fn deserialize(bytes: &[u8]) -> (r: Result<FileData, CodecError>)
        ensures
            match r {
                Ok(fd) => spec_decode_payload(bytes@) == Some(fd@) && fd@.wf(),
                Err(e) => spec_decode_payload(bytes@) is None && e == (if bytes@.len() < 40 {
                    CodecError::Truncated
                } else {
                    CodecError::InvalidPath
                }),
            },
    {
        if bytes.len() < FIXED_TAIL {
            return Err(CodecError::Truncated);
        }
        let path_end = bytes.len() - FIXED_TAIL;
        let path_from_root = match decode_path(bytes, 0, path_end) {
            Some(p) => p,
            None => {
                proof {
                    assert(bytes@.subrange(0, path_end as int) =~= bytes@.take(
                        bytes@.len() as int - 40,
                    ));
                }
                return Err(CodecError::InvalidPath);
            },
        };
        let mut hash = [0u8; 32];
        let mut k: usize = 0;
        while k < 32
            invariant
                0 <= k <= 32,
                path_end + 40 == bytes@.len(),
                bytes@.len() <= usize::MAX,
                hash@.len() == 32,
                forall|j: int| 0 <= j < k ==> hash@[j] == bytes@[path_end + j],
            decreases 32 - k,
        {
            hash[k] = bytes[path_end + k];
            k += 1;
        }
        let timestamp = read_u64_be(bytes, path_end + 32);
        let fd = FileData { hash, path_from_root, timestamp };
        proof {
            let n = bytes@.len() as int;
            assert(bytes@.subrange(0, path_end as int) =~= bytes@.take(n - 40));
            lemma_decoded_path_wf(bytes@.take(n - 40));
            assert(fd@.hash =~= bytes@.subrange(n - 40, n - 8));
            assert(bytes@.subrange(path_end as int + 32, path_end as int + 40) =~= bytes@.subrange(
                n - 8,
                n,
            ));
        }
        Ok(fd)
    }
}

/// One index entry at the mathematical level: a 32-byte key (the hash of the
/// entry's relative path) and the record stored under it.
pub type EntryView = (Seq<u8>, FileDataView);

/// Entries strictly ascending by key in the lexicographic order; this is the
/// canonical order that persistence and the state digest use, and it makes
/// keys unique.
pub open spec fn entries_sorted(entries: Seq<EntryView>) -> bool {
    forall|i: int, j: int|
        0 <= i < j < entries.len() ==> lex_lt(
            (#[trigger] entries[i]).0,
            (#[trigger] entries[j]).0,
        )
}

/// Well-formed entry list: sorted, 32-byte keys, well-formed records.
pub open spec fn entries_wf(entries: Seq<EntryView>) -> bool {
    entries_sorted(entries) && forall|i: int|
        0 <= i < entries.len() ==> (#[trigger] entries[i]).0.len() == 32 && entries[i].1.wf()
}

/// Whether some entry carries the given key.
pub open spec fn seq_contains_key(entries: Seq<EntryView>, k: Seq<u8>) -> bool {
    exists|i: int| 0 <= i < entries.len() && (#[trigger] entries[i]).0 == k
}

/// The position of the entry carrying the given key.
pub open spec fn seq_key_index(entries: Seq<EntryView>, k: Seq<u8>) -> int {
    choose|i: int| 0 <= i < entries.len() && (#[trigger] entries[i]).0 == k
}

/// The record stored under the given key.
pub open spec fn seq_value_of(entries: Seq<EntryView>, k: Seq<u8>) -> FileDataView {
    entries[seq_key_index(entries, k)].1
}

/// The position at which a new key belongs: the number of entries whose keys
/// come before it.
pub open spec fn insert_pos(entries: Seq<EntryView>, k: Seq<u8>) -> int
    decreases entries.len(),
{
    if entries.len() == 0 {
        0
    } else if !lex_lt(entries[0].0, k) {
        0
    } else {
        1 + insert_pos(entries.drop_first(), k)
    }
}

/// In a sorted entry list a key occurs at most once, so any occurrence is
/// the occurrence.
pub proof fn lemma_key_index_unique(entries: Seq<EntryView>, k: Seq<u8>, i: int)
    requires
        entries_sorted(entries),
        0 <= i < entries.len(),
        entries[i].0 == k,
    ensures
        seq_contains_key(entries, k),
        seq_key_index(entries, k) == i,
{
    assert(seq_contains_key(entries, k));
    let j = seq_key_index(entries, k);
    if j < i {
        assert(lex_lt(entries[j].0, entries[i].0));
        lemma_lex_irreflexive(k);
    } else if j > i {
        assert(lex_lt(entries[i].0, entries[j].0));
        lemma_lex_irreflexive(k);
    }
}

/// A scan that passed all smaller keys and stopped at the first key not
/// smaller than `k` found exactly `insert_pos`.
proof fn lemma_insert_pos_char(entries: Seq<EntryView>, k: Seq<u8>, p: int)
    requires
        0 <= p <= entries.len(),
        forall|j: int| 0 <= j < p ==> lex_lt((#[trigger] entries[j]).0, k),
        p < entries.len() ==> !lex_lt(entries[p].0, k),
    ensures
        insert_pos(entries, k) == p,
    decreases p,
{
    if entries.len() == 0 {
    } else if p == 0 {
    } else {
        assert(lex_lt(entries[0].0, k));
        lemma_insert_pos_char(entries.drop_first(), k, p - 1);
    }
}

/// At the insert position the key either matches or the list does not hold
/// it; and if it is held, it is held there.
proof fn lemma_pos_membership(entries: Seq<EntryView>, k: Seq<u8>, p: int)
    requires
        entries_wf(entries),
        k.len() == 32,
        0 <= p <= entries.len(),
        forall|j: int| 0 <= j < p ==> lex_lt((#[trigger] entries[j]).0, k),
        p < entries.len() ==> !lex_lt(entries[p].0, k),
    ensures
        seq_contains_key(entries, k) <==> (p < entries.len() && entries[p].0 == k),
        seq_contains_key(entries, k) ==> seq_key_index(entries, k) == p,
{
    if seq_contains_key(entries, k) {
        let i = choose|i: int| 0 <= i < entries.len() && (#[trigger] entries[i]).0 == k;
        if i < p {
            assert(lex_lt(k, k));
            lemma_lex_irreflexive(k);
        } else if i > p {
            assert(lex_lt(entries[p].0, entries[i].0));
        }
        assert(entries[p].0 == k);
        lemma_key_index_unique(entries, k, p);
    }
}

/// Inserting an absent key at its position keeps the entry list well formed.
proof fn lemma_insert_keeps_wf(entries: Seq<EntryView>, k: Seq<u8>, v: FileDataView, p: int)
    requires
        entries_wf(entries),
        k.len() == 32,
        v.wf(),
        !seq_contains_key(entries, k),
        0 <= p <= entries.len(),
        forall|j: int| 0 <= j < p ==> lex_lt((#[trigger] entries[j]).0, k),
        p < entries.len() ==> !lex_lt(entries[p].0, k),
    ensures
        entries_wf(entries.insert(p, (k, v))),
{
    let new = entries.insert(p, (k, v));
    assert forall|x: int| 0 <= x < entries.len() && x >= p implies lex_lt(
        k,
        (#[trigger] entries[x]).0,
    ) by {
        assert(entries[p].0 != k);
        lemma_lex_trichotomy(k, entries[p].0);
        if x > p {
            lemma_lex_transitive(k, entries[p].0, entries[x].0);
        }
    }
    assert forall|i: int, j: int| 0 <= i < j < new.len() implies lex_lt(
        (#[trigger] new[i]).0,
        (#[trigger] new[j]).0,
    ) by {
        if i < p && j < p {
            assert(new[i] == entries[i] && new[j] == entries[j]);
        } else if i < p && j == p {
            assert(new[i] == entries[i] && new[j] == (k, v));
        } else if i < p && j > p {
            assert(new[i] == entries[i] && new[j] == entries[j - 1]);
        } else if i == p {
            assert(new[i] == (k, v) && new[j] == entries[j - 1]);
        } else {
            assert(new[i] == entries[i - 1] && new[j] == entries[j - 1]);
        }
    }
    assert(forall|i: int|
        0 <= i < new.len() ==> (#[trigger] new[i]).0.len() == 32 && new[i].1.wf());
}

/// Removing an entry keeps the entry list well formed.
proof fn lemma_remove_keeps_wf(entries: Seq<EntryView>, p: int)
    requires
        entries_wf(entries),
        0 <= p < entries.len(),
    ensures
        entries_wf(entries.remove(p)),
{
    let new = entries.remove(p);
    assert forall|i: int, j: int| 0 <= i < j < new.len() implies lex_lt(
        (#[trigger] new[i]).0,
        (#[trigger] new[j]).0,
    ) by {
        if i < p && j < p {
            assert(new[i] == entries[i] && new[j] == entries[j]);
        } else if i < p && j >= p {
            assert(new[i] == entries[i] && new[j] == entries[j + 1]);
        } else {
            assert(new[i] == entries[i + 1] && new[j] == entries[j + 1]);
        }
    }
    assert(forall|i: int|
        0 <= i < new.len() ==> (#[trigger] new[i]).0.len() == 32 && new[i].1.wf());
}

/// The insert position of any key in a sorted entry list lies in bounds and
/// sits exactly past the keys that come before it.
pub proof fn lemma_insert_pos_props(entries: Seq<EntryView>, k: Seq<u8>)
    requires
        entries_sorted(entries),
    ensures
        0 <= insert_pos(entries, k) <= entries.len(),
        forall|j: int| 0 <= j < insert_pos(entries, k) ==> lex_lt((#[trigger] entries[j]).0, k),
        insert_pos(entries, k) < entries.len() ==> !lex_lt(entries[insert_pos(entries, k)].0, k),
    decreases entries.len(),
{
    if entries.len() > 0 && lex_lt(entries[0].0, k) {
        let tail = entries.drop_first();
        assert(entries_sorted(tail)) by {
            assert(forall|i: int| 0 <= i < tail.len() ==> tail[i] == entries[i + 1]);
        }
        lemma_insert_pos_props(tail, k);
        assert forall|j: int| 0 <= j < insert_pos(entries, k) implies lex_lt(
            (#[trigger] entries[j]).0,
            k,
        ) by {
            if j > 0 {
                assert(tail[j - 1] == entries[j]);
                assert(lex_lt(tail[j - 1].0, k));
            }
        }
        if insert_pos(entries, k) < entries.len() {
            assert(entries[insert_pos(entries, k)] == tail[insert_pos(tail, k)]);
        }
    }
}

/// What an insert at the insert position does to lookups: the new key maps
/// to the new record, every other key is untouched.
pub proof fn lemma_insert_lookup(entries: Seq<EntryView>, k: Seq<u8>, v: FileDataView, k2: Seq<u8>)
    requires
        entries_wf(entries),
        k.len() == 32,
        v.wf(),
        !seq_contains_key(entries, k),
    ensures
        ({
            let new = entries.insert(insert_pos(entries, k), (k, v));
            (seq_contains_key(new, k2) <==> (seq_contains_key(entries, k2) || k2 == k))
                && (k2 == k ==> seq_value_of(new, k2) == v) && (seq_contains_key(entries, k2) && k2
                != k ==> seq_value_of(new, k2) == seq_value_of(entries, k2))
        }),
{
    lemma_insert_pos_props(entries, k);
    let p = insert_pos(entries, k);
    let new = entries.insert(p, (k, v));
    lemma_insert_keeps_wf(entries, k, v, p);
    assert(new[p] == (k, v));
    if k2 == k {
        lemma_key_index_unique(new, k, p);
    }
    if seq_contains_key(entries, k2) && k2 != k {
        let i = choose|i: int| 0 <= i < entries.len() && (#[trigger] entries[i]).0 == k2;
        lemma_key_index_unique(entries, k2, i);
        if i < p {
            assert(new[i] == entries[i]);
            lemma_key_index_unique(new, k2, i);
        } else {
            assert(new[i + 1] == entries[i]);
            lemma_key_index_unique(new, k2, i + 1);
        }
    }
    if seq_contains_key(new, k2) && k2 != k {
        let i = choose|i: int| 0 <= i < new.len() && (#[trigger] new[i]).0 == k2;
        if i < p {
            assert(entries[i].0 == k2);
            assert(seq_contains_key(entries, k2));
        } else {
            assert(i != p);
            assert(entries[i - 1].0 == k2);
            assert(seq_contains_key(entries, k2));
        }
    }
}

/// The mathematical value of an `Index`: its entry list in key order, and
/// the absolute path of the tracked root.
pub struct IndexView {
    pub entries: Seq<EntryView>,
    pub root: Seq<Seq<char>>,
}

impl IndexView {
    /// Well-formed index: a well-formed entry list.
    pub open spec fn wf(self) -> bool {
        entries_wf(self.entries)
    }

    /// Whether the index holds an entry under this key.
    pub open spec fn contains_key(self, k: Seq<u8>) -> bool {
        seq_contains_key(self.entries, k)
    }

    /// The record held under this key.
    pub open spec fn value_of(self, k: Seq<u8>) -> FileDataView {
        seq_value_of(self.entries, k)
    }
}

/// The authoritative snapshot of the tracked directory: records keyed by the
/// hash of their relative path, kept strictly sorted by key.
///
/// The key is always the path hash, never the content hash, so files with
/// identical content at different locations coexist, and a rename shows up
/// as a key change even when content is untouched.
#[derive(Debug)]
pub struct Index {
    file_data: Vec<([u8; 32], FileData)>,
    path_to_dir: Vec<String>,
}

impl View for Index {
    type V = IndexView;

    closed spec fn view(&self) -> IndexView {
        IndexView {
            entries: Seq::new(
                self.file_data@.len(),
                |i: int| (self.file_data@[i].0@, self.file_data@[i].1@),
            ),
            root: components_view(self.path_to_dir@),
        }
    }
}

/// Scans for the position where `key` belongs in the sorted entry list.
fn find_pos(entries: &Vec<([u8; 32], FileData)>, key: &[u8; 32]) -> (p: usize)
    ensures
        p <= entries@.len(),
        forall|j: int| 0 <= j < p ==> lex_lt((#[trigger] entries@[j]).0@, key@),
        p < entries@.len() ==> !lex_lt(entries@[p as int].0@, key@),
{
    let mut i: usize = 0;
    while i < entries.len()
        invariant
            0 <= i <= entries@.len(),
            forall|j: int| 0 <= j < i ==> lex_lt((#[trigger] entries@[j]).0@, key@),
        decreases entries@.len() - i,
    {
        if !key_lt(&entries[i].0, key) {
            return i;
        }
        i += 1;
    }
    i
}

impl Index {
    /// An empty index rooted at the given absolute directory path.
    pub fn new(path_to_dir: Vec<String>) -> (r: Self)
        ensures
            r@.entries == Seq::<EntryView>::empty(),
            r@.root == components_view(path_to_dir@),
            r@.wf(),
    {
        let r = Index { file_data: Vec::new(), path_to_dir };
        proof {
            assert(r@.entries =~= Seq::<EntryView>::empty());
        }
        r
    }

    /// The absolute path of the tracked directory.
    pub fn get_path_to_dir(&self) -> (r: &Vec<String>)
        ensures
            components_view(r@) == self@.root,
    {
        &self.path_to_dir
    }

    /// Looks a record up by its path-hash key.
    pub fn get_file_data(&self, key: &[u8; 32]) -> (r: Option<&FileData>)
        requires
            self@.wf(),
        ensures
            match r {
                Some(fd) => self@.contains_key(key@) && fd@ == self@.value_of(key@),
                None => !self@.contains_key(key@),
            },
    {
        let p = find_pos(&self.file_data, key);
        proof {
            lemma_pos_membership(self@.entries, key@, p as int);
        }
        if p < self.file_data.len() && key_eq(&self.file_data[p].0, key) {
            Some(&self.file_data[p].1)
        } else {
            None
        }
    }

    /// Inserts a record under a fresh key.  Fails with `EntryConflict`, and
    /// leaves the index unchanged, exactly when the key is already present;
    /// otherwise the entry takes its place in key order.
    pub fn add_file_data(&mut self, relative_path_hash: [u8; 32], file_data: FileData) -> (r:
        Result<(), EntryConflict>)
        requires
            old(self)@.wf(),
            file_data@.wf(),
        ensures
            final(self)@.wf(),
            final(self)@.root == old(self)@.root,
            match r {
                Ok(()) => !old(self)@.contains_key(relative_path_hash@) && final(self)@.entries
                    == old(self)@.entries.insert(
                    insert_pos(old(self)@.entries, relative_path_hash@),
                    (relative_path_hash@, file_data@),
                ),
                Err(e) => old(self)@.contains_key(relative_path_hash@) && final(self)@
                    == old(self)@,
            },
    {
        let p = find_pos(&self.file_data, &relative_path_hash);
        proof {
            lemma_pos_membership(self@.entries, relative_path_hash@, p as int);
            lemma_insert_pos_char(self@.entries, relative_path_hash@, p as int);
        }
        if p < self.file_data.len() && key_eq(&self.file_data[p].0, &relative_path_hash) {
            return Err(EntryConflict {});
        }
        proof {
            lemma_insert_keeps_wf(self@.entries, relative_path_hash@, file_data@, p as int);
        }
        self.file_data.insert(p, (relative_path_hash, file_data));
        proof {
            assert(self@.entries =~= old(self)@.entries.insert(
                insert_pos(old(self)@.entries, relative_path_hash@),
                (relative_path_hash@, file_data@),
            ));
        }
        Ok(())
    }

    /// Removes the record under a key, returning it, or `None`, with the
    /// index unchanged, when the key is absent.
    pub fn remove_file_data(&mut self, relative_path_hash: [u8; 32]) -> (r: Option<FileData>)
        requires
            old(self)@.wf(),
        ensures
            final(self)@.wf(),
            final(self)@.root == old(self)@.root,
            match r {
                Some(fd) => old(self)@.contains_key(relative_path_hash@) && fd@ == old(self)@.value_of(relative_path_hash@) && final(self)@.entries == old(self)@.entries.remove(seq_key_index(old(self)@.entries, relative_path_hash@)),
                None => !old(self)@.contains_key(relative_path_hash@) && final(self)@ == old(self)@,
            },
    {
        let p = find_pos(&self.file_data, &relative_path_hash);
        proof {
            lemma_pos_membership(self@.entries, relative_path_hash@, p as int);
        }
        if p < self.file_data.len() && key_eq(&self.file_data[p].0, &relative_path_hash) {
            proof {
                lemma_remove_keeps_wf(self@.entries, p as int);
            }
            let (_, fd) = self.file_data.remove(p);
            proof {
                assert(self@.entries =~= old(self)@.entries.remove(p as int));
            }
            Some(fd)
        } else {
            None
        }
    }

    /// Replaces the record under a key, returning the one it held, or
    /// inserts the record in key order when the key was absent.  This is the
    /// update path for content changes that leave the path untouched.
    pub fn edit_file_data(&mut self, relative_path_hash: [u8; 32], file_data: FileData) -> (r:
        Option<FileData>)
        requires
            old(self)@.wf(),
            file_data@.wf(),
        ensures
            final(self)@.wf(),
            final(self)@.root == old(self)@.root,
            match r {
                Some(prev) => old(self)@.contains_key(relative_path_hash@) && prev@ == old(self)@.value_of(relative_path_hash@) && final(self)@.entries == old(self)@.entries.update(
                    seq_key_index(old(self)@.entries, relative_path_hash@),
                    (relative_path_hash@, file_data@),
                ),
                None => !old(self)@.contains_key(relative_path_hash@) && final(self)@.entries
                    == old(self)@.entries.insert(
                    insert_pos(old(self)@.entries, relative_path_hash@),
                    (relative_path_hash@, file_data@),
                ),
            },
    {
        let p = find_pos(&self.file_data, &relative_path_hash);
        proof {
            lemma_pos_membership(self@.entries, relative_path_hash@, p as int);
            lemma_insert_pos_char(self@.entries, relative_path_hash@, p as int);
        }
        if p < self.file_data.len() && key_eq(&self.file_data[p].0, &relative_path_hash) {
            let prev = self.file_data[p].1.clone();
            self.file_data[p] = (relative_path_hash, file_data);
            proof {
                let oldv = old(self)@.entries;
                let newv = self@.entries;
                assert(newv =~= oldv.update(p as int, (relative_path_hash@, file_data@)));
                assert forall|i: int, j: int| 0 <= i < j < newv.len() implies lex_lt(
                    (#[trigger] newv[i]).0,
                    (#[trigger] newv[j]).0,
                ) by {
                    assert(newv[i].0 == oldv[i].0 && newv[j].0 == oldv[j].0);
                }
            }
            Some(prev)
        } else {
            proof {
                lemma_insert_keeps_wf(self@.entries, relative_path_hash@, file_data@, p as int);
            }
            self.file_data.insert(p, (relative_path_hash, file_data));
            proof {
                assert(self@.entries =~= old(self)@.entries.insert(
                    insert_pos(old(self)@.entries, relative_path_hash@),
                    (relative_path_hash@, file_data@),
                ));
            }
            None
        }
    }
}

/// The content hashes of the first `n` entries, concatenated in key order.
pub open spec fn state_input_prefix(entries: Seq<EntryView>, n: int) -> Seq<u8>
    decreases n,
{
    if n <= 0 {
        Seq::empty()
    } else {
        state_input_prefix(entries, n - 1) + entries[n - 1].1.hash
    }
}

/// The input of the canonical state digest: all entries' content hashes,
/// concatenated in ascending key order.
pub open spec fn state_input(entries: Seq<EntryView>) -> Seq<u8> {
    state_input_prefix(entries, entries.len() as int)
}

/// The bytes of the first `n` records of the index file: for each entry its
/// 32-byte key, then its length-prefixed record body.
pub open spec fn index_bytes_prefix(entries: Seq<EntryView>, n: int) -> Seq<u8>
    decreases n,
{
    if n <= 0 {
        Seq::empty()
    } else {
        index_bytes_prefix(entries, n - 1) + entries[n - 1].0 + record_body(entries[n - 1].1)
    }
}

/// The whole index file: the entries' records in ascending key order, with
/// no header and no trailer.
pub open spec fn index_bytes(entries: Seq<EntryView>) -> Seq<u8> {
    index_bytes_prefix(entries, entries.len() as int)
}

/// Whether every entry's payload length fits the 32-bit length field.
pub open spec fn index_encodable(entries: Seq<EntryView>) -> bool {
    forall|i: int| 0 <= i < entries.len() ==> encodable((#[trigger] entries[i]).1)
}

/// The records read from an index file, in file order, or the error on
/// which reading stops: a record cut off by the end of the input, or a
/// malformed payload.
pub open spec fn spec_parse_records(b: Seq<u8>) -> Result<Seq<EntryView>, CodecError>
    decreases b.len(),
{
    if b.len() == 0 {
        Ok(Seq::empty())
    } else if b.len() < 36 {
        Err(CodecError::Truncated)
    } else {
        let l = be_to_u32(b.subrange(32, 36)) as int;
        if 36 + l > b.len() {
            Err(CodecError::Truncated)
        } else {
            match spec_decode_payload(b.subrange(36, 36 + l)) {
                None => Err(
                    if l < 40 {
                        CodecError::Truncated
                    } else {
                        CodecError::InvalidPath
                    },
                ),
                Some(fd) => match spec_parse_records(b.skip(36 + l)) {
                    Err(e) => Err(e),
                    Ok(rest) => Ok(seq![(b.take(32), fd)] + rest),
                },
            }
        }
    }
}

/// One record folded into an entry list: dropped when its key is already
/// held (the first occurrence wins), inserted in key order otherwise.
pub open spec fn load_one(entries: Seq<EntryView>, k: Seq<u8>, v: FileDataView) -> Seq<EntryView> {
    if seq_contains_key(entries, k) {
        entries
    } else {
        entries.insert(insert_pos(entries, k), (k, v))
    }
}

/// The entry list built by folding a record list in file order.
pub open spec fn spec_load(records: Seq<EntryView>) -> Seq<EntryView>
    decreases records.len(),
{
    if records.len() == 0 {
        Seq::empty()
    } else {
        load_one(spec_load(records.drop_last()), records.last().0, records.last().1)
    }
}

impl Index {
    /// The canonical state digest: SHA-256 over the concatenation of all
    /// entries' content hashes, visited in ascending key order.  The order
    /// is fixed by the sorted entry list, so the digest does not depend on
    /// the order in which entries were inserted.
    pub fn get_current_state(&self) -> (r: [u8; 32])
        ensures
            r@ == crate::hash::sha256_of(state_input(self@.entries)),
    {
        let mut data: Vec<u8> = Vec::new();
        let mut i: usize = 0;
        while i < self.file_data.len()
            invariant
                0 <= i <= self.file_data@.len(),
                self@.entries.len() == self.file_data@.len(),
                data@ == state_input_prefix(self@.entries, i as int),
            decreases self.file_data@.len() - i,
        {
            data.extend_from_slice(&self.file_data[i].1.hash);
            proof {
                assert(data@ =~= state_input_prefix(self@.entries, i as int + 1));
            }
            i += 1;
        }
        crate::hash::sha256(data.as_slice())
    }

    /// Writes the whole index file: each entry's key and record body, in
    /// ascending key order.  Fails exactly when some record's payload length
    /// does not fit the 32-bit length field.
    pub fn serialize(&self) -> (r: Result<Vec<u8>, CodecError>)
        ensures
            match r {
                Ok(b) => index_encodable(self@.entries) && b@ == index_bytes(self@.entries),
                Err(e) => e == CodecError::RecordTooLong && !index_encodable(self@.entries),
            },
    {
        let mut out: Vec<u8> = Vec::new();
        let mut i: usize = 0;
        while i < self.file_data.len()
            invariant
                0 <= i <= self.file_data@.len(),
                self@.entries.len() == self.file_data@.len(),
                forall|j: int| 0 <= j < i ==> encodable((#[trigger] self@.entries[j]).1),
                out@ == index_bytes_prefix(self@.entries, i as int),
            decreases self.file_data@.len() - i,
        {
            out.extend_from_slice(&self.file_data[i].0);
            match self.file_data[i].1.serialize() {
                Ok(body) => {
                    out.extend_from_slice(body.as_slice());
                },
                Err(_) => {
                    proof {
                        assert(!encodable(self@.entries[i as int].1));
                    }
                    return Err(CodecError::RecordTooLong);
                },
            }
            proof {
                assert(out@ =~= index_bytes_prefix(self@.entries, i as int + 1));
            }
            i += 1;
        }
        Ok(out)
    }

    /// Rebuilds an index from the bytes of an index file, rooted at the
    /// given directory.  Records are folded in file order, the first record
    /// under a key winning; any malformed or truncated record fails the
    /// whole load, and the caller falls back to a fresh scan.
    pub fn from_file(path_to_dir: Vec<String>, bytes: &[u8]) -> (r: Result<Index, CodecError>)
        ensures
            match r {
                Ok(idx) => spec_parse_records(bytes@) matches Ok(records) && idx@.entries
                    == spec_load(records) && idx@.root == components_view(path_to_dir@)
                    && idx@.wf(),
                Err(e) => spec_parse_records(bytes@) == Err::<Seq<EntryView>, CodecError>(e),
            },
    {
        let mut idx = Index::new(path_to_dir);
        let ghost root = idx@.root;
        let mut pos: usize = 0;
        let ghost mut parsed: Seq<EntryView> = Seq::empty();
        let n = bytes.len();
        proof {
            assert(bytes@.skip(0) =~= bytes@);
            match spec_parse_records(bytes@) {
                Ok(rest) => {
                    assert(parsed + rest =~= rest);
                },
                Err(_) => {},
            }
        }
        while pos < n
            invariant
                0 <= pos <= n == bytes@.len(),
                idx@.wf(),
                idx@.root == root,
                idx@.entries == spec_load(parsed),
                spec_parse_records(bytes@) == (match spec_parse_records(bytes@.skip(pos as int)) {
                    Ok(rest) => Ok::<Seq<EntryView>, CodecError>(parsed + rest),
                    Err(e) => Err::<Seq<EntryView>, CodecError>(e),
                }),
            decreases n - pos,
        {
            let ghost rem = bytes@.skip(pos as int);
            if n - pos < 36 {
                return Err(CodecError::Truncated);
            }
            let mut key = [0u8; 32];
            let mut k: usize = 0;
            while k < 32
                invariant
                    0 <= k <= 32,
                    pos + 36 <= n <= bytes@.len() <= usize::MAX,
                    key@.len() == 32,
                    forall|j: int| 0 <= j < k ==> key@[j] == bytes@[pos + j],
                decreases 32 - k,
            {
                key[k] = bytes[pos + k];
                k += 1;
            }
            proof {
                assert(key@ =~= rem.take(32));
                assert(rem.subrange(32, 36) =~= bytes@.subrange(pos as int + 32, pos as int + 36));
            }
            let l32 = read_u32_be(bytes, pos + 32);
            if (l32 as usize) > n - pos - 36 {
                return Err(CodecError::Truncated);
            }
            let l = l32 as usize;
            let payload = slice_range(bytes, pos + 36, pos + 36 + l);
            proof {
                assert(payload@ =~= rem.subrange(36, 36 + l as int));
            }
            match FileData::deserialize(payload) {
                Err(e) => {
                    return Err(e);
                },
                Ok(fd) => {
                    let ghost prev_entries = idx@.entries;
                    let _ = idx.add_file_data(key, fd);
                    proof {
                        let rec = (key@, fd@);
                        let parsed2 = parsed.push(rec);
                        assert(idx@.entries == load_one(prev_entries, key@, fd@));
                        assert(parsed2.drop_last() =~= parsed);
                        assert(spec_load(parsed2) == load_one(spec_load(parsed), key@, fd@));
                        assert(bytes@.skip(pos as int + 36 + l as int) =~= rem.skip(
                            36 + l as int,
                        ));
                        match spec_parse_records(rem.skip(36 + l as int)) {
                            Ok(rest) => {
                                assert(spec_parse_records(rem) == Ok::<
                                    Seq<EntryView>,
                                    CodecError,
                                >(seq![rec] + rest));
                                assert(parsed + (seq![rec] + rest) =~= parsed2 + rest);
                            },
                            Err(e) => {
                                assert(spec_parse_records(rem) == Err::<
                                    Seq<EntryView>,
                                    CodecError,
                                >(e));
                            },
                        }
                        parsed = parsed2;
                    }
                    pos = pos + 36 + l;
                },
            }
        }
        proof {
            assert(bytes@.skip(pos as int) =~= Seq::<u8>::empty());
            assert(parsed + Seq::<EntryView>::empty() =~= parsed);
        }
        Ok(idx)
    }
}

/// The index file of a nonempty entry list starts with the first entry's
/// record, followed by the file of the remaining entries.
proof fn lemma_index_bytes_front(entries: Seq<EntryView>, n: int)
    requires
        1 <= n <= entries.len(),
    ensures
        index_bytes_prefix(entries, n) == entries[0].0 + record_body(entries[0].1)
            + index_bytes_prefix(entries.drop_first(), n - 1),
    decreases n,
{
    let fr = entries[0].0 + record_body(entries[0].1);
    if n == 1 {
        assert(index_bytes_prefix(entries, 0) == Seq::<u8>::empty());
        assert(index_bytes_prefix(entries, 1) =~= fr);
        assert(fr + index_bytes_prefix(entries.drop_first(), 0) =~= fr);
    } else {
        lemma_index_bytes_front(entries, n - 1);
        assert(entries.drop_first()[n - 2] == entries[n - 1]);
        assert(index_bytes_prefix(entries, n) == index_bytes_prefix(entries, n - 1)
            + entries[n - 1].0 + record_body(entries[n - 1].1));
        assert(fr + index_bytes_prefix(entries.drop_first(), n - 1) =~= (fr + index_bytes_prefix(
            entries.drop_first(),
            n - 2,
        )) + entries[n - 1].0 + record_body(entries[n - 1].1));
    }
}

/// The shape of one record at the front of a byte string: its fields sit at
/// the offsets the parser reads them from, and the rest follows.
#[verifier::rlimit(50)]
proof fn lemma_parse_one_record(b: Seq<u8>, e: EntryView, rest: Seq<u8>)
    requires
        b == e.0 + record_body(e.1) + rest,
        e.0.len() == 32,
        e.1.wf(),
        encodable(e.1),
    ensures
        b.len() >= 36,
        b.take(32) == e.0,
        be_to_u32(b.subrange(32, 36)) as int == payload_len(e.1),
        36 + payload_len(e.1) <= b.len(),
        spec_decode_payload(b.subrange(36, 36 + payload_len(e.1))) == Some(e.1),
        b.skip(36 + payload_len(e.1)) == rest,
{
    let lp = payload_len(e.1);
    assert(b.take(32) =~= e.0);
    assert(b.subrange(32, 36) =~= u32_be(lp as u32));
    crate::bytes::lemma_u32_be_round_trip(lp as u32);
    assert(b.subrange(36, 36 + lp) =~= payload_bytes(e.1));
    lemma_payload_round_trip(e.1);
    assert(b.skip(36 + lp) =~= rest);
}

/// Parsing the written index file yields exactly the entries written, in
/// order: the format loses nothing.
#[verifier::rlimit(100)]
pub proof fn lemma_parse_index_bytes(entries: Seq<EntryView>)
    requires
        entries_wf(entries),
        index_encodable(entries),
    ensures
        spec_parse_records(index_bytes(entries)) == Ok::<Seq<EntryView>, CodecError>(entries),
    decreases entries.len(),
{
    let b = index_bytes(entries);
    if entries.len() == 0 {
        assert(b =~= Seq::<u8>::empty());
        assert(entries =~= Seq::<EntryView>::empty());
    } else {
        let e0 = entries[0];
        let tail = entries.drop_first();
        let lp = payload_len(e0.1);
        lemma_index_bytes_front(entries, entries.len() as int);
        assert(b == e0.0 + record_body(e0.1) + index_bytes(tail)) by {
            assert(index_bytes_prefix(tail, entries.len() - 1) == index_bytes(tail));
        }
        lemma_parse_one_record(b, e0, index_bytes(tail));
        assert(entries_wf(tail) && index_encodable(tail)) by {
            assert(forall|i: int| 0 <= i < tail.len() ==> tail[i] == entries[i + 1]);
        }
        lemma_parse_index_bytes(tail);
        assert(spec_parse_records(b) == Ok::<Seq<EntryView>, CodecError>(
            seq![(b.take(32), e0.1)] + tail,
        ));
        assert(seq![(b.take(32), e0.1)] + tail =~= entries);
    }
}

/// Folding an already sorted, well-formed entry list loads it unchanged.
pub proof fn lemma_load_sorted(entries: Seq<EntryView>)
    requires
        entries_wf(entries),
    ensures
        spec_load(entries) == entries,
    decreases entries.len(),
{
    if entries.len() > 0 {
        let prefix = entries.drop_last();
        let last = entries.last();
        assert(entries_wf(prefix)) by {
            assert(forall|i: int| 0 <= i < prefix.len() ==> prefix[i] == entries[i]);
        }
        lemma_load_sorted(prefix);
        assert(!seq_contains_key(prefix, last.0)) by {
            if seq_contains_key(prefix, last.0) {
                let i = choose|i: int|
                    0 <= i < prefix.len() && (#[trigger] prefix[i]).0 == last.0;
                assert(lex_lt(entries[i].0, last.0));
                lemma_lex_irreflexive(last.0);
            }
        }
        lemma_insert_pos_char(prefix, last.0, prefix.len() as int);
        assert(prefix.insert(prefix.len() as int, (last.0, last.1)) =~= entries) by {
            assert((last.0, last.1) == last);
        }
    }
}

/// Round trip of persistence: writing a well-formed index and reading the
/// bytes back recovers exactly the same entries, key for key, record for
/// record.
pub proof fn lemma_index_round_trip(entries: Seq<EntryView>)
    requires
        entries_wf(entries),
        index_encodable(entries),
    ensures
        spec_parse_records(index_bytes(entries)) == Ok::<Seq<EntryView>, CodecError>(entries),
        spec_load(entries) == entries,
{
    lemma_parse_index_bytes(entries);
    lemma_load_sorted(entries);
}

/// Two well-formed indices that hold the same keys with the same records
/// are the same entry list, so the canonical state digest depends only on
/// what the index holds, never on the order in which it was built.
pub proof fn lemma_canonical_state_digest(a: Seq<EntryView>, b: Seq<EntryView>)
    requires
        entries_wf(a),
        entries_wf(b),
        forall|k: Seq<u8>| seq_contains_key(a, k) <==> seq_contains_key(b, k),
        forall|k: Seq<u8>|
            seq_contains_key(a, k) ==> seq_value_of(a, k) == seq_value_of(b, k),
    ensures
        a == b,
        state_input(a) == state_input(b),
    decreases a.len(),
{
    if a.len() == 0 {
        if b.len() > 0 {
            assert(seq_contains_key(b, b[0].0));
        }
        assert(a =~= b);
    } else {
        assert(seq_contains_key(a, a[0].0));
        assert(seq_contains_key(b, b[0].0));
        let j = choose|j: int| 0 <= j < b.len() && (#[trigger] b[j]).0 == a[0].0;
        let m = choose|m: int| 0 <= m < a.len() && (#[trigger] a[m]).0 == b[0].0;
        assert(seq_contains_key(b, a[0].0) && 0 <= j < b.len() && b[j].0 == a[0].0);
        assert(seq_contains_key(a, b[0].0) && 0 <= m < a.len() && a[m].0 == b[0].0);
        if j > 0 {
            assert(lex_lt(b[0].0, b[j].0));
            if m > 0 {
                assert(lex_lt(a[0].0, a[m].0));
                lemma_lex_asymmetric(b[0].0, b[j].0);
            } else {
                lemma_lex_irreflexive(b[0].0);
            }
        }
        assert(b[0].0 == a[0].0);
        lemma_key_index_unique(a, a[0].0, 0);
        lemma_key_index_unique(b, a[0].0, 0);
        assert(a[0].1 == b[0].1);
        let ta = a.drop_first();
        let tb = b.drop_first();
        assert(entries_wf(ta)) by {
            assert(forall|i: int| 0 <= i < ta.len() ==> ta[i] == a[i + 1]);
        }
        assert(entries_wf(tb)) by {
            assert(forall|i: int| 0 <= i < tb.len() ==> tb[i] == b[i + 1]);
        }
        assert forall|k: Seq<u8>|
            seq_contains_key(ta, k) <==> seq_contains_key(tb, k) by {
            lemma_tail_membership(a, k);
            lemma_tail_membership(b, k);
        }
        assert forall|k: Seq<u8>|
            seq_contains_key(ta, k) implies seq_value_of(ta, k) == seq_value_of(tb, k) by {
            lemma_tail_membership(a, k);
            lemma_tail_membership(b, k);
            lemma_tail_value(a, k);
            lemma_tail_value(b, k);
        }
        lemma_canonical_state_digest(ta, tb);
        assert(a[0] =~= b[0]);
        assert forall|i: int| 0 <= i < a.len() implies a[i] == b[i] by {
            if i > 0 {
                assert(a[i] == ta[i - 1] && b[i] == tb[i - 1]);
            }
        }
        assert(a =~= b);
    }
}

/// A key lives in the tail of a sorted entry list exactly when it lives in
/// the list and differs from the head key.
proof fn lemma_tail_membership(a: Seq<EntryView>, k: Seq<u8>)
    requires
        entries_wf(a),
        a.len() > 0,
    ensures
        seq_contains_key(a.drop_first(), k) <==> (seq_contains_key(a, k) && k != a[0].0),
{
    let ta = a.drop_first();
    if seq_contains_key(ta, k) {
        let i = choose|i: int| 0 <= i < ta.len() && (#[trigger] ta[i]).0 == k;
        assert(a[i + 1].0 == k);
        assert(seq_contains_key(a, k));
        assert(lex_lt(a[0].0, a[i + 1].0));
        if k == a[0].0 {
            lemma_lex_irreflexive(k);
        }
    }
    if seq_contains_key(a, k) && k != a[0].0 {
        let i = choose|i: int| 0 <= i < a.len() && (#[trigger] a[i]).0 == k;
        assert(i > 0);
        assert(ta[i - 1].0 == k);
        assert(seq_contains_key(ta, k));
    }
}

/// The record under a key held in the tail is the record the whole list
/// holds under it.
proof fn lemma_tail_value(a: Seq<EntryView>, k: Seq<u8>)
    requires
        entries_wf(a),
        a.len() > 0,
        seq_contains_key(a.drop_first(), k),
    ensures
        seq_value_of(a.drop_first(), k) == seq_value_of(a, k),
{
    let ta = a.drop_first();
    assert(entries_wf(ta)) by {
        assert(forall|i: int| 0 <= i < ta.len() ==> ta[i] == a[i + 1]);
    }
    let i = seq_key_index(ta, k);
    assert(0 <= i < ta.len() && ta[i].0 == k);
    lemma_key_index_unique(ta, k, i);
    assert(a[i + 1].0 == k);
    lemma_key_index_unique(a, k, i + 1);
}

} // verus!
