//! The directory scanner's computational core: relative paths, the record
//! built for one file, the partition of the file list among workers, and the
//! aggregation of worker results into one index.  Directory walking, file
//! reads, and the worker threads themselves live outside the crate and feed
//! these functions plain values.

use vstd::prelude::*;
use crate::codec::{wf_components, wf_path};
use crate::data::{
    lemma_insert_lookup, seq_contains_key, EntryView, FileData, FileDataView, Index,
};
use crate::error::IllegalState;
use crate::hash::{
    components_view, hash_path, identity_hash, path_bytes, sha256_of, spec_identity_hash,
};

verus! {

/// The path of a file relative to the tracked root: the components past the
/// root prefix, preceded by the `.` component.  The root itself, or a path
/// no deeper than the root, is the single component `.`.
pub open spec fn spec_relative_path(root: Seq<Seq<char>>, path: Seq<Seq<char>>) -> Seq<
    Seq<char>,
> {
    if root.len() <= path.len() {
        seq!["."@] + path.skip(root.len() as int)
    } else {
        seq!["."@]
    }
}

/// Strips the root prefix off an absolute path and roots the remainder at
/// the `.` component.
pub fn find_relative_path(path_to_dir: &Vec<String>, path: &Vec<String>) -> (r: Vec<String>)
    ensures
        components_view(r@) == spec_relative_path(
            components_view(path_to_dir@),
            components_view(path@),
        ),
        wf_components(components_view(path@)) ==> wf_path(components_view(r@)),
{
    let ghost rootv = components_view(path_to_dir@);
    let ghost pathv = components_view(path@);
    let mut relative_path: Vec<String> = Vec::new();
    relative_path.push(".".to_owned());
    let mut i: usize = path_to_dir.len();
    if i > path.len() {
        i = path.len();
    }
    let ghost start = i as int;
    while i < path.len()
        invariant
            0 <= start <= i as int <= pathv.len(),
            pathv == components_view(path@),
            components_view(relative_path@) =~= seq!["."@] + pathv.subrange(start, i as int),
        decreases path@.len() - i,
    {
        let ghost prev_rel = relative_path@;
        let comp = path[i].clone();
        let ghost compv = comp@;
        relative_path.push(comp);
        proof {
            assert(compv == pathv[i as int]);
            let newv = components_view(relative_path@);
            let target = seq!["."@] + pathv.subrange(start, i as int + 1);
            assert(relative_path@.len() == prev_rel.len() + 1);
            assert(components_view(prev_rel).len() == prev_rel.len());
            assert(prev_rel.len() == 1 + i as int - start);
            assert forall|m: int| 0 <= m < newv.len() implies newv[m] == target[m] by {
                if m < prev_rel.len() {
                    assert(relative_path@[m] == prev_rel[m]);
                    assert(newv[m] == components_view(prev_rel)[m]);
                    assert(components_view(prev_rel)[m] == (seq!["."@] + pathv.subrange(
                        start,
                        i as int,
                    ))[m]);
                    if m > 0 {
                        assert((seq!["."@] + pathv.subrange(start, i as int))[m]
                            == pathv.subrange(start, i as int)[m - 1]);
                        assert(target[m] == pathv.subrange(start, i as int + 1)[m - 1]);
                        assert(pathv.subrange(start, i as int)[m - 1] == pathv[start + m - 1]);
                        assert(pathv.subrange(start, i as int + 1)[m - 1] == pathv[start + m
                            - 1]);
                    }
                } else {
                    assert(m == 1 + i as int - start);
                    assert(newv[m] == compv);
                    assert(target[m] == pathv.subrange(start, i as int + 1)[m - 1]);
                    assert(pathv.subrange(start, i as int + 1)[m - 1] == pathv[i as int]);
                }
            }
            assert(newv =~= target);
        }
        i += 1;
    }
    proof {
        reveal_strlit(".");
        assert("."@.len() == 1 && "."@[0] == '.');
        if rootv.len() <= pathv.len() {
            assert(pathv.subrange(start, pathv.len() as int) =~= pathv.skip(rootv.len() as int));
        } else {
            assert(pathv.subrange(start, pathv.len() as int) =~= Seq::<Seq<char>>::empty());
            assert(components_view(relative_path@) =~= seq!["."@]);
        }
    }
    relative_path
}

/// Builds the record for one file from its content bytes and modification
/// time: the identity hash folds the content together with the bytes of the
/// file's relative path, so equal content at two locations still yields two
/// distinct digest inputs.
pub fn create_file_data(path_to_dir: &Vec<String>, path: &Vec<String>, content: &Vec<u8>, modified:
    u64) -> (r: FileData)
    requires
        wf_components(components_view(path@)),
    ensures
        r@ == spec_file_record(
            components_view(path_to_dir@),
            components_view(path@),
            content@,
            modified,
        ),
        r@.wf(),
{
    let rel = find_relative_path(path_to_dir, path);
    let hash = identity_hash(content, &rel);
    let mut file_data = FileData::new();
    file_data.set_hash(hash);
    file_data.set_path_from_root(rel);
    file_data.set_timestamp(modified);
    file_data
}

/// The record the engine keeps for a file: identity hash over content plus
/// relative-path bytes, the relative path itself, and the modification time.
pub open spec fn spec_file_record(
    root: Seq<Seq<char>>,
    path: Seq<Seq<char>>,
    content: Seq<u8>,
    modified: u64,
) -> FileDataView {
    let rel = spec_relative_path(root, path);
    FileDataView { hash: spec_identity_hash(content, rel), path: rel, timestamp: modified }
}

/// The `(key, record)` pair a scan worker emits for one file: the record,
/// keyed by the hash of its relative path.
pub open spec fn scan_record(
    root: Seq<Seq<char>>,
    path: Seq<Seq<char>>,
    content: Seq<u8>,
    modified: u64,
) -> EntryView {
    (
        sha256_of(path_bytes(spec_relative_path(root, path))),
        spec_file_record(root, path, content, modified),
    )
}

/// What one scan worker computes for one file: the record and its
/// relative-path-hash key.
pub fn build_entry(path_to_dir: &Vec<String>, path: &Vec<String>, content: &Vec<u8>, modified:
    u64) -> (r: ([u8; 32], FileData))
    requires
        wf_components(components_view(path@)),
    ensures
        (r.0@, r.1@) == scan_record(
            components_view(path_to_dir@),
            components_view(path@),
            content@,
            modified,
        ),
        r.1@.wf(),
{
    let data = create_file_data(path_to_dir, path, content, modified);
    let rel = data.get_path_from_root();
    let key = hash_path(&rel);
    (key, data)
}

/// Splits `len` items into `workers` contiguous ranges of `len / workers`
/// items each, the last range taking the remainder as well.
pub fn partition_ranges(len: usize, workers: usize) -> (r: Vec<(usize, usize)>)
    requires
        workers >= 1,
    ensures
        r@.len() == workers,
        r@[0].0 == 0,
        r@[workers - 1].1 == len,
        forall|i: int| 0 <= i < workers - 1 ==> (#[trigger] r@[i]).1 == r@[i + 1].0,
        forall|i: int| 0 <= i < workers ==> (#[trigger] r@[i]).0 <= r@[i].1 <= len,
        forall|i: int|
            0 <= i < workers - 1 ==> (#[trigger] r@[i]).1 - r@[i].0 == len as int / workers as int,
{
    let slice_size = len / workers;
    proof {
        vstd::arithmetic::div_mod::lemma_fundamental_div_mod(len as int, workers as int);
        vstd::arithmetic::div_mod::lemma_mod_division_less_than_divisor(
            len as int,
            workers as int,
        );
        assert((workers as int) * (slice_size as int) <= len as int);
    }
    let mut r: Vec<(usize, usize)> = Vec::new();
    let mut start: usize = 0;
    let mut i: usize = 0;
    while i < workers
        invariant
            0 <= i <= workers,
            slice_size == len as int / workers as int,
            (workers as int) * (slice_size as int) <= len as int,
            r@.len() == i,
            i < workers ==> start as int == i as int * slice_size as int,
            start <= len,
            i > 0 ==> r@[0].0 == 0,
            forall|j: int| 0 <= j < i - 1 ==> (#[trigger] r@[j]).1 == r@[j + 1].0,
            forall|j: int| 0 <= j < i ==> (#[trigger] r@[j]).0 <= r@[j].1 <= len,
            forall|j: int|
                0 <= j < i && j < workers - 1 ==> (#[trigger] r@[j]).1 - r@[j].0 == slice_size,
            i > 0 && i < workers ==> r@[i - 1].1 == start,
            i == workers ==> i > 0 && r@[i - 1].1 == len,
        decreases workers - i,
    {
        proof {
            assert((i as int + 1) * (slice_size as int) <= (workers as int) * (
            slice_size as int)) by (nonlinear_arith)
                requires
                    i as int + 1 <= workers as int,
                    slice_size as int >= 0,
            ;
            assert(i as int * slice_size as int + slice_size as int == (i as int + 1) * (
            slice_size as int)) by (nonlinear_arith);
        }
        let end = if i == workers - 1 {
            len
        } else {
            start + slice_size
        };
        r.push((start, end));
        start = if i == workers - 1 {
            len
        } else {
            start + slice_size
        };
        proof {
            if i as int == workers as int - 1 {
                assert((workers as int) * (slice_size as int) == (i as int + 1) * (
                slice_size as int)) by (nonlinear_arith)
                    requires
                        i as int == workers as int - 1,
                ;
            }
        }
        i += 1;
    }
    r
}

/// Folds worker results into one index rooted at the given directory: one
/// insert per pair.  A duplicate key is a fatal consistency violation — two
/// files of one walk may never hash to the same relative-path key — and
/// fails the whole scan.
pub fn index_from_entries(path_to_dir: Vec<String>, entries: &Vec<([u8; 32], FileData)>) -> (r:
    Result<Index, IllegalState>)
    requires
        forall|i: int| 0 <= i < entries@.len() ==> (#[trigger] entries@[i]).1@.wf(),
    ensures
        match r {
            Ok(idx) => idx@.wf() && idx@.root == components_view(path_to_dir@) && (forall|
                a: int,
                b: int,
            |
                0 <= a < b < entries@.len() ==> (#[trigger] entries@[a]).0@ != (
                #[trigger] entries@[b]).0@) && (forall|k: Seq<u8>|
                idx@.contains_key(k) <==> exists|i: int|
                    0 <= i < entries@.len() && (#[trigger] entries@[i]).0@ == k) && (forall|i: int|
                0 <= i < entries@.len() ==> idx@.value_of((#[trigger] entries@[i]).0@)
                    == entries@[i].1@),
            Err(e) => exists|a: int, b: int|
                0 <= a < b < entries@.len() && (#[trigger] entries@[a]).0@ == (
                #[trigger] entries@[b]).0@,
        },
{
    let mut idx = Index::new(path_to_dir);
    let ghost root = idx@.root;
    let mut i: usize = 0;
    while i < entries.len()
        invariant
            0 <= i <= entries@.len(),
            forall|j: int| 0 <= j < entries@.len() ==> (#[trigger] entries@[j]).1@.wf(),
            idx@.wf(),
            idx@.root == root,
            forall|k: Seq<u8>|
                #![trigger seq_contains_key(idx@.entries, k)]
                seq_contains_key(idx@.entries, k) <==> exists|j: int|
                    0 <= j < i && (#[trigger] entries@[j]).0@ == k,
            forall|j: int|
                0 <= j < i ==> crate::data::seq_value_of(idx@.entries, (#[trigger] entries@[j]).0@)
                    == entries@[j].1@,
            forall|a: int, b: int|
                0 <= a < b < i ==> (#[trigger] entries@[a]).0@ != (#[trigger] entries@[b]).0@,
        decreases entries@.len() - i,
    {
        let key = entries[i].0;
        let data = entries[i].1.clone();
        let ghost prev = idx@.entries;
        match idx.add_file_data(key, data) {
            Err(_) => {
                proof {
                    let j = choose|j: int| 0 <= j < i && (#[trigger] entries@[j]).0@ == key@;
                    assert(0 <= j && j < i as int && (i as int) < entries@.len() && entries@[j].0@
                        == entries@[i as int].0@);
                }
                return Err(IllegalState::new("duplicate key while aggregating scan".to_owned()));
            },
            Ok(()) => {
                proof {
                    assert forall|k: Seq<u8>|
                        (seq_contains_key(idx@.entries, k) <==> exists|j: int|
                            0 <= j < i + 1 && (#[trigger] entries@[j]).0@ == k) by {
                        lemma_insert_lookup(prev, key@, data@, k);
                        assert(entries@[i as int].0@ == key@);
                        if seq_contains_key(prev, k) {
                            let j = choose|j: int|
                                0 <= j < i && (#[trigger] entries@[j]).0@ == k;
                            assert(0 <= j < i + 1 && entries@[j].0@ == k);
                        }
                    }
                    assert forall|j: int|
                        0 <= j < i + 1 implies crate::data::seq_value_of(
                        idx@.entries,
                        (#[trigger] entries@[j]).0@,
                    ) == entries@[j].1@ by {
                        lemma_insert_lookup(prev, key@, data@, entries@[j].0@);
                        if j < i as int {
                            assert(exists|j2: int|
                                0 <= j2 < i && (#[trigger] entries@[j2]).0@ == entries@[j].0@);
                            assert(seq_contains_key(prev, entries@[j].0@));
                            assert(entries@[j].0@ != key@);
                        }
                    }
                }
            },
        }
        i += 1;
    }
    Ok(idx)
}

} // verus!
