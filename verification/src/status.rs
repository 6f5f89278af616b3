//! The status reconciliation: compares the digests of the working-tree files
//! against the staging index and classifies every path as unchanged,
//! modified, untracked, or — for indexed paths missing from disk — deleted.

use vstd::prelude::*;

use crate::bytes::{bytes_eq, copy_bytes};
use crate::index::{IndexEntry, EntryView, entry_views, index_digest_of, spec_index_digest_of,
    lemma_index_digest_exists};

verus! {

/// A working-tree file, reduced to its path and the digest of its current
/// content.
pub struct HashedFile {
    pub path: Vec<u8>,
    pub digest: Vec<u8>,
}

/// The mathematical content of a `HashedFile`.
#[verifier::ext_equal]
pub ghost struct HashedFileView {
    pub path: Seq<u8>,
    pub digest: Seq<u8>,
}

impl View for HashedFile {
    type V = HashedFileView;

    open spec fn view(&self) -> HashedFileView {
        HashedFileView { path: self.path@, digest: self.digest@ }
    }
}

/// The views of a sequence of working-tree files.
pub open spec fn file_views(v: Seq<HashedFile>) -> Seq<HashedFileView> {
    v.map_values(|f: HashedFile| f@)
}

/// The views of a sequence of paths.
pub open spec fn path_views(v: Seq<Vec<u8>>) -> Seq<Seq<u8>> {
    v.map_values(|p: Vec<u8>| p@)
}

/// The digest of the working-tree file at `path`, if one is on disk.
pub open spec fn spec_disk_digest_of(files: Seq<HashedFileView>, path: Seq<u8>) -> Option<Seq<u8>>
    decreases files.len(),
{
    if files.len() == 0 {
        None
    } else if files[0].path == path {
        Some(files[0].digest)
    } else {
        spec_disk_digest_of(files.drop_first(), path)
    }
}

/// A walked working tree lists every path at most once.
pub open spec fn distinct_paths(files: Seq<HashedFileView>) -> bool {
    forall|i: int, j: int| 0 <= i < j < files.len() ==> files[i].path != files[j].path
}

/// One of the first `n` files carries `path`.
pub open spec fn has_file_path_upto(files: Seq<HashedFileView>, n: int, path: Seq<u8>) -> bool {
    exists|k: int| 0 <= k < n && files[k].path == path
}

/// One of the first `n` index entries carries `path`.
pub open spec fn has_entry_path_upto(idx: Seq<EntryView>, n: int, path: Seq<u8>) -> bool {
    exists|k: int| 0 <= k < n && idx[k].path == path
}

proof fn lemma_file_path_step(files: Seq<HashedFileView>, n: int, path: Seq<u8>)
    requires
        0 <= n < files.len(),
    ensures
        has_file_path_upto(files, n + 1, path) <==> (has_file_path_upto(files, n, path)
            || files[n].path == path),
{
    if has_file_path_upto(files, n + 1, path) {
        let k = choose|k: int| 0 <= k < n + 1 && files[k].path == path;
        if k < n {
            assert(has_file_path_upto(files, n, path));
        }
    }
    if has_file_path_upto(files, n, path) {
        let k = choose|k: int| 0 <= k < n && files[k].path == path;
        assert(0 <= k < n + 1 && files[k].path == path);
    }
}

proof fn lemma_entry_path_step(idx: Seq<EntryView>, n: int, path: Seq<u8>)
    requires
        0 <= n < idx.len(),
    ensures
        has_entry_path_upto(idx, n + 1, path) <==> (has_entry_path_upto(idx, n, path)
            || idx[n].path == path),
{
    if has_entry_path_upto(idx, n + 1, path) {
        let k = choose|k: int| 0 <= k < n + 1 && idx[k].path == path;
        if k < n {
            assert(has_entry_path_upto(idx, n, path));
        }
    }
    if has_entry_path_upto(idx, n, path) {
        let k = choose|k: int| 0 <= k < n && idx[k].path == path;
        assert(0 <= k < n + 1 && idx[k].path == path);
    }
}

proof fn lemma_push_contains(s: Seq<Seq<u8>>, x: Seq<u8>, y: Seq<u8>)
    ensures
        s.push(x).contains(y) <==> (s.contains(y) || x == y),
{
    if s.push(x).contains(y) {
        let k = choose|k: int| 0 <= k < s.push(x).len() && s.push(x)[k] == y;
        if k < s.len() {
            assert(s[k] == y);
        }
    }
    if s.contains(y) {
        let k = choose|k: int| 0 <= k < s.len() && s[k] == y;
        assert(s.push(x)[k] == y);
    }
    if x == y {
        assert(s.push(x)[s.len() as int] == y);
    }
}

/// A path is on disk exactly when some working-tree file carries it.
pub proof fn lemma_disk_digest_exists(files: Seq<HashedFileView>, path: Seq<u8>)
    ensures
        (spec_disk_digest_of(files, path) is Some) <==> has_file_path_upto(
            files,
            files.len() as int,
            path,
        ),
    decreases files.len(),
{
    if files.len() > 0 {
        let rest = files.drop_first();
        lemma_disk_digest_exists(rest, path);
        if files[0].path == path {
            assert(has_file_path_upto(files, files.len() as int, path));
        } else {
            if has_file_path_upto(rest, rest.len() as int, path) {
                let k = choose|k: int| 0 <= k < rest.len() && rest[k].path == path;
                assert(files[k + 1].path == path);
                assert(has_file_path_upto(files, files.len() as int, path));
            }
            if has_file_path_upto(files, files.len() as int, path) {
                let k = choose|k: int| 0 <= k < files.len() && files[k].path == path;
                assert(k > 0);
                assert(rest[k - 1].path == path);
                assert(has_file_path_upto(rest, rest.len() as int, path));
            }
        }
    }
}

/// With distinct paths, the digest found for the `k`th file's path is that
/// file's own digest.
pub proof fn lemma_disk_digest_distinct(files: Seq<HashedFileView>, k: int)
    requires
        distinct_paths(files),
        0 <= k < files.len(),
    ensures
        spec_disk_digest_of(files, files[k].path) == Some(files[k].digest),
    decreases files.len(),
{
    if k > 0 {
        let rest = files.drop_first();
        assert(files[0].path != files[k].path);
        assert(forall|i: int| 0 <= i < rest.len() ==> rest[i] == files[i + 1]);
        lemma_disk_digest_distinct(rest, k - 1);
    }
}

/// `path` is recorded in the index, on disk, and its content has changed.
pub open spec fn spec_modified(
    idx: Seq<EntryView>,
    files: Seq<HashedFileView>,
    path: Seq<u8>,
) -> bool {
    match (spec_index_digest_of(idx, path), spec_disk_digest_of(files, path)) {
        (Some(recorded), Some(current)) => recorded != current,
        _ => false,
    }
}

/// `path` is on disk but not recorded in the index.
pub open spec fn spec_untracked(
    idx: Seq<EntryView>,
    files: Seq<HashedFileView>,
    path: Seq<u8>,
) -> bool {
    spec_index_digest_of(idx, path) is None && spec_disk_digest_of(files, path) is Some
}

/// `path` is recorded in the index but no longer on disk.
pub open spec fn spec_deleted(
    idx: Seq<EntryView>,
    files: Seq<HashedFileView>,
    path: Seq<u8>,
) -> bool {
    spec_index_digest_of(idx, path) is Some && spec_disk_digest_of(files, path) is None
}

/// `path` is recorded, on disk, and unchanged: it belongs in no bucket.
pub open spec fn spec_unchanged(
    idx: Seq<EntryView>,
    files: Seq<HashedFileView>,
    path: Seq<u8>,
) -> bool {
    match (spec_index_digest_of(idx, path), spec_disk_digest_of(files, path)) {
        (Some(recorded), Some(current)) => recorded == current,
        _ => false,
    }
}

/// Status classification totality: every on-disk path falls in exactly one
/// of modified, untracked, unchanged, and is never deleted; every indexed
/// path missing from disk is deleted; a path neither on disk nor indexed is
/// nothing at all.
pub proof fn lemma_status_totality(idx: Seq<EntryView>, files: Seq<HashedFileView>, path: Seq<u8>)
    ensures
        spec_disk_digest_of(files, path) is Some ==> (spec_modified(idx, files, path)
            || spec_untracked(idx, files, path) || spec_unchanged(idx, files, path)),
        !(spec_modified(idx, files, path) && spec_untracked(idx, files, path)),
        !(spec_modified(idx, files, path) && spec_unchanged(idx, files, path)),
        !(spec_untracked(idx, files, path) && spec_unchanged(idx, files, path)),
        spec_disk_digest_of(files, path) is Some ==> !spec_deleted(idx, files, path),
        spec_disk_digest_of(files, path) is None ==> !spec_modified(idx, files, path)
            && !spec_untracked(idx, files, path) && !spec_unchanged(idx, files, path),
        spec_deleted(idx, files, path) <==> (spec_index_digest_of(idx, path) is Some
            && spec_disk_digest_of(files, path) is None),
{
}

/// A list of paths with no repetition.
pub open spec fn distinct_path_list(v: Seq<Seq<u8>>) -> bool {
    forall|a: int, b: int| 0 <= a < b < v.len() ==> v[a] != v[b]
}

/// The three report buckets, each a list of repository-relative paths.
pub struct StatusReport {
    pub modified: Vec<Vec<u8>>,
    pub deleted: Vec<Vec<u8>>,
    pub untracked: Vec<Vec<u8>>,
}

impl StatusReport {
    /// Every bucket lists a path at most once.
    pub open spec fn wf(&self) -> bool {
        distinct_path_list(path_views(self.modified@)) && distinct_path_list(
            path_views(self.deleted@),
        ) && distinct_path_list(path_views(self.untracked@))
    }
}

proof fn lemma_distinct_push(s: Seq<Seq<u8>>, x: Seq<u8>)
    requires
        distinct_path_list(s),
        !s.contains(x),
    ensures
        distinct_path_list(s.push(x)),
{
    assert forall|a: int, b: int| 0 <= a < b < s.push(x).len() implies s.push(x)[a] != s.push(
        x,
    )[b] by {
        if b == s.len() {
            if s[a] == x {
                assert(s.contains(x));
            }
        }
    }
}

/// Classifies every working-tree file and every indexed path. Each bucket
/// lists a path exactly when the matching predicate holds of it, and lists
/// it once.
pub fn classify_status(idx: &Vec<IndexEntry>, files: &Vec<HashedFile>) -> (r: StatusReport)
    requires
        distinct_paths(file_views(files@)),
    ensures
        r.wf(),
        forall|p: Seq<u8>| path_views(r.modified@).contains(p) <==> spec_modified(
            entry_views(idx@),
            file_views(files@),
            p,
        ),
        forall|p: Seq<u8>| path_views(r.untracked@).contains(p) <==> spec_untracked(
            entry_views(idx@),
            file_views(files@),
            p,
        ),
        forall|p: Seq<u8>| path_views(r.deleted@).contains(p) <==> spec_deleted(
            entry_views(idx@),
            file_views(files@),
            p,
        ),
{
    let ghost idxv = entry_views(idx@);
    let ghost filesv = file_views(files@);
    let mut modified: Vec<Vec<u8>> = Vec::new();
    let mut untracked: Vec<Vec<u8>> = Vec::new();
    let mut fi: usize = 0;
    while fi < files.len()
        invariant
            idxv == entry_views(idx@),
            filesv == file_views(files@),
            distinct_paths(filesv),
            fi <= files@.len(),
            forall|p: Seq<u8>| path_views(modified@).contains(p) <==> (spec_modified(
                idxv,
                filesv,
                p,
            ) && has_file_path_upto(filesv, fi as int, p)),
            distinct_path_list(path_views(modified@)),
            distinct_path_list(path_views(untracked@)),
            forall|p: Seq<u8>| path_views(untracked@).contains(p) <==> (spec_untracked(
                idxv,
                filesv,
                p,
            ) && has_file_path_upto(filesv, fi as int, p)),
        decreases files@.len() - fi,
    {
        let ghost p0 = filesv[fi as int].path;
        proof {
            lemma_disk_digest_distinct(filesv, fi as int);
            assert(files@[fi as int]@ == filesv[fi as int]);
            assert forall|p: Seq<u8>| #![trigger has_file_path_upto(filesv, fi + 1, p)]
                has_file_path_upto(filesv, fi + 1, p) <==> (has_file_path_upto(
                filesv,
                fi as int,
                p,
            ) || p == p0) by {
                lemma_file_path_step(filesv, fi as int, p);
            }
        }
        let recorded = index_digest_of(idx, &files[fi].path);
        match recorded {
            Some(d) => {
                if !bytes_eq(&d, &files[fi].digest) {
                    let ghost before = path_views(modified@);
                    proof {
                        assert(!before.contains(p0)) by {
                            if before.contains(p0) {
                                assert(path_views(modified@).contains(p0));
                                assert(has_file_path_upto(filesv, fi as int, p0));
                                let k = choose|k: int|
                                    0 <= k < fi && filesv[k].path == p0;
                                assert(filesv[k].path == filesv[fi as int].path);
                            }
                        }
                        lemma_distinct_push(before, p0);
                    }
                    modified.push(copy_bytes(&files[fi].path));
                    proof {
                        assert(path_views(modified@) =~= before.push(p0));
                        assert(spec_modified(idxv, filesv, p0));
                        assert forall|p: Seq<u8>| #![trigger path_views(modified@).contains(p)]
                            path_views(modified@).contains(p) <==> (before.contains(p) || p
                            == p0) by {
                            lemma_push_contains(before, p0, p);
                        }
                    }
                } else {
                    proof {
                        assert(!spec_modified(idxv, filesv, p0));
                        assert(!spec_untracked(idxv, filesv, p0));
                    }
                }
            },
            None => {
                let ghost before = path_views(untracked@);
                proof {
                    assert(!before.contains(p0)) by {
                        if before.contains(p0) {
                            assert(path_views(untracked@).contains(p0));
                            assert(has_file_path_upto(filesv, fi as int, p0));
                            let k = choose|k: int| 0 <= k < fi && filesv[k].path == p0;
                            assert(filesv[k].path == filesv[fi as int].path);
                        }
                    }
                    lemma_distinct_push(before, p0);
                }
                untracked.push(copy_bytes(&files[fi].path));
                proof {
                    assert(path_views(untracked@) =~= before.push(p0));
                    assert(spec_untracked(idxv, filesv, p0));
                    assert forall|p: Seq<u8>| #![trigger path_views(untracked@).contains(p)]
                        path_views(untracked@).contains(p) <==> (before.contains(p) || p == p0) by {
                        lemma_push_contains(before, p0, p);
                    }
                }
            },
        }
        fi = fi + 1;
    }
    proof {
        assert forall|p: Seq<u8>| #![trigger spec_modified(idxv, filesv, p)]
            spec_modified(idxv, filesv, p) implies has_file_path_upto(
            filesv,
            filesv.len() as int,
            p,
        ) by {
            lemma_disk_digest_exists(filesv, p);
        }
        assert forall|p: Seq<u8>| #![trigger spec_untracked(idxv, filesv, p)]
            spec_untracked(idxv, filesv, p) implies has_file_path_upto(
            filesv,
            filesv.len() as int,
            p,
        ) by {
            lemma_disk_digest_exists(filesv, p);
        }
    }
    let mut deleted: Vec<Vec<u8>> = Vec::new();
    let mut ii: usize = 0;
    while ii < idx.len()
        invariant
            idxv == entry_views(idx@),
            filesv == file_views(files@),
            ii <= idx@.len(),
            distinct_path_list(path_views(deleted@)),
            forall|p: Seq<u8>| path_views(deleted@).contains(p) <==> (spec_deleted(
                idxv,
                filesv,
                p,
            ) && has_entry_path_upto(idxv, ii as int, p)),
        decreases idx@.len() - ii,
    {
        let ghost p0 = idxv[ii as int].path;
        proof {
            assert(idx@[ii as int]@ == idxv[ii as int]);
            assert forall|p: Seq<u8>| #![trigger has_entry_path_upto(idxv, ii + 1, p)]
                has_entry_path_upto(idxv, ii + 1, p) <==> (has_entry_path_upto(idxv, ii as int, p)
                || p == p0) by {
                lemma_entry_path_step(idxv, ii as int, p);
            }
        }
        let on_disk = disk_has_path(files, &idx[ii].path);
        let listed = contains_path(&deleted, &idx[ii].path);
        if !on_disk && !listed {
            let ghost before = path_views(deleted@);
            proof {
                lemma_distinct_push(before, p0);
            }
            deleted.push(copy_bytes(&idx[ii].path));
            proof {
                assert(path_views(deleted@) =~= before.push(p0));
                lemma_index_digest_exists(idxv, p0);
                assert(idxv[ii as int].path == p0);
                assert(spec_deleted(idxv, filesv, p0));
                assert forall|p: Seq<u8>| #![trigger path_views(deleted@).contains(p)]
                    path_views(deleted@).contains(p) <==> (before.contains(p) || p == p0) by {
                    lemma_push_contains(before, p0, p);
                }
            }
        } else {
            proof {
                if !on_disk {
                    lemma_index_digest_exists(idxv, p0);
                    assert(spec_deleted(idxv, filesv, p0));
                } else {
                    assert(!spec_deleted(idxv, filesv, p0));
                }
            }
        }
        ii = ii + 1;
    }
    proof {
        assert forall|p: Seq<u8>| #![trigger spec_deleted(idxv, filesv, p)]
            spec_deleted(idxv, filesv, p) implies has_entry_path_upto(
            idxv,
            idxv.len() as int,
            p,
        ) by {
            lemma_index_digest_exists(idxv, p);
            if spec_index_digest_of(idxv, p) is Some {
                let k = choose|k: int| 0 <= k < idxv.len() && idxv[k].path == p;
                assert(has_entry_path_upto(idxv, idxv.len() as int, p));
            }
        }
    }
    StatusReport { modified, deleted, untracked }
}

/// Tests whether a working-tree file with the given path exists.
fn disk_has_path(files: &Vec<HashedFile>, path: &Vec<u8>) -> (r: bool)
    ensures
        r == (spec_disk_digest_of(file_views(files@), path@) is Some),
{
    let ghost filesv = file_views(files@);
    let mut i: usize = 0;
    while i < files.len()
        invariant
            filesv == file_views(files@),
            i <= files@.len(),
            forall|k: int| 0 <= k < i ==> filesv[k].path != path@,
        decreases files@.len() - i,
    {
        if bytes_eq(&files[i].path, path) {
            proof {
                assert(filesv[i as int].path == path@);
                assert(has_file_path_upto(filesv, filesv.len() as int, path@));
                lemma_disk_digest_exists(filesv, path@);
            }
            return true;
        }
        i = i + 1;
    }
    proof {
        lemma_disk_digest_exists(filesv, path@);
        if spec_disk_digest_of(filesv, path@) is Some {
            let k = choose|k: int| 0 <= k < filesv.len() && filesv[k].path == path@;
            assert(filesv[k].path != path@);
        }
    }
    false
}

/// Tests whether a bucket already lists the given path.
fn contains_path(paths: &Vec<Vec<u8>>, path: &Vec<u8>) -> (r: bool)
    ensures
        r == path_views(paths@).contains(path@),
{
    let mut i: usize = 0;
    while i < paths.len()
        invariant
            i <= paths@.len(),
            forall|k: int| 0 <= k < i ==> path_views(paths@)[k] != path@,
        decreases paths@.len() - i,
    {
        if bytes_eq(&paths[i], path) {
            proof {
                assert(path_views(paths@)[i as int] == path@);
            }
            return true;
        }
        i = i + 1;
    }
    proof {
        if path_views(paths@).contains(path@) {
            let k = choose|k: int|
                0 <= k < path_views(paths@).len() && path_views(paths@)[k] == path@;
            assert(path_views(paths@)[k] != path@);
        }
    }
    false
}

} // verus!
