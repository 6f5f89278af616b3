//! The repository state and its two core operations: staging files into the
//! object store and the index, and reporting working-tree status. The state
//! holds what the repository marker directory holds on disk — HEAD, the
//! index file, and the object files — as plain bytes; the surrounding
//! program mirrors it to the filesystem.

use vstd::prelude::*;

use crate::bytes::{append_bytes, bytes_eq, copy_bytes};
use crate::digest::{object_digest, spec_object_digest, sha1_of, lemma_hex_shape};
use crate::head::{head_ref_prefix, parse_head, spec_parse_head};
use crate::index::{parse_index, index_line, spec_index_line, spec_index_entries,
    spec_index_digest_of, lemma_index_append};
use crate::object::{encode_object, spec_encode_object, spec_frame, shard_dir, shard_file,
    spec_shard_dir, spec_shard_file};
use crate::status::{HashedFile, HashedFileView, StatusReport, classify_status, file_views,
    path_views, spec_modified, spec_untracked, spec_deleted};

verus! {

/// Why staging failed: no repository marker, or an unreadable input file.
#[derive(Clone, Copy, PartialEq, Eq, Structural, Debug)]
pub enum StageError {
    RepositoryNotFound,
    FileReadError,
}

/// Why status failed: HEAD is missing, detached, or corrupt.
#[derive(Clone, Copy, PartialEq, Eq, Structural, Debug)]
pub enum StatusError {
    HeadCorrupt,
}

/// One object file: its shard directory name, its file name, and the
/// compressed bytes it holds.
pub struct StoredObject {
    pub dir: Vec<u8>,
    pub name: Vec<u8>,
    pub data: Vec<u8>,
}

/// The mathematical content of a `StoredObject`.
#[verifier::ext_equal]
pub ghost struct StoredObjectView {
    pub dir: Seq<u8>,
    pub name: Seq<u8>,
    pub data: Seq<u8>,
}

impl View for StoredObject {
    type V = StoredObjectView;

    open spec fn view(&self) -> StoredObjectView {
        StoredObjectView { dir: self.dir@, name: self.name@, data: self.data@ }
    }
}

/// The views of a sequence of stored objects.
pub open spec fn object_views(v: Seq<StoredObject>) -> Seq<StoredObjectView> {
    v.map_values(|o: StoredObject| o@)
}

/// One input to staging: a path and the file content read for it, or `None`
/// when the file could not be read.
pub struct StageInput {
    pub path: Vec<u8>,
    pub content: Option<Vec<u8>>,
}

/// The mathematical content of a `StageInput`.
#[verifier::ext_equal]
pub ghost struct StageInputView {
    pub path: Seq<u8>,
    pub content: Option<Seq<u8>>,
}

impl View for StageInput {
    type V = StageInputView;

    open spec fn view(&self) -> StageInputView {
        StageInputView {
            path: self.path@,
            content: match self.content {
                Some(c) => Some(c@),
                None => None,
            },
        }
    }
}

/// The views of a sequence of staging inputs.
pub open spec fn input_views(v: Seq<StageInput>) -> Seq<StageInputView> {
    v.map_values(|f: StageInput| f@)
}

/// A working-tree file as the tree walk hands it over: path and raw content.
pub struct WorkFile {
    pub path: Vec<u8>,
    pub content: Vec<u8>,
}

/// The mathematical content of a `WorkFile`.
#[verifier::ext_equal]
pub ghost struct WorkFileView {
    pub path: Seq<u8>,
    pub content: Seq<u8>,
}

impl View for WorkFile {
    type V = WorkFileView;

    open spec fn view(&self) -> WorkFileView {
        WorkFileView { path: self.path@, content: self.content@ }
    }
}

/// The views of a sequence of working-tree files.
pub open spec fn work_views(v: Seq<WorkFile>) -> Seq<WorkFileView> {
    v.map_values(|w: WorkFile| w@)
}

/// A walked working tree lists every path at most once.
pub open spec fn work_distinct(ws: Seq<WorkFileView>) -> bool {
    forall|i: int, j: int| 0 <= i < j < ws.len() ==> ws[i].path != ws[j].path
}

/// Each working-tree file reduced to its path and current object digest.
pub open spec fn spec_digest_files(ws: Seq<WorkFileView>) -> Seq<HashedFileView> {
    ws.map_values(|w: WorkFileView| HashedFileView { path: w.path, digest: spec_object_digest(w.content) })
}

/// The repository state: whether the marker exists, HEAD's content, the raw
/// index file, and the stored object files.
pub struct Repository {
    pub initialized: bool,
    pub head: Vec<u8>,
    pub index: Vec<u8>,
    pub objects: Vec<StoredObject>,
}

/// The mathematical content of a `Repository`.
#[verifier::ext_equal]
pub ghost struct RepoView {
    pub initialized: bool,
    pub head: Seq<u8>,
    pub index: Seq<u8>,
    pub objects: Seq<StoredObjectView>,
}

impl View for Repository {
    type V = RepoView;

    open spec fn view(&self) -> RepoView {
        RepoView {
            initialized: self.initialized,
            head: self.head@,
            index: self.index@,
            objects: object_views(self.objects@),
        }
    }
}

/// The store never holds two object files under the same sharded key.
pub open spec fn distinct_object_keys(objects: Seq<StoredObjectView>) -> bool {
    forall|i: int, j: int| 0 <= i < j < objects.len() ==> !(objects[i].dir == objects[j].dir
        && objects[i].name == objects[j].name)
}

/// An object file under the given sharded key is present.
pub open spec fn spec_has_object(objects: Seq<StoredObjectView>, dir: Seq<u8>, name: Seq<u8>) -> bool {
    exists|i: int| 0 <= i < objects.len() && objects[i].dir == dir && objects[i].name == name
}

/// The object file `put` creates for content `c`: the digest's sharded key,
/// holding the compressed framed bytes.
pub open spec fn spec_object_for(c: Seq<u8>) -> StoredObjectView {
    StoredObjectView {
        dir: spec_shard_dir(spec_object_digest(c)),
        name: spec_shard_file(spec_object_digest(c)),
        data: spec_encode_object(c),
    }
}

/// What `put` does to the repository: nothing when the object file already
/// exists, else one new object file. Content addressing makes this
/// idempotent: the key is a function of the content alone.
pub open spec fn spec_put(repo: RepoView, c: Seq<u8>) -> RepoView {
    if spec_has_object(repo.objects, spec_object_for(c).dir, spec_object_for(c).name) {
        repo
    } else {
        RepoView { objects: repo.objects.push(spec_object_for(c)), ..repo }
    }
}

/// What staging one readable file does: `put` its content, then append one
/// index line recording its digest for its path.
pub open spec fn spec_stage_one(repo: RepoView, path: Seq<u8>, c: Seq<u8>) -> RepoView {
    let stored = spec_put(repo, c);
    RepoView { index: stored.index + spec_index_line(spec_object_digest(c), path), ..stored }
}

/// What staging a batch does: files are staged in order until the first
/// unreadable one, which stops the batch and keeps the partial progress —
/// files staged before the failure stay staged.
pub open spec fn spec_stage_batch(repo: RepoView, files: Seq<StageInputView>) -> (RepoView, Option<
    StageError,
>)
    decreases files.len(),
{
    if files.len() == 0 {
        (repo, None)
    } else {
        match files[0].content {
            None => (repo, Some(StageError::FileReadError)),
            Some(c) => spec_stage_batch(spec_stage_one(repo, files[0].path, c), files.drop_first()),
        }
    }
}

/// Idempotent storage: once content has been put, putting it again leaves
/// the repository exactly as it is — the object file is written at most
/// once, under a key that is a function of the content alone.
pub proof fn lemma_put_idempotent(repo: RepoView, c: Seq<u8>)
    ensures
        spec_put(spec_put(repo, c), c) == spec_put(repo, c),
{
    let o = spec_object_for(c);
    if !spec_has_object(repo.objects, o.dir, o.name) {
        assert(spec_put(repo, c).objects[repo.objects.len() as int] == o);
        assert(spec_has_object(spec_put(repo, c).objects, o.dir, o.name));
    }
}

/// Staging one readable file records its digest for its path: parsing the
/// resulting index and looking the path up returns exactly the content's
/// object digest. Holds for any path without a newline and any
/// line-terminated index, however often the path was staged before.
pub proof fn lemma_stage_records_digest(repo: RepoView, path: Seq<u8>, c: Seq<u8>)
    requires
        repo.index.len() == 0 || repo.index.last() == 10,
        forall|i: int| 0 <= i < path.len() ==> path[i] != 10,
    ensures
        spec_index_digest_of(
            spec_index_entries(spec_stage_one(repo, path, c).index),
            path,
        ) == Some(spec_object_digest(c)),
{
    let dg = spec_object_digest(c);
    lemma_hex_shape(sha1_of(spec_frame(c)));
    assert(forall|i: int| 0 <= i < dg.len() ==> dg[i] != 32 && dg[i] != 10);
    lemma_index_append(repo.index, dg, path);
}

/// The content `init` writes into HEAD: `"ref: refs/heads/master\n"`.
pub open spec fn spec_head_master() -> Seq<u8> {
    head_ref_prefix() + seq![109u8, 97u8, 115u8, 116u8, 101u8, 114u8, 10u8]
}

/// Searches the store for an object file under the given sharded key.
fn find_object(objects: &Vec<StoredObject>, dir: &Vec<u8>, name: &Vec<u8>) -> (r: bool)
    ensures
        r == spec_has_object(object_views(objects@), dir@, name@),
{
    let ghost ov = object_views(objects@);
    let mut i: usize = 0;
    while i < objects.len()
        invariant
            ov == object_views(objects@),
            i <= objects@.len(),
            forall|k: int| 0 <= k < i ==> !(ov[k].dir == dir@ && ov[k].name == name@),
        decreases objects@.len() - i,
    {
        if bytes_eq(&objects[i].dir, dir) && bytes_eq(&objects[i].name, name) {
            proof {
                assert(ov[i as int].dir == dir@ && ov[i as int].name == name@);
            }
            return true;
        }
        i = i + 1;
    }
    proof {
        if spec_has_object(ov, dir@, name@) {
            let k = choose|k: int| 0 <= k < ov.len() && ov[k].dir == dir@ && ov[k].name == name@;
            assert(!(ov[k].dir == dir@ && ov[k].name == name@));
        }
    }
    false
}

impl Repository {
    /// The store holds at most one object file per key, and the index is a
    /// whole number of lines: empty, or ending with a newline.
    pub open spec fn wf(&self) -> bool {
        distinct_object_keys(self@.objects) && (self@.index.len() == 0 || self@.index.last() == 10)
    }

    /// A directory with no repository marker yet: nothing exists.
    pub fn new() -> (r: Repository)
        ensures
            !r@.initialized,
            r@.head == Seq::<u8>::empty(),
            r@.index == Seq::<u8>::empty(),
            r@.objects == Seq::<StoredObjectView>::empty(),
            r.wf(),
    {
        let r = Repository { initialized: false, head: Vec::new(), index: Vec::new(), objects: Vec::new() };
        proof {
            assert(r@.objects =~= Seq::<StoredObjectView>::empty());
        }
        r
    }

    /// Creates the repository marker scaffolding: HEAD points at `master`.
    /// Objects and index already present are kept.
    pub fn init(&mut self)
        ensures
            final(self)@.initialized,
            final(self)@.head == spec_head_master(),
            final(self)@.index == old(self)@.index,
            final(self)@.objects == old(self)@.objects,
            old(self).wf() ==> final(self).wf(),
    {
        self.initialized = true;
        let mut h: Vec<u8> = Vec::new();
        h.push(114);
        h.push(101);
        h.push(102);
        h.push(58);
        h.push(32);
        h.push(114);
        h.push(101);
        h.push(102);
        h.push(115);
        h.push(47);
        h.push(104);
        h.push(101);
        h.push(97);
        h.push(100);
        h.push(115);
        h.push(47);
        h.push(109);
        h.push(97);
        h.push(115);
        h.push(116);
        h.push(101);
        h.push(114);
        h.push(10);
        proof {
            assert(h@ =~= spec_head_master());
        }
        self.head = h;
    }

    /// Stores `content` in the object store and returns its digest. Storage
    /// is idempotent: when the object file for the digest already exists the
    /// repository is left exactly as it was, so the same content is never
    /// written twice; otherwise exactly one new object file appears, holding
    /// the compressed framed content.
    pub fn put_object(&mut self, content: &Vec<u8>) -> (digest: Vec<u8>)
        requires
            old(self).wf(),
        ensures
            final(self).wf(),
            digest@ == spec_object_digest(content@),
            final(self)@ == spec_put(old(self)@, content@),
            spec_has_object(
                final(self)@.objects,
                spec_object_for(content@).dir,
                spec_object_for(content@).name,
            ),
    {
        let digest = object_digest(content);
        let dir = shard_dir(&digest);
        let name = shard_file(&digest);
        let ghost before = self@;
        if find_object(&self.objects, &dir, &name) {
            proof {
                assert(self@ =~= spec_put(before, content@));
            }
            return digest;
        }
        let ghost ov = object_views(self.objects@);
        let data = encode_object(content);
        let obj = StoredObject { dir, name, data };
        proof {
            assert(obj@ =~= spec_object_for(content@));
        }
        self.objects.push(obj);
        proof {
            assert(object_views(self.objects@) =~= ov.push(spec_object_for(content@)));
            assert(self@ =~= spec_put(before, content@));
            assert(spec_has_object(
                self@.objects,
                spec_object_for(content@).dir,
                spec_object_for(content@).name,
            )) by {
                assert(self@.objects[ov.len() as int] == spec_object_for(content@));
            }
            assert forall|i: int, j: int| 0 <= i < j < self@.objects.len() implies !(
            self@.objects[i].dir == self@.objects[j].dir && self@.objects[i].name
                == self@.objects[j].name) by {
                if j == ov.len() as int {
                    assert(!(ov[i].dir == spec_object_for(content@).dir && ov[i].name
                        == spec_object_for(content@).name));
                }
            }
        }
        digest
    }

    /// Stages the given files, in order: reads each content, stores it, and
    /// appends its index record. Fails with `RepositoryNotFound` before any
    /// work when the repository marker is absent; stops at the first
    /// unreadable file with `FileReadError`, keeping the files already
    /// staged — the batch is not rolled back.
    pub fn stage(&mut self, files: &Vec<StageInput>) -> (r: Result<(), StageError>)
        requires
            old(self).wf(),
        ensures
            final(self).wf(),
            !old(self)@.initialized ==> r == Err::<(), StageError>(StageError::RepositoryNotFound)
                && final(self)@ == old(self)@,
            old(self)@.initialized ==> final(self)@ == spec_stage_batch(
                old(self)@,
                input_views(files@),
            ).0,
            old(self)@.initialized ==> r == (match spec_stage_batch(
                old(self)@,
                input_views(files@),
            ).1 {
                None => Ok::<(), StageError>(()),
                Some(e) => Err::<(), StageError>(e),
            }),
    {
        if !self.initialized {
            return Err(StageError::RepositoryNotFound);
        }
        let ghost iv = input_views(files@);
        proof {
            assert(iv.skip(0) =~= iv);
        }
        let mut k: usize = 0;
        while k < files.len()
            invariant
                self.wf(),
                old(self)@.initialized,
                iv == input_views(files@),
                k <= files@.len(),
                spec_stage_batch(old(self)@, iv) == spec_stage_batch(self@, iv.skip(k as int)),
            decreases files@.len() - k,
        {
            let ghost pre = self@;
            proof {
                assert(iv.skip(k as int)[0] == iv[k as int]);
                assert(iv[k as int] == files@[k as int]@);
                assert(iv.skip(k as int).drop_first() =~= iv.skip(k as int + 1));
            }
            match &files[k].content {
                None => {
                    return Err(StageError::FileReadError);
                },
                Some(c) => {
                    let digest = self.put_object(c);
                    let line = index_line(&digest, &files[k].path);
                    append_bytes(&mut self.index, &line);
                    proof {
                        assert(self@ =~= spec_stage_one(pre, files@[k as int]@.path, c@));
                    }
                },
            }
            k = k + 1;
        }
        proof {
            assert(iv.skip(files@.len() as int) =~= Seq::<StageInputView>::empty());
        }
        Ok(())
    }

    /// The status report and the current branch. Fails with `HeadCorrupt`
    /// exactly when HEAD does not point at a branch; otherwise classifies
    /// every working-tree file and every indexed path against the index.
    pub fn work_status(&self, files: &Vec<WorkFile>) -> (r: Result<StatusOutcome, StatusError>)
        requires
            work_distinct(work_views(files@)),
        ensures
            match r {
                Err(e) => e == StatusError::HeadCorrupt && spec_parse_head(self@.head) is None,
                Ok(out) => spec_parse_head(self@.head) == Some(out.branch@) && out.report.wf() && (
                forall|p: Seq<u8>|
                    path_views(out.report.modified@).contains(p) <==> spec_modified(
                        spec_index_entries(self@.index),
                        spec_digest_files(work_views(files@)),
                        p,
                    )) && (forall|p: Seq<u8>|
                    path_views(out.report.untracked@).contains(p) <==> spec_untracked(
                        spec_index_entries(self@.index),
                        spec_digest_files(work_views(files@)),
                        p,
                    )) && (forall|p: Seq<u8>|
                    path_views(out.report.deleted@).contains(p) <==> spec_deleted(
                        spec_index_entries(self@.index),
                        spec_digest_files(work_views(files@)),
                        p,
                    )),
            },
    {
        let branch = match parse_head(&self.head) {
            None => {
                return Err(StatusError::HeadCorrupt);
            },
            Some(b) => b,
        };
        let entries = parse_index(&self.index);
        let hashed = digest_files(files);
        proof {
            let hv = file_views(hashed@);
            let dv = spec_digest_files(work_views(files@));
            assert forall|i: int, j: int| 0 <= i < j < hv.len() implies hv[i].path != hv[j].path by {
                assert(hv[i].path == work_views(files@)[i].path);
                assert(hv[j].path == work_views(files@)[j].path);
            }
        }
        let report = classify_status(&entries, &hashed);
        Ok(StatusOutcome { branch, report })
    }
}

/// The branch HEAD points at, together with the classified report.
pub struct StatusOutcome {
    pub branch: Vec<u8>,
    pub report: StatusReport,
}

/// Reduces each working-tree file to its path and current object digest.
pub fn digest_files(files: &Vec<WorkFile>) -> (r: Vec<HashedFile>)
    ensures
        file_views(r@) == spec_digest_files(work_views(files@)),
{
    let ghost dv = spec_digest_files(work_views(files@));
    let mut r: Vec<HashedFile> = Vec::new();
    let mut i: usize = 0;
    proof {
        assert(file_views(r@) =~= dv.take(0));
    }
    while i < files.len()
        invariant
            dv == spec_digest_files(work_views(files@)),
            i <= files@.len(),
            file_views(r@) == dv.take(i as int),
        decreases files@.len() - i,
    {
        let ghost before = file_views(r@);
        let h = HashedFile {
            path: copy_bytes(&files[i].path),
            digest: object_digest(&files[i].content),
        };
        proof {
            assert(files@[i as int]@ == work_views(files@)[i as int]);
            assert(h@ =~= dv[i as int]);
        }
        r.push(h);
        proof {
            assert(file_views(r@) =~= before.push(h@));
            assert(file_views(r@) =~= dv.take(i as int + 1));
        }
        i = i + 1;
    }
    proof {
        assert(dv.take(files@.len() as int) =~= dv);
    }
    r
}

} // verus!
