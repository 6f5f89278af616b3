//! End-to-end scenarios over the repository state: staging, the object
//! store, and working-tree status.

use minigit::digest::object_digest;
use minigit::index::index_line;
use minigit::object::decode_object;
use minigit::repo::{Repository, StageError, StageInput, StatusError, WorkFile};

fn fresh_repo() -> Repository {
    let mut repo = Repository::new();
    repo.init();
    repo
}

fn input(path: &[u8], content: &[u8]) -> StageInput {
    StageInput { path: path.to_vec(), content: Some(content.to_vec()) }
}

fn work(path: &[u8], content: &[u8]) -> WorkFile {
    WorkFile { path: path.to_vec(), content: content.to_vec() }
}

fn has_object(repo: &Repository, digest: &[u8]) -> bool {
    repo.objects.iter().any(|o| o.dir == digest[0..2].to_vec() && o.name == digest[2..].to_vec())
}

#[test]
fn stage_records_index_line_and_object() {
    let mut repo = fresh_repo();
    let result = repo.stage(&vec![input(b"hello.txt", b"Hello, Git!\n")]);
    assert!(result.is_ok());
    let digest = object_digest(&b"Hello, Git!\n".to_vec());
    assert_eq!(repo.index, index_line(&digest, &b"hello.txt".to_vec()));
    assert!(has_object(&repo, &digest));
}

#[test]
fn test_add_file_to_index() {
    let mut repo = fresh_repo();
    let result = repo.stage(&vec![input(b"test_file.txt", b"Hello, Git!")]);
    assert!(result.is_ok(), "Failed to add file to index");
    let digest = object_digest(&b"Hello, Git!".to_vec());
    assert!(has_object(&repo, &digest), "Object file was not created");
    let expected_entry = index_line(&digest, &b"test_file.txt".to_vec());
    assert_eq!(repo.index, expected_entry, "Index file doesn't contain correct entry");
}

#[test]
fn test_add_with_no_git_directory() {
    let mut repo = Repository::new();
    let result = repo.stage(&vec![input(b"test_file.txt", b"Hello, Git!")]);
    assert_eq!(result, Err(StageError::RepositoryNotFound), "Expected error but got success");
}

#[test]
fn test_add_multiple_files() {
    let mut repo = fresh_repo();
    let result = repo.stage(&vec![
        input(b"test_file1.txt", b"Content 1"),
        input(b"test_file2.txt", b"Content 2"),
    ]);
    assert!(result.is_ok(), "Failed to add multiple files");
    let line1 = index_line(&object_digest(&b"Content 1".to_vec()), &b"test_file1.txt".to_vec());
    let line2 = index_line(&object_digest(&b"Content 2".to_vec()), &b"test_file2.txt".to_vec());
    let index_text = String::from_utf8(repo.index.clone()).unwrap();
    assert!(
        index_text.contains(&String::from_utf8(line1).unwrap()),
        "First file not found in index"
    );
    assert!(
        index_text.contains(&String::from_utf8(line2).unwrap()),
        "Second file not found in index"
    );
}

#[test]
fn test_add_empty_file() {
    let mut repo = fresh_repo();
    let result = repo.stage(&vec![input(b"empty_file.txt", b"")]);
    assert!(result.is_ok(), "Failed to add empty file");
    let line = index_line(&object_digest(&b"".to_vec()), &b"empty_file.txt".to_vec());
    let index_text = String::from_utf8(repo.index.clone()).unwrap();
    assert!(
        index_text.contains(&String::from_utf8(line).unwrap()),
        "Empty file not found in index"
    );
}

#[test]
fn test_add_nonexistent_file() {
    let mut repo = fresh_repo();
    let result = repo.stage(&vec![StageInput { path: b"nonexistent.txt".to_vec(), content: None }]);
    assert_eq!(result, Err(StageError::FileReadError), "Expected error for nonexistent file");
}

#[test]
fn stage_aborts_batch_but_keeps_partial_progress() {
    let mut repo = fresh_repo();
    let result = repo.stage(&vec![
        input(b"a.txt", b"A"),
        StageInput { path: b"b.txt".to_vec(), content: None },
        input(b"c.txt", b"C"),
    ]);
    assert_eq!(result, Err(StageError::FileReadError));
    let line_a = index_line(&object_digest(&b"A".to_vec()), &b"a.txt".to_vec());
    assert_eq!(repo.index, line_a);
    assert!(has_object(&repo, &object_digest(&b"A".to_vec())));
    assert!(!has_object(&repo, &object_digest(&b"C".to_vec())));
}

#[test]
fn storage_is_idempotent() {
    let mut repo = fresh_repo();
    let result = repo.stage(&vec![
        input(b"one.txt", b"same bytes"),
        input(b"two.txt", b"same bytes"),
    ]);
    assert!(result.is_ok());
    assert_eq!(repo.objects.len(), 1);
    assert_eq!(decode_object(&repo.objects[0].data), Some(b"same bytes".to_vec()));
    let again = repo.stage(&vec![input(b"one.txt", b"same bytes")]);
    assert!(again.is_ok());
    assert_eq!(repo.objects.len(), 1);
}

#[test]
fn status_reports_modified_file() {
    let mut repo = fresh_repo();
    repo.stage(&vec![input(b"a.txt", b"X")]).unwrap();
    let outcome = repo.work_status(&vec![work(b"a.txt", b"Y")]).unwrap();
    assert_eq!(outcome.branch, b"master".to_vec());
    assert_eq!(outcome.report.modified, vec![b"a.txt".to_vec()]);
    assert!(outcome.report.deleted.is_empty());
    assert!(outcome.report.untracked.is_empty());
}

#[test]
fn status_reports_deleted_file() {
    let mut repo = fresh_repo();
    repo.stage(&vec![input(b"b.txt", b"gone soon")]).unwrap();
    let outcome = repo.work_status(&Vec::new()).unwrap();
    assert_eq!(outcome.report.deleted, vec![b"b.txt".to_vec()]);
    assert!(outcome.report.modified.is_empty());
    assert!(outcome.report.untracked.is_empty());
}

#[test]
fn status_reports_untracked_file() {
    let repo = fresh_repo();
    let outcome = repo.work_status(&vec![work(b"c.txt", b"new")]).unwrap();
    assert_eq!(outcome.report.untracked, vec![b"c.txt".to_vec()]);
    assert!(outcome.report.modified.is_empty());
    assert!(outcome.report.deleted.is_empty());
}

#[test]
fn status_unchanged_file_is_in_no_bucket() {
    let mut repo = fresh_repo();
    repo.stage(&vec![input(b"same.txt", b"stable")]).unwrap();
    let outcome = repo.work_status(&vec![work(b"same.txt", b"stable")]).unwrap();
    assert!(outcome.report.modified.is_empty());
    assert!(outcome.report.deleted.is_empty());
    assert!(outcome.report.untracked.is_empty());
}

#[test]
fn status_buckets_are_disjoint() {
    let mut repo = fresh_repo();
    repo.stage(&vec![
        input(b"kept.txt", b"kept"),
        input(b"edited.txt", b"before"),
        input(b"removed.txt", b"removed"),
    ]).unwrap();
    let outcome = repo
        .work_status(&vec![
            work(b"kept.txt", b"kept"),
            work(b"edited.txt", b"after"),
            work(b"fresh.txt", b"fresh"),
        ])
        .unwrap();
    assert_eq!(outcome.report.modified, vec![b"edited.txt".to_vec()]);
    assert_eq!(outcome.report.deleted, vec![b"removed.txt".to_vec()]);
    assert_eq!(outcome.report.untracked, vec![b"fresh.txt".to_vec()]);
    for p in &outcome.report.modified {
        assert!(!outcome.report.deleted.contains(p));
        assert!(!outcome.report.untracked.contains(p));
    }
    for p in &outcome.report.deleted {
        assert!(!outcome.report.untracked.contains(p));
    }
}

#[test]
fn status_restaged_path_uses_last_entry() {
    let mut repo = fresh_repo();
    repo.stage(&vec![input(b"a.txt", b"v1")]).unwrap();
    repo.stage(&vec![input(b"a.txt", b"v2")]).unwrap();
    let outcome = repo.work_status(&vec![work(b"a.txt", b"v2")]).unwrap();
    assert!(outcome.report.modified.is_empty());
    let outcome_old = repo.work_status(&vec![work(b"a.txt", b"v1")]).unwrap();
    assert_eq!(outcome_old.report.modified, vec![b"a.txt".to_vec()]);
}

#[test]
fn status_fails_on_corrupt_head() {
    let repo = Repository {
        initialized: true,
        head: b"a94a8fe5ccb19ba61c4c0873d391e987982fbbd3\n".to_vec(),
        index: Vec::new(),
        objects: Vec::new(),
    };
    let result = repo.work_status(&Vec::new());
    assert_eq!(result.err(), Some(StatusError::HeadCorrupt));
}

#[test]
fn status_fails_without_repository() {
    let repo = Repository::new();
    let result = repo.work_status(&Vec::new());
    assert_eq!(result.err(), Some(StatusError::HeadCorrupt));
}

#[test]
fn deleted_path_listed_once_despite_duplicate_entries() {
    let mut repo = fresh_repo();
    repo.stage(&vec![input(b"dup.txt", b"v1")]).unwrap();
    repo.stage(&vec![input(b"dup.txt", b"v2")]).unwrap();
    let outcome = repo.work_status(&Vec::new()).unwrap();
    assert_eq!(outcome.report.deleted, vec![b"dup.txt".to_vec()]);
}
