use minigit::object::{Blob, Object};
use minigit::path::{is_safe_path, leads_through_symlink};
use minigit::pathmap::PathMap;
use minigit::repo::{Effect, FileRead, RepoError, Repository, StoredObject};
use minigit::setup::{ancestors, join_path};
use minigit::text::{is_valid_branch_name, is_valid_object_hash, strip_prefix_str, trim_str};

const NOW: u64 = 1_700_000_000;

fn new_repo() -> Repository {
    Repository::init("/work", false, PathMap::new(), Vec::new()).unwrap()
}

fn committed_repo() -> (Repository, String) {
    let mut repo = new_repo();
    repo.store.files.insert("f.txt".to_string(), b"one".to_vec());
    repo.add("f.txt").unwrap();
    let hash = repo.commit("one".to_string(), NOW).unwrap();
    (repo, hash)
}

#[test]
fn discover_without_repository_fails() {
    let probes = vec![false; 4];
    assert!(matches!(Repository::discover("/a/b/c", &probes), Err(RepoError::NotRepository)));
}

#[test]
fn discover_prefers_nearest_repository() {
    let dirs = ancestors("/a/b/c");
    assert_eq!(dirs, vec!["/a/b/c", "/a/b", "/a", "/"]);
    let probes = vec![false, true, true, false];
    let (worktree, git_dir) = Repository::discover("/a/b/c", &probes).unwrap();
    assert_eq!(worktree, "/a/b");
    assert_eq!(git_dir, "/a/b/.minigit");
}

#[test]
fn join_path_inserts_one_separator() {
    assert_eq!(join_path("/", ".minigit"), "/.minigit");
    assert_eq!(join_path("/a", ".minigit"), "/a/.minigit");
    assert_eq!(join_path("", "x"), "x");
}

#[test]
fn relative_start_walks_up_to_empty_parent() {
    assert_eq!(ancestors("a/b"), vec!["a/b", "a", ""]);
}

#[test]
fn trim_removes_unicode_whitespace() {
    assert_eq!(trim_str("\t hello \n"), "hello");
    assert_eq!(trim_str("\u{3000}x y\u{a0}"), "x y");
    assert_eq!(trim_str(" \n "), "");
    assert_eq!(trim_str("abc"), "abc");
}

#[test]
fn strip_prefix_only_at_start() {
    assert_eq!(strip_prefix_str("ref: refs/heads/main", "ref: "), Some("refs/heads/main".to_string()));
    assert_eq!(strip_prefix_str("abc", "ref: "), None);
}

#[test]
fn object_and_branch_names_are_checked() {
    assert!(is_valid_object_hash(&"a".repeat(64)));
    assert!(is_valid_object_hash(&"F".repeat(64)));
    assert!(!is_valid_object_hash(&"g".repeat(64)));
    assert!(!is_valid_object_hash(&"a".repeat(63)));
    assert!(is_valid_branch_name("feature_1-x"));
    assert!(!is_valid_branch_name(""));
    assert!(!is_valid_branch_name("a/b"));
    assert!(!is_valid_branch_name("é"));
}

#[test]
fn unsafe_paths_are_rejected() {
    assert!(is_safe_path("a/b.txt"));
    assert!(!is_safe_path(""));
    assert!(!is_safe_path("/etc/passwd"));
    assert!(!is_safe_path("a/../b"));
    assert!(!is_safe_path(".minigit/HEAD"));
    assert!(!is_safe_path(".minigit"));
    let mut repo = new_repo();
    assert!(matches!(repo.add(".minigit/HEAD"), Err(RepoError::UnsafePath(_))));
    assert!(matches!(repo.add("/abs"), Err(RepoError::UnsafePath(_))));
}

#[test]
fn symlinked_directories_are_detected() {
    let links = vec!["folder".to_string()];
    assert!(leads_through_symlink("folder/x.txt", &links));
    assert!(leads_through_symlink("folder", &links));
    assert!(!leads_through_symlink("folder2/x.txt", &links));
    let mut repo = new_repo();
    repo.store.symlinks.push("link".to_string());
    repo.store.files.insert("link/a.txt".to_string(), b"a".to_vec());
    assert!(matches!(repo.add("link/a.txt"), Err(RepoError::UnsafePath(_))));
}

#[test]
fn add_of_missing_file_fails() {
    let mut repo = new_repo();
    assert!(matches!(repo.add("missing.txt"), Err(RepoError::Io(p)) if p == "missing.txt"));
}

#[test]
fn read_object_of_missing_object_fails() {
    let repo = new_repo();
    let hash = "0".repeat(64);
    assert!(matches!(repo.read_object(&hash), Err(RepoError::Io(p)) if p == format!("objects/{hash}")));
}

#[test]
fn read_object_reports_parse_error() {
    let mut repo = new_repo();
    let bytes = b"not json".to_vec();
    let hash = minigit::hash_bytes(&bytes);
    repo.store.objects.insert(hash.clone(), StoredObject { bytes, parsed: Err(RepoError::Serde("bad".to_string())) });
    assert!(matches!(repo.read_object(&hash), Err(RepoError::Serde(_))));
}

#[test]
fn checkout_of_non_commit_fails() {
    let mut repo = new_repo();
    let blob = repo.write_object(&Object::Blob(Blob { bytes: b"x".to_vec() }));
    assert!(matches!(repo.checkout(&blob), Err(RepoError::ExpectedCommit)));
}

#[test]
fn tree_of_commit_must_be_a_tree() {
    let (mut repo, hash) = committed_repo();
    let commit = match repo.read_object(&hash).unwrap() {
        Object::Commit(c) => c,
        _ => panic!("expected commit object"),
    };
    let blob = repo.write_object(&Object::Blob(Blob { bytes: b"x".to_vec() }));
    let mut bad = commit.clone();
    bad.tree = blob.clone();
    let bad_hash = repo.write_object(&Object::Commit(bad));
    assert!(matches!(repo.entries_for_commit(&bad_hash), Err(RepoError::ExpectedTree)));
    assert!(matches!(repo.blob_bytes_for_merge(Some(&hash)), Err(RepoError::ExpectedBlob)));
}

#[test]
fn empty_head_is_invalid() {
    let mut repo = new_repo();
    repo.store.head = Ok("  \n".to_string());
    assert!(matches!(repo.head_commit(), Err(RepoError::InvalidHead)));
}

#[test]
fn branch_without_commit_cannot_be_switched_to() {
    let mut repo = new_repo();
    assert!(matches!(repo.switch_branch("main"), Err(RepoError::NoCommitsYet)));
    assert!(matches!(repo.merge("main", NOW), Err(RepoError::NoCommitsYet)));
}

#[test]
fn branch_pointing_at_bad_name_is_rejected() {
    let (mut repo, _) = committed_repo();
    repo.store.refs.insert("refs/heads/bad".to_string(), "../x\n".to_string());
    assert!(matches!(repo.switch_branch("bad"), Err(RepoError::InvalidObjectHash(_))));
}

#[test]
fn detached_head_cannot_merge_or_branch_head_ref() {
    let (mut repo, hash) = committed_repo();
    repo.checkout(&hash).unwrap();
    assert!(matches!(repo.merge("main", NOW), Err(RepoError::DetachedHead)));
    assert!(matches!(repo.update_current_branch(&hash), Err(RepoError::DetachedHead)));
    repo.create_branch("from_detached").unwrap();
    assert_eq!(repo.branch_commit("from_detached").unwrap(), hash);
}

#[test]
fn merge_of_missing_branch_fails() {
    let (mut repo, _) = committed_repo();
    assert!(matches!(repo.merge("nope", NOW), Err(RepoError::BranchNotFound(_))));
    assert!(matches!(repo.merge("../x", NOW), Err(RepoError::InvalidBranchName(_))));
}

#[test]
fn failed_commands_record_no_effects() {
    let (mut repo, _) = committed_repo();
    let before = repo.store.effects.len();
    assert!(repo.commit("again".to_string(), NOW).is_err());
    assert!(repo.switch_branch("nope").is_err());
    assert!(repo.create_branch("main").is_err());
    assert_eq!(repo.store.effects.len(), before);
}

#[test]
fn write_object_records_the_encoding() {
    let mut repo = new_repo();
    repo.take_effects();
    let object = Object::Blob(Blob { bytes: vec![7] });
    let hash = repo.write_object(&object);
    let effects = repo.take_effects();
    assert_eq!(effects.len(), 1);
    match &effects[0] {
        Effect::WriteMeta(path, bytes) => {
            assert_eq!(path, &format!("objects/{hash}"));
            assert_eq!(bytes, &object.to_bytes());
        }
        other => panic!("unexpected effect {other:?}"),
    }
    assert!(repo.take_effects().is_empty());
}

#[test]
fn index_file_lists_entries_in_path_order() {
    let mut index = PathMap::new();
    index.insert("b.txt".to_string(), "2".to_string());
    index.insert("a.txt".to_string(), "1".to_string());
    let text = String::from_utf8(minigit::repo::index_bytes(&index)).unwrap();
    assert_eq!(text, "{\n  \"entries\": {\n    \"a.txt\": \"1\",\n    \"b.txt\": \"2\"\n  }\n}");
}

#[test]
fn status_lists_untracked_in_path_order() {
    let mut repo = new_repo();
    repo.store.files.insert("z.txt".to_string(), b"z".to_vec());
    repo.store.files.insert("a/b.txt".to_string(), b"b".to_vec());
    let status = repo.status().unwrap();
    assert_eq!(status.untracked, vec!["a/b.txt".to_string(), "z.txt".to_string()]);
    assert!(status.staged.is_empty());
    assert!(status.modified.is_empty());
}

#[test]
fn add_reads_file_named_with_redundant_separators() {
    let mut repo = new_repo();
    repo.store.files.insert("a/b.txt".to_string(), b"bee".to_vec());
    let blob = Object::Blob(Blob { bytes: b"bee".to_vec() }).hash();
    assert_eq!(repo.add("a/./b.txt").unwrap(), blob);
    assert_eq!(repo.add("a//b.txt").unwrap(), blob);
    let index = repo.read_index().unwrap();
    assert_eq!(index.get("a/./b.txt"), Some(&blob));
    assert_eq!(index.get("a//b.txt"), Some(&blob));
    assert!(matches!(repo.add("a/b.txt/"), Err(RepoError::Io(p)) if p == "a/b.txt/"));
}

#[test]
fn status_fails_where_a_staged_path_cannot_be_read() {
    let (mut repo, _) = committed_repo();
    repo.store.files.remove("f.txt");
    repo.store.probed.insert("f.txt".to_string(), FileRead { read: Err(RepoError::Io("is a directory".to_string())) });
    assert!(matches!(repo.status(), Err(RepoError::Io(m)) if m == "is a directory"));
}

#[test]
fn status_reads_staged_path_through_a_link() {
    let (mut repo, _) = committed_repo();
    repo.store.files.remove("f.txt");
    repo.store.probed.insert("f.txt".to_string(), FileRead { read: Ok(b"one".to_vec()) });
    let status = repo.status().unwrap();
    assert!(status.modified.is_empty());
    repo.store.probed.insert("f.txt".to_string(), FileRead { read: Ok(b"two".to_vec()) });
    assert_eq!(repo.status().unwrap().modified, vec!["f.txt".to_string()]);
}

#[test]
fn create_branch_refuses_an_occupied_ref_path() {
    let (mut repo, _) = committed_repo();
    repo.store.other_refs.push("refs/heads/topic".to_string());
    assert!(matches!(repo.create_branch("topic"), Err(RepoError::BranchAlreadyExists(n)) if n == "topic"));
    repo.store.unreadable_refs.push("refs/heads/locked".to_string());
    assert!(matches!(repo.create_branch("locked"), Err(RepoError::BranchAlreadyExists(n)) if n == "locked"));
    assert!(repo.create_branch("other").is_ok());
}

#[test]
fn unreadable_branch_ref_is_an_io_error() {
    let (mut repo, _) = committed_repo();
    repo.store.unreadable_refs.push("refs/heads/locked".to_string());
    assert!(matches!(repo.branch_commit("locked"), Err(RepoError::Io(p)) if p == "refs/heads/locked"));
    repo.store.other_refs.push("refs/heads/dir".to_string());
    assert!(matches!(repo.branch_commit("dir"), Err(RepoError::BranchNotFound(n)) if n == "dir"));
}

#[test]
fn trim_agrees_with_std_whitespace() {
    for code in 0u32..=0x10FFFF {
        if let Some(c) = char::from_u32(code) {
            let text = c.to_string();
            assert_eq!(trim_str(&text).is_empty(), c.is_whitespace(), "U+{code:04X}");
        }
    }
}
