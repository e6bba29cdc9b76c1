use minigit::merge::EntryMerge;
use minigit::mergeop::MergeOutcome;
use minigit::object::{Blob, Object};
use minigit::pathmap::PathMap;
use minigit::repo::{Effect, RepoError, Repository, StoredObject};

const WORKTREE: &str = "/work";
const NOW: u64 = 1_700_000_000;

fn new_repo() -> Repository {
    Repository::init(WORKTREE, false, PathMap::new(), Vec::new()).unwrap()
}

fn write(repo: &mut Repository, path: &str, text: &str) {
    repo.store.files.insert(path.to_string(), text.as_bytes().to_vec());
}

fn read(repo: &Repository, path: &str) -> String {
    String::from_utf8(repo.store.files.get(path).unwrap().clone()).unwrap()
}

fn commit(repo: &mut Repository, message: &str) -> String {
    repo.commit(message.to_string(), NOW).unwrap()
}

fn branch_file(repo: &Repository, name: &str) -> String {
    repo.store.refs.get(&format!("refs/heads/{name}")).unwrap().clone()
}

fn snapshot(pairs: &[(&str, &str)]) -> PathMap<String> {
    let mut m = PathMap::new();
    for (k, v) in pairs {
        m.insert(k.to_string(), v.to_string());
    }
    m
}

#[test]
fn merge_entry_follows_three_way_rules() {
    let ancestor = "ancestor".to_string();
    let current = "current".to_string();
    let target = "target".to_string();

    assert_eq!(
        Repository::merge_entry(Some(&ancestor), Some(&current), Some(&current)),
        EntryMerge::Resolved(Some(current.clone()))
    );

    assert_eq!(
        Repository::merge_entry(Some(&ancestor), Some(&ancestor), Some(&target)),
        EntryMerge::Resolved(Some(target.clone()))
    );

    assert_eq!(
        Repository::merge_entry(Some(&ancestor), Some(&current), Some(&ancestor)),
        EntryMerge::Resolved(Some(current.clone()))
    );

    assert_eq!(
        Repository::merge_entry(Some(&ancestor), Some(&current), Some(&target)),
        EntryMerge::Conflict
    );
}

#[test]
fn merge_entries_combines_independent_changes() {
    let ancestor = snapshot(&[("a.txt", "a-old"), ("b.txt", "b-old")]);
    let current = snapshot(&[("a.txt", "a-new"), ("b.txt", "b-old")]);
    let target = snapshot(&[("a.txt", "a-old"), ("b.txt", "b-new")]);

    let (merged, conflicts) = Repository::merge_entries(&ancestor, &current, &target);

    assert_eq!(merged.get("a.txt"), Some(&"a-new".to_string()));
    assert_eq!(merged.get("b.txt"), Some(&"b-new".to_string()));
    assert!(conflicts.is_empty());
}

#[test]
fn init_creates_minigit_directory_layout() {
    let repo = new_repo();

    assert_eq!(repo.git_dir, "/work/.minigit");
    let effects = &repo.store.effects;
    assert!(matches!(&effects[0], Effect::CreateDir(p) if p.is_empty()));
    assert!(matches!(&effects[1], Effect::CreateDir(p) if p == "objects"));
    assert!(matches!(&effects[2], Effect::CreateDir(p) if p == "refs/heads"));
    assert!(matches!(&effects[3], Effect::WriteMeta(p, b) if p == "HEAD" && b == b"ref: refs/heads/main\n"));
    assert!(matches!(&effects[5], Effect::WriteMeta(p, b) if p == "index.json" && b == b"{\n  \"entries\": {}\n}"));
}

#[test]
fn init_fails_when_repository_already_exists() {
    let result = Repository::init(WORKTREE, true, PathMap::new(), Vec::new());

    assert!(matches!(result, Err(RepoError::AlreadyExists)));
}

#[test]
fn discover_finds_repository_from_nested_directory() {
    let nested = "/tmp/project/src/nested";
    let dirs = minigit::setup::ancestors(nested);
    let probes: Vec<bool> = dirs.iter().map(|d| d == "/tmp/project").collect();

    let (worktree, git_dir) = Repository::discover(nested, &probes).unwrap();

    assert_eq!(worktree, "/tmp/project");
    assert_eq!(git_dir, "/tmp/project/.minigit");
}

#[test]
fn write_object_stores_object_by_hash() {
    let mut repo = new_repo();

    let object = Object::Blob(Blob {
        bytes: b"hello\n".to_vec(),
    });

    let hash = repo.write_object(&object);

    assert!(repo.store.objects.contains_key(&hash));
    assert!(matches!(repo.store.effects.last(), Some(Effect::WriteMeta(p, _)) if *p == format!("objects/{hash}")));
}

#[test]
fn read_object_restores_written_object() {
    let mut repo = new_repo();

    let object = Object::Blob(Blob {
        bytes: b"hello\n".to_vec(),
    });

    let hash = repo.write_object(&object);
    let restored = repo.read_object(&hash).unwrap();

    assert_eq!(restored, object);
}

#[test]
fn add_stores_blob_and_updates_index() {
    let mut repo = new_repo();

    write(&mut repo, "hello.txt", "hello\n");

    let hash = repo.add("hello.txt").unwrap();

    assert!(repo.store.objects.contains_key(&hash));

    let index = repo.read_index().unwrap();
    assert_eq!(index.get("hello.txt"), Some(&hash));
}

#[test]
fn status_lists_staged_files() {
    let mut repo = new_repo();

    write(&mut repo, "hello.txt", "hello\n");
    repo.add("hello.txt").unwrap();

    let status = repo.status().unwrap();

    assert_eq!(status.staged, vec!["hello.txt".to_string()]);
    assert!(status.modified.is_empty());
    assert!(status.untracked.is_empty());
}

#[test]
fn current_branch_ref_reads_head_pointer() {
    let repo = new_repo();

    assert_eq!(repo.current_branch_ref().unwrap(), "refs/heads/main");
}

#[test]
fn head_commit_is_none_before_first_commit() {
    let repo = new_repo();

    assert_eq!(repo.head_commit().unwrap(), None);
}

#[test]
fn update_current_branch_changes_head_commit() {
    let mut repo = new_repo();

    repo.update_current_branch("abc123").unwrap();
    assert_eq!(repo.head_commit().unwrap(), Some("abc123".to_string()));
}

#[test]
fn create_branch_points_to_current_commit() {
    let mut repo = new_repo();

    write(&mut repo, "hello.txt", "hello");
    repo.add("hello.txt").unwrap();
    let commit_hash = commit(&mut repo, "first");

    repo.create_branch("feature").unwrap();

    let branch_contents = branch_file(&repo, "feature");

    assert_eq!(branch_contents.trim(), commit_hash);
}

#[test]
fn create_branch_requires_a_commit() {
    let mut repo = new_repo();

    let result = repo.create_branch("feature");

    assert!(matches!(result, Err(RepoError::NoCommitsYet)));
}

#[test]
fn create_branch_rejects_duplicate_name() {
    let mut repo = new_repo();

    write(&mut repo, "hello.txt", "hello");
    repo.add("hello.txt").unwrap();
    commit(&mut repo, "first");

    repo.create_branch("feature").unwrap();
    let result = repo.create_branch("feature");

    assert!(matches!(result, Err(RepoError::BranchAlreadyExists(_))));
}

#[test]
fn create_branch_rejects_invalid_name() {
    let mut repo = new_repo();

    let result = repo.create_branch("../feature");

    assert!(matches!(result, Err(RepoError::InvalidBranchName(_))));
}

#[test]
fn switch_branch_restores_files_and_updates_head() {
    let mut repo = new_repo();

    write(&mut repo, "hello.txt", "version one");
    repo.add("hello.txt").unwrap();
    let first = commit(&mut repo, "first commit");

    repo.create_branch("feature").unwrap();

    write(&mut repo, "hello.txt", "version two");
    repo.add("hello.txt").unwrap();
    let second = commit(&mut repo, "second commit");

    repo.switch_branch("feature").unwrap();

    assert_eq!(read(&repo, "hello.txt"), "version one");
    assert_eq!(repo.current_branch_ref().unwrap(), "refs/heads/feature");
    assert_eq!(repo.head_commit().unwrap(), Some(first));

    let main = branch_file(&repo, "main");

    assert_eq!(main.trim(), second);
}

#[test]
fn switch_branch_rejects_missing_branch() {
    let mut repo = new_repo();

    let result = repo.switch_branch("missing");

    assert!(matches!(result, Err(RepoError::BranchNotFound(_))));
}

#[test]
fn find_common_ancestor_finds_branch_point() {
    let mut repo = new_repo();

    write(&mut repo, "hello.txt", "base");
    repo.add("hello.txt").unwrap();
    let base = commit(&mut repo, "base commit");

    repo.create_branch("feature").unwrap();

    write(&mut repo, "hello.txt", "main version");
    repo.add("hello.txt").unwrap();
    let main_tip = commit(&mut repo, "main commit");

    repo.switch_branch("feature").unwrap();

    write(&mut repo, "hello.txt", "feature version");
    repo.add("hello.txt").unwrap();
    let feature_tip = commit(&mut repo, "feature commit");

    let ancestor = repo.find_common_ancestor(&main_tip, &feature_tip).unwrap();

    assert_eq!(ancestor, Some(base));
}

#[test]
fn merge_fast_forwards_current_branch() {
    let mut repo = new_repo();

    write(&mut repo, "hello.txt", "base");
    repo.add("hello.txt").unwrap();
    commit(&mut repo, "base commit");

    repo.create_branch("feature").unwrap();
    repo.switch_branch("feature").unwrap();

    write(&mut repo, "hello.txt", "feature version");
    repo.add("hello.txt").unwrap();
    let feature_tip = commit(&mut repo, "feature commit");

    repo.switch_branch("main").unwrap();
    let outcome = repo.merge("feature", NOW).unwrap();

    assert_eq!(outcome, MergeOutcome::FastForward(feature_tip.clone()));
    assert_eq!(repo.head_commit().unwrap(), Some(feature_tip));
    assert_eq!(read(&repo, "hello.txt"), "feature version");
}

#[test]
fn merge_combines_independent_branch_changes() {
    let mut repo = new_repo();

    write(&mut repo, "a.txt", "a-old");
    write(&mut repo, "b.txt", "b-old");
    repo.add("a.txt").unwrap();
    repo.add("b.txt").unwrap();
    commit(&mut repo, "base");

    repo.create_branch("feature").unwrap();

    write(&mut repo, "a.txt", "a-main");
    repo.add("a.txt").unwrap();
    let main_tip = commit(&mut repo, "main change");

    repo.switch_branch("feature").unwrap();
    write(&mut repo, "b.txt", "b-feature");
    repo.add("b.txt").unwrap();
    let feature_tip = commit(&mut repo, "feature change");

    repo.switch_branch("main").unwrap();
    let outcome = repo.merge("feature", NOW).unwrap();

    let merge_hash = match outcome {
        MergeOutcome::Merged(hash) => hash,
        _ => panic!("expected a three-way merge"),
    };

    assert_eq!(read(&repo, "a.txt"), "a-main");
    assert_eq!(read(&repo, "b.txt"), "b-feature");
    assert_eq!(repo.head_commit().unwrap(), Some(merge_hash.clone()));

    match repo.read_object(&merge_hash).unwrap() {
        Object::Commit(commit) => {
            assert_eq!(commit.parents, vec![main_tip, feature_tip]);
        }
        _ => panic!("expected commit object"),
    }
}

#[test]
fn merge_conflict_can_be_resolved_and_committed() {
    let mut repo = new_repo();

    write(&mut repo, "notes.txt", "base");
    repo.add("notes.txt").unwrap();
    commit(&mut repo, "base");

    repo.create_branch("feature").unwrap();

    write(&mut repo, "notes.txt", "main version");
    repo.add("notes.txt").unwrap();
    let main_tip = commit(&mut repo, "main change");

    repo.switch_branch("feature").unwrap();
    write(&mut repo, "notes.txt", "feature version");
    repo.add("notes.txt").unwrap();
    let feature_tip = commit(&mut repo, "feature change");

    repo.switch_branch("main").unwrap();
    let outcome = repo.merge("feature", NOW).unwrap();

    assert_eq!(
        outcome,
        MergeOutcome::Conflicts(vec!["notes.txt".to_string()])
    );
    assert_eq!(
        read(&repo, "notes.txt"),
        "<<<<<<< HEAD\nmain version\n=======\nfeature version\n>>>>>>> feature\n"
    );
    assert!(matches!(
        repo.commit("too early".to_string(), NOW),
        Err(RepoError::UnresolvedConflicts)
    ));
    assert!(matches!(
        repo.switch_branch("feature"),
        Err(RepoError::MergeInProgress)
    ));

    write(&mut repo, "notes.txt", "resolved version");
    repo.add("notes.txt").unwrap();
    let merge_hash = commit(&mut repo, "resolve merge");

    match repo.read_object(&merge_hash).unwrap() {
        Object::Commit(commit) => {
            assert_eq!(commit.parents, vec![main_tip, feature_tip]);
        }
        _ => panic!("expected commit object"),
    }

    assert_eq!(repo.head_commit().unwrap(), Some(merge_hash));
    assert!(matches!(repo.store.merge_head, Ok(None)));
    assert!(matches!(repo.store.merge_conflicts, Ok(None)));
}

#[test]
fn merge_reports_already_up_to_date() {
    let mut repo = new_repo();

    write(&mut repo, "hello.txt", "base");
    repo.add("hello.txt").unwrap();
    commit(&mut repo, "base commit");

    repo.create_branch("feature").unwrap();

    write(&mut repo, "hello.txt", "main is newer");
    repo.add("hello.txt").unwrap();
    let main_tip = commit(&mut repo, "main commit");

    let outcome = repo.merge("feature", NOW).unwrap();

    assert_eq!(outcome, MergeOutcome::AlreadyUpToDate);
    assert_eq!(repo.head_commit().unwrap(), Some(main_tip));
}

#[test]
fn commit_creates_commit_and_updates_branch() {
    let mut repo = new_repo();

    write(&mut repo, "hello.txt", "hello\n");
    repo.add("hello.txt").unwrap();

    let commit_hash = commit(&mut repo, "first commit");

    assert_eq!(repo.head_commit().unwrap(), Some(commit_hash.clone()));

    let object = repo.read_object(&commit_hash).unwrap();

    match object {
        Object::Commit(commit) => {
            assert_eq!(commit.message, "first commit");
            assert!(commit.parents.is_empty());
        }

        _ => panic!("expected commit object"),
    }
}

#[test]
fn commit_rejects_detached_head() {
    let mut repo = new_repo();

    write(&mut repo, "hello.txt", "hello");
    repo.add("hello.txt").unwrap();
    let commit_hash = commit(&mut repo, "first");

    repo.checkout(&commit_hash).unwrap();

    let result = repo.commit("detached commit".to_string(), NOW);

    assert!(matches!(result, Err(RepoError::DetachedHead)));
}

#[test]
fn commit_rejects_when_nothing_changed() {
    let mut repo = new_repo();

    write(&mut repo, "hello.txt", "hello");
    repo.add("hello.txt").unwrap();
    commit(&mut repo, "first commit");

    let result = repo.commit("duplicate commit".to_string(), NOW);

    assert!(matches!(result, Err(RepoError::NothingToCommit)));
}

#[test]
fn log_returns_commits_newest_first() {
    let mut repo = new_repo();

    write(&mut repo, "hello.txt", "one\n");
    repo.add("hello.txt").unwrap();
    let first = commit(&mut repo, "first");

    write(&mut repo, "hello.txt", "two\n");
    repo.add("hello.txt").unwrap();

    let second = commit(&mut repo, "second");
    let log = repo.log().unwrap();

    assert_eq!(log.len(), 2);
    assert_eq!(log[0].0, second);
    assert_eq!(log[0].1.message, "second");
    assert_eq!(log[1].0, first);
    assert_eq!(log[1].1.message, "first");
}

#[test]
fn status_detects_modified_file() {
    let mut repo = new_repo();

    write(&mut repo, "hello.txt", "original");
    repo.add("hello.txt").unwrap();

    write(&mut repo, "hello.txt", "changed");

    let status = repo.status().unwrap();

    assert_eq!(status.modified, vec!["hello.txt".to_string()]);
}

#[test]
fn status_detectd_untracked_file() {
    let mut repo = new_repo();

    write(&mut repo, "notes.txt", "not added");

    let status = repo.status().unwrap();

    assert_eq!(status.untracked, vec!["notes.txt".to_string()]);
}

#[test]
fn status_detects_deleted_file() {
    let mut repo = new_repo();

    write(&mut repo, "hello.txt", "hello");
    repo.add("hello.txt").unwrap();
    repo.store.files.remove("hello.txt");

    let status = repo.status().unwrap();

    assert_eq!(status.modified, vec!["hello.txt".to_string()]);
}

#[test]
fn status_has_no_staged_files_after_commit() {
    let mut repo = new_repo();

    write(&mut repo, "hello.txt", "hello");
    repo.add("hello.txt").unwrap();
    commit(&mut repo, "first commit");

    let status = repo.status().unwrap();

    assert!(status.staged.is_empty());
}

#[test]
fn checkout_restores_file_contents() {
    let mut repo = new_repo();

    write(&mut repo, "hello.txt", "original");
    repo.add("hello.txt").unwrap();
    let commit_hash = commit(&mut repo, "first commit");

    write(&mut repo, "hello.txt", "changed");

    repo.checkout(&commit_hash).unwrap();

    assert_eq!(read(&repo, "hello.txt"), "original");
}

#[test]
fn checkout_detaches_head_without_moving_main() {
    let mut repo = new_repo();

    write(&mut repo, "hello.txt", "first");
    repo.add("hello.txt").unwrap();
    let first = commit(&mut repo, "first");

    write(&mut repo, "hello.txt", "second");
    repo.add("hello.txt").unwrap();
    let second = commit(&mut repo, "second");

    repo.checkout(&first).unwrap();

    let head = repo.store.head.as_ref().unwrap().clone();
    let main = branch_file(&repo, "main");

    assert_eq!(head.trim(), first);
    assert_eq!(main.trim(), second);
    assert!(matches!(
        repo.current_branch_ref(),
        Err(RepoError::DetachedHead)
    ));
}

#[test]
fn checkout_removes_tracked_files_missing_from_target() {
    let mut repo = new_repo();

    write(&mut repo, "hello.txt", "hello");
    repo.add("hello.txt").unwrap();
    let first_commit = commit(&mut repo, "first");

    write(&mut repo, "extra.txt", "extra");
    repo.add("extra.txt").unwrap();
    commit(&mut repo, "second");

    repo.checkout(&first_commit).unwrap();

    assert!(!repo.store.files.contains_key("extra.txt"));
    assert!(matches!(repo.store.effects.iter().rev().find(|e| matches!(e, Effect::RemoveFile(_))),
        Some(Effect::RemoveFile(p)) if p == "extra.txt"));
}

#[test]
fn add_rejects_parent_directory_path() {
    let mut repo = new_repo();

    let result = repo.add("../secret.txt");

    assert!(matches!(result, Err(RepoError::UnsafePath(_))));
}

#[test]
fn read_object_rejects_invalid_hash() {
    let repo = new_repo();

    let result = repo.read_object("../../secret");
    assert!(matches!(result, Err(RepoError::InvalidObjectHash(_))));
}

#[test]
fn read_object_rejects_corrupted_contents() {
    let mut repo = new_repo();

    let original = Object::Blob(Blob {
        bytes: b"hello".to_vec(),
    });

    let hash = repo.write_object(&original);
    let changed = Object::Blob(Blob {
        bytes: b"goodbye".to_vec(),
    });

    repo.store.objects.insert(
        hash.clone(),
        StoredObject { bytes: changed.to_bytes(), parsed: Ok(changed.clone()) },
    );

    let result = repo.read_object(&hash);

    assert!(matches!(result, Err(RepoError::CorruptedObject(_))));
}

#[test]
fn checkout_rejects_symlink_path() {
    let mut repo = new_repo();

    write(&mut repo, "folder/hello.txt", "hello");

    repo.add("folder/hello.txt").unwrap();
    let commit_hash = commit(&mut repo, "first");

    repo.store.files.remove("folder/hello.txt");
    repo.store.symlinks.push("folder".to_string());
    repo.take_effects();

    let result = repo.checkout(&commit_hash);

    assert!(matches!(result, Err(RepoError::UnsafePath(_))));
    assert!(!repo.store.effects.iter().any(|e| matches!(e, Effect::WriteFile(p, _) if p == "folder/hello.txt")));
}
