use minigit::object::{Blob, Object};
use minigit::pathmap::PathMap;
use minigit::repo::{Effect, RepoError, Repository};

const NOW: u64 = 1_700_000_000;

fn new_repo() -> Repository {
    let mut repo = Repository::init("/work", false, PathMap::new(), Vec::new()).unwrap();
    repo.take_effects();
    repo
}

fn describe(effects: &[Effect]) -> Vec<String> {
    effects
        .iter()
        .map(|e| match e {
            Effect::CreateDir(p) => format!("mkdir {p}"),
            Effect::WriteMeta(p, _) => format!("meta {p}"),
            Effect::RemoveMeta(p) => format!("rm-meta {p}"),
            Effect::WriteFile(p, _) => format!("write {p}"),
            Effect::RemoveFile(p) => format!("rm {p}"),
        })
        .collect()
}

fn names(v: &[&str]) -> Vec<String> {
    v.iter().map(|s| s.to_string()).collect()
}

#[test]
fn add_records_blob_then_index() {
    let mut repo = new_repo();
    repo.store.files.insert("hello.txt".to_string(), b"hello\n".to_vec());
    let hash = repo.add("hello.txt").unwrap();
    let effects = repo.take_effects();
    assert_eq!(describe(&effects), vec![format!("meta objects/{hash}"), "meta index.json".to_string()]);
    match &effects[0] {
        Effect::WriteMeta(_, bytes) => {
            assert_eq!(bytes, &Object::Blob(Blob { bytes: b"hello\n".to_vec() }).to_bytes())
        }
        _ => panic!("expected an object write"),
    }
    match &effects[1] {
        Effect::WriteMeta(_, bytes) => {
            let text = String::from_utf8(bytes.clone()).unwrap();
            assert_eq!(text, format!("{{\n  \"entries\": {{\n    \"hello.txt\": \"{hash}\"\n  }}\n}}"));
        }
        _ => panic!("expected the index write"),
    }
}

#[test]
fn refused_commands_record_nothing() {
    let mut repo = new_repo();
    assert!(matches!(repo.create_branch("../feature"), Err(RepoError::InvalidBranchName(_))));
    assert!(matches!(repo.create_branch("feature"), Err(RepoError::NoCommitsYet)));
    assert!(matches!(repo.add("../secret.txt"), Err(RepoError::UnsafePath(_))));
    assert!(matches!(repo.switch_branch("missing"), Err(RepoError::BranchNotFound(_))));
    assert!(repo.take_effects().is_empty());
}

#[test]
fn commit_records_tree_commit_and_ref() {
    let mut repo = new_repo();
    repo.store.files.insert("a.txt".to_string(), b"a".to_vec());
    repo.add("a.txt").unwrap();
    repo.take_effects();
    let hash = repo.commit("one".to_string(), NOW).unwrap();
    let effects = repo.take_effects();
    let described = describe(&effects);
    assert_eq!(described.len(), 3);
    assert!(described[0].starts_with("meta objects/"));
    assert_eq!(described[1], format!("meta objects/{hash}"));
    assert_eq!(described[2], "meta refs/heads/main");
    match &effects[2] {
        Effect::WriteMeta(_, bytes) => assert_eq!(bytes, &format!("{hash}\n").into_bytes()),
        _ => panic!("expected the ref write"),
    }
}

#[test]
fn create_branch_records_only_its_ref() {
    let mut repo = new_repo();
    repo.store.files.insert("a.txt".to_string(), b"a".to_vec());
    repo.add("a.txt").unwrap();
    let hash = repo.commit("one".to_string(), NOW).unwrap();
    repo.take_effects();
    repo.create_branch("feature").unwrap();
    let effects = repo.take_effects();
    assert_eq!(describe(&effects), names(&["meta refs/heads/feature"]));
    match &effects[0] {
        Effect::WriteMeta(_, bytes) => assert_eq!(bytes, &format!("{hash}\n").into_bytes()),
        _ => panic!("expected the ref write"),
    }
}

#[test]
fn checkout_records_files_index_and_head() {
    let mut repo = new_repo();
    repo.store.files.insert("a.txt".to_string(), b"a".to_vec());
    repo.add("a.txt").unwrap();
    let first = repo.commit("one".to_string(), NOW).unwrap();
    repo.store.files.insert("b.txt".to_string(), b"b".to_vec());
    repo.add("b.txt").unwrap();
    repo.commit("two".to_string(), NOW).unwrap();
    repo.take_effects();
    repo.checkout(&first).unwrap();
    let effects = repo.take_effects();
    assert_eq!(describe(&effects), names(&["write a.txt", "rm b.txt", "meta index.json", "meta HEAD"]));
}

#[test]
fn conflicted_merge_records_markers_and_merge_state() {
    let mut repo = new_repo();
    repo.store.files.insert("n.txt".to_string(), b"base".to_vec());
    repo.add("n.txt").unwrap();
    repo.commit("base".to_string(), NOW).unwrap();
    repo.create_branch("side").unwrap();
    repo.store.files.insert("n.txt".to_string(), b"main".to_vec());
    repo.add("n.txt").unwrap();
    repo.commit("main".to_string(), NOW).unwrap();
    repo.switch_branch("side").unwrap();
    repo.store.files.insert("n.txt".to_string(), b"side".to_vec());
    repo.add("n.txt").unwrap();
    repo.commit("side".to_string(), NOW).unwrap();
    repo.switch_branch("main").unwrap();
    repo.take_effects();
    repo.merge("side", NOW).unwrap();
    let effects = repo.take_effects();
    assert_eq!(
        describe(&effects),
        names(&["rm n.txt", "meta index.json", "write n.txt", "meta MERGE_HEAD", "meta MERGE_CONFLICTS"])
    );
    match &effects[4] {
        Effect::WriteMeta(_, bytes) => assert_eq!(bytes, &b"[\n  \"n.txt\"\n]".to_vec()),
        _ => panic!("expected the conflict list"),
    }
    repo.add("n.txt").unwrap();
    repo.take_effects();
    repo.commit("resolved".to_string(), NOW).unwrap();
    let described = describe(&repo.take_effects());
    assert_eq!(described[3..].to_vec(), names(&["rm-meta MERGE_HEAD", "rm-meta MERGE_CONFLICTS"]));
}
