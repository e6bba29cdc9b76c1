use minigit::merge::EntryMerge;
use minigit::mergeop::MergeOutcome;
use minigit::object::Object;
use minigit::pathmap::PathMap;
use minigit::repo::{RepoError, Repository};

const NOW: u64 = 1_700_000_000;

fn new_repo() -> Repository {
    Repository::init("/work", false, PathMap::new(), Vec::new()).unwrap()
}

fn write(repo: &mut Repository, path: &str, text: &str) {
    repo.store.files.insert(path.to_string(), text.as_bytes().to_vec());
}

fn stage_and_commit(repo: &mut Repository, path: &str, text: &str, message: &str) -> String {
    write(repo, path, text);
    repo.add(path).unwrap();
    repo.commit(message.to_string(), NOW).unwrap()
}

fn names(v: &[&str]) -> Vec<String> {
    v.iter().map(|s| s.to_string()).collect()
}

#[test]
fn commit_stores_index_as_tree_of_commit() {
    let mut repo = new_repo();
    write(&mut repo, "b.txt", "bee");
    write(&mut repo, "a.txt", "ay");
    repo.add("b.txt").unwrap();
    repo.add("a.txt").unwrap();
    let hash = repo.commit("two files".to_string(), NOW).unwrap();

    let commit = match repo.read_object(&hash).unwrap() {
        Object::Commit(c) => c,
        _ => panic!("expected commit object"),
    };
    assert_eq!(commit.timestamp_secs, NOW);
    let tree = match repo.read_object(&commit.tree).unwrap() {
        Object::Tree(t) => t,
        _ => panic!("expected tree object"),
    };
    let paths: Vec<String> = tree.entries.iter().map(|e| e.path.clone()).collect();
    assert_eq!(paths, names(&["a.txt", "b.txt"]));

    let index = repo.read_index().unwrap();
    let committed = repo.committed_entries().unwrap();
    assert!(index.same_entries(&committed));
    assert_eq!(repo.head_commit().unwrap(), Some(hash));
}

#[test]
fn second_commit_has_first_as_parent() {
    let mut repo = new_repo();
    let first = stage_and_commit(&mut repo, "f.txt", "1", "one");
    let second = stage_and_commit(&mut repo, "f.txt", "2", "two");
    assert_eq!(repo.parents_of_commit(&second).unwrap(), vec![first.clone()]);
    assert!(repo.parents_of_commit(&first).unwrap().is_empty());
}

#[test]
fn checkout_leaves_nothing_staged() {
    let mut repo = new_repo();
    let first = stage_and_commit(&mut repo, "f.txt", "1", "one");
    stage_and_commit(&mut repo, "g.txt", "2", "two");
    repo.checkout(&first).unwrap();

    let status = repo.status().unwrap();
    assert!(status.staged.is_empty());
    assert_eq!(repo.head_commit().unwrap(), Some(first));
    assert!(!repo.read_index().unwrap().contains_key("g.txt"));
}

#[test]
fn switch_points_head_at_branch_and_leaves_nothing_staged() {
    let mut repo = new_repo();
    let base = stage_and_commit(&mut repo, "f.txt", "1", "one");
    repo.create_branch("topic").unwrap();
    stage_and_commit(&mut repo, "f.txt", "2", "two");
    repo.switch_branch("topic").unwrap();

    assert_eq!(repo.current_branch_ref().unwrap(), "refs/heads/topic");
    assert_eq!(repo.head_commit().unwrap(), Some(base));
    assert!(repo.status().unwrap().staged.is_empty());
}

#[test]
fn common_ancestor_of_a_commit_with_itself_is_the_commit() {
    let mut repo = new_repo();
    let c = stage_and_commit(&mut repo, "f.txt", "1", "one");
    assert_eq!(repo.find_common_ancestor(&c, &c).unwrap(), Some(c));
}

#[test]
fn ancestor_is_found_first_on_linear_history() {
    let mut repo = new_repo();
    let first = stage_and_commit(&mut repo, "f.txt", "1", "one");
    stage_and_commit(&mut repo, "f.txt", "2", "two");
    let third = stage_and_commit(&mut repo, "f.txt", "3", "three");
    assert_eq!(repo.find_common_ancestor(&third, &first).unwrap(), Some(first.clone()));
    assert_eq!(repo.find_common_ancestor(&first, &third).unwrap(), Some(first));
}

#[test]
fn unrelated_roots_have_no_common_ancestor() {
    let mut repo = new_repo();
    let empty: PathMap<String> = PathMap::new();
    let left = repo.write_commit_object(&empty, Vec::new(), "left".to_string(), NOW);
    let right = repo.write_commit_object(&empty, Vec::new(), "right".to_string(), NOW);
    assert_eq!(repo.find_common_ancestor(&left, &right).unwrap(), None);
}

#[test]
fn merge_with_unrelated_branch_fails() {
    let mut repo = new_repo();
    stage_and_commit(&mut repo, "f.txt", "1", "one");
    let empty: PathMap<String> = PathMap::new();
    let orphan = repo.write_commit_object(&empty, Vec::new(), "orphan".to_string(), NOW);
    repo.store.refs.insert("refs/heads/orphan".to_string(), format!("{orphan}\n"));
    assert!(matches!(repo.merge("orphan", NOW), Err(RepoError::NoCommonAncestor)));
}

#[test]
fn merging_the_current_commit_is_up_to_date() {
    let mut repo = new_repo();
    stage_and_commit(&mut repo, "f.txt", "1", "one");
    repo.create_branch("same").unwrap();
    let before = repo.store.effects.len();
    assert_eq!(repo.merge("same", NOW).unwrap(), MergeOutcome::AlreadyUpToDate);
    assert_eq!(repo.store.effects.len(), before);
}

#[test]
fn merge_commit_message_names_branch() {
    let mut repo = new_repo();
    write(&mut repo, "a.txt", "a");
    write(&mut repo, "b.txt", "b");
    repo.add("a.txt").unwrap();
    repo.add("b.txt").unwrap();
    repo.commit("base".to_string(), NOW).unwrap();
    repo.create_branch("side").unwrap();
    stage_and_commit(&mut repo, "a.txt", "a2", "main change");
    repo.switch_branch("side").unwrap();
    stage_and_commit(&mut repo, "b.txt", "b2", "side change");
    repo.switch_branch("main").unwrap();
    let hash = match repo.merge("side", NOW).unwrap() {
        MergeOutcome::Merged(h) => h,
        other => panic!("unexpected outcome {other:?}"),
    };
    match repo.read_object(&hash).unwrap() {
        Object::Commit(c) => assert_eq!(c.message, "Merge branch 'side'"),
        _ => panic!("expected commit object"),
    }
    assert!(minigit::text::is_valid_object_hash(&hash));
    assert!(repo.status().unwrap().staged.is_empty());
}

#[test]
fn conflicts_are_listed_in_path_order_and_resolved_by_add() {
    let mut repo = new_repo();
    write(&mut repo, "z.txt", "z");
    write(&mut repo, "m.txt", "m");
    repo.add("z.txt").unwrap();
    repo.add("m.txt").unwrap();
    repo.commit("base".to_string(), NOW).unwrap();
    repo.create_branch("side").unwrap();
    write(&mut repo, "z.txt", "z-main");
    write(&mut repo, "m.txt", "m-main");
    repo.add("z.txt").unwrap();
    repo.add("m.txt").unwrap();
    repo.commit("main".to_string(), NOW).unwrap();
    repo.switch_branch("side").unwrap();
    write(&mut repo, "z.txt", "z-side");
    write(&mut repo, "m.txt", "m-side");
    repo.add("z.txt").unwrap();
    repo.add("m.txt").unwrap();
    repo.commit("side".to_string(), NOW).unwrap();
    repo.switch_branch("main").unwrap();

    let outcome = repo.merge("side", NOW).unwrap();
    assert_eq!(outcome, MergeOutcome::Conflicts(names(&["m.txt", "z.txt"])));
    assert!(matches!(repo.checkout("abc"), Err(RepoError::MergeInProgress)));
    assert!(matches!(repo.merge("side", NOW), Err(RepoError::MergeInProgress)));

    repo.add("m.txt").unwrap();
    assert_eq!(repo.read_merge_conflicts().unwrap(), names(&["z.txt"]));
    assert!(matches!(repo.commit("early".to_string(), NOW), Err(RepoError::UnresolvedConflicts)));
    repo.add("z.txt").unwrap();
    assert!(repo.read_merge_conflicts().unwrap().is_empty());
    let merge_hash = repo.commit("resolved".to_string(), NOW).unwrap();
    assert_eq!(repo.parents_of_commit(&merge_hash).unwrap().len(), 2);
}

#[test]
fn merge_entry_is_symmetric() {
    let a = "a".to_string();
    let c = "c".to_string();
    let t = "t".to_string();
    for (x, y) in [(Some(&c), Some(&t)), (Some(&a), Some(&t)), (None, Some(&t)), (Some(&c), None)] {
        assert_eq!(
            Repository::merge_entry(Some(&a), x, y),
            Repository::merge_entry(Some(&a), y, x)
        );
    }
}

#[test]
fn merge_entry_handles_deletions() {
    let a = "a".to_string();
    let t = "t".to_string();
    assert_eq!(Repository::merge_entry(Some(&a), None, None), EntryMerge::Resolved(None));
    assert_eq!(Repository::merge_entry(Some(&a), None, Some(&a)), EntryMerge::Resolved(None));
    assert_eq!(Repository::merge_entry(Some(&a), None, Some(&t)), EntryMerge::Conflict);
    assert_eq!(Repository::merge_entry(None, None, Some(&t)), EntryMerge::Resolved(Some(t.clone())));
}

#[test]
fn merge_entries_lists_conflicts_and_drops_deleted_paths() {
    let mut ancestor = PathMap::new();
    ancestor.insert("gone.txt".to_string(), "g".to_string());
    ancestor.insert("x.txt".to_string(), "x0".to_string());
    let mut current = PathMap::new();
    current.insert("x.txt".to_string(), "x1".to_string());
    current.insert("new.txt".to_string(), "n".to_string());
    let mut target = PathMap::new();
    target.insert("gone.txt".to_string(), "g".to_string());
    target.insert("x.txt".to_string(), "x2".to_string());

    let (merged, conflicts) = Repository::merge_entries(&ancestor, &current, &target);
    assert_eq!(conflicts, names(&["x.txt"]));
    assert_eq!(merged.len(), 1);
    assert_eq!(merged.get("new.txt"), Some(&"n".to_string()));
    assert!(!merged.contains_key("gone.txt"));
}

#[test]
fn conflict_bytes_adds_missing_line_feeds() {
    let bytes = Repository::conflict_bytes(b"mine", b"theirs\n", "topic");
    assert_eq!(bytes, b"<<<<<<< HEAD\nmine\n=======\ntheirs\n>>>>>>> topic\n".to_vec());
    let empty = Repository::conflict_bytes(b"", b"", "x");
    assert_eq!(empty, b"<<<<<<< HEAD\n\n=======\n\n>>>>>>> x\n".to_vec());
}

#[test]
fn add_then_blob_reads_back() {
    let mut repo = new_repo();
    write(&mut repo, "dir/f.txt", "contents");
    let hash = repo.add("dir/f.txt").unwrap();
    assert_eq!(repo.blob_bytes_for_merge(Some(&hash)).unwrap(), b"contents".to_vec());
    assert_eq!(repo.read_index().unwrap().get("dir/f.txt"), Some(&hash));
}

#[test]
fn log_lists_the_whole_stored_chain() {
    let mut repo = new_repo();
    let first = stage_and_commit(&mut repo, "a.txt", "1", "first");
    let second = stage_and_commit(&mut repo, "a.txt", "2", "second");
    let third = stage_and_commit(&mut repo, "a.txt", "3", "third");
    let log = repo.log().unwrap();
    let listed: Vec<String> = log.iter().map(|(h, _)| h.clone()).collect();
    assert_eq!(listed, vec![third, second.clone(), first.clone()]);
    assert_eq!(log[1].1.parents, vec![first]);
    assert!(log[2].1.parents.is_empty());
}

#[test]
fn common_ancestor_search_succeeds_on_stored_history() {
    let mut repo = new_repo();
    let base = stage_and_commit(&mut repo, "a.txt", "base", "base");
    repo.create_branch("side").unwrap();
    let left = stage_and_commit(&mut repo, "a.txt", "left", "left");
    repo.switch_branch("side").unwrap();
    let right = stage_and_commit(&mut repo, "b.txt", "right", "right");
    assert_eq!(repo.find_common_ancestor(&left, &right).unwrap(), Some(base.clone()));
    assert_eq!(repo.find_common_ancestor(&right, &left).unwrap(), Some(base));
}
