//! Staging files, committing the index, and comparing the working tree, the
//! index and the last commit.

use vstd::prelude::*;

use crate::digest::ObjectHash;
use crate::json::string_views;
use crate::merge::lookup;
use crate::object::{object_hash, Blob, Commit, CommitView, Object, ObjectView, Tree, TreeEntry};
use crate::path::{file_key, normal_key, safe_path, through_symlink};
use crate::pathmap::{listing, PathMap};
use crate::repo::{
    clear_writes, conflicts_write, effect_views, index_write, meta_write, object_write, opt_string_view, result_view,
    spec_branch_ref, spec_head_commit, spec_merge_conflicts, spec_merge_head, spec_read_object, EffectView, ErrorView,
    RepoError, Repository, StoreView, StoredView,
};
use crate::worktree::spec_entries_for_commit;

verus! {

/// How the store holds an object that the library wrote: its encoding,
/// parsed to itself.
pub open spec fn stored_view(o: ObjectView) -> StoredView {
    StoredView { bytes: crate::object::object_json(o), parsed: Ok(o) }
}

/// The tree that lists `entries` in path order.
pub open spec fn tree_of(entries: Map<Seq<char>, Seq<char>>) -> ObjectView {
    ObjectView::Tree(listing(entries))
}

/// The commit of snapshot `entries` with these parents, message and time.
pub open spec fn commit_of(
    entries: Map<Seq<char>, Seq<char>>,
    parents: Seq<Seq<char>>,
    message: Seq<char>,
    timestamp_secs: u64,
) -> ObjectView {
    ObjectView::Commit(CommitView { tree: object_hash(tree_of(entries)), parents, message, timestamp_secs })
}

/// The store after writing the tree of `entries` and then `commit`.
pub open spec fn with_commit(s: StoreView, entries: Map<Seq<char>, Seq<char>>, commit: ObjectView) -> StoreView {
    StoreView {
        objects: s.objects.insert(object_hash(tree_of(entries)), stored_view(tree_of(entries))).insert(
            object_hash(commit),
            stored_view(commit),
        ),
        ..s
    }
}

/// The snapshot of the commit `HEAD` stands at; empty before the first commit.
pub open spec fn spec_committed_entries(s: StoreView) -> Result<Map<Seq<char>, Seq<char>>, ErrorView> {
    match spec_head_commit(s) {
        Err(e) => Err(e),
        Ok(None) => Ok(Map::empty()),
        Ok(Some(h)) => spec_entries_for_commit(s, h),
    }
}

/// The paths of `list` other than `path`.
pub open spec fn without(list: Seq<Seq<char>>, path: Seq<char>) -> Seq<Seq<char>> {
    list.filter(other_than(path))
}

/// Whether a path is not `path`.
pub open spec fn other_than(path: Seq<char>) -> spec_fn(Seq<char>) -> bool {
    |x: Seq<char>| x != path
}

/// Taking `path` out of a list that keeps its length leaves the list as it
/// was: `path` was not in it.
pub proof fn lemma_without_same_len(list: Seq<Seq<char>>, path: Seq<char>)
    requires
        without(list, path).len() == list.len(),
    ensures
        without(list, path) == list,
        !list.contains(path),
    decreases list.len(),
{
    let f = other_than(path);
    if list.len() == 0 {
        reveal_with_fuel(Seq::<_>::filter, 1);
        assert(without(list, path) =~= list);
    } else {
        let d = list.drop_last();
        let x = list.last();
        assert(list =~= d.push(x));
        d.lemma_filter_push(x, f);
        d.lemma_filter_len(f);
        if x == path {
            assert(without(list, path) == d.filter(f));
            assert(false);
        } else {
            assert(without(list, path) == d.filter(f).push(x));
            lemma_without_same_len(d, path);
            assert forall|i: int| 0 <= i < list.len() implies list[i] != path by {
                if i < d.len() {
                    assert(list[i] == d[i]);
                    assert(d.contains(d[i]));
                }
            }
        }
    }
}

/// The optional value, as a sequence of zero or one items.
pub open spec fn opt_seq(o: Option<Seq<char>>) -> Seq<Seq<char>> {
    match o {
        Some(x) => seq![x],
        None => Seq::empty(),
    }
}

/// The strings of `list` other than `path`.
fn remove_all(list: &Vec<String>, path: &str) -> (r: Vec<String>)
    ensures
        string_views(r@) == without(string_views(list@), path@),
{
    let ghost lv = string_views(list@);
    let mut out: Vec<String> = Vec::new();
    let mut i: usize = 0;
    assert(lv.take(0) =~= Seq::<Seq<char>>::empty());
    proof {
        reveal_with_fuel(Seq::<_>::filter, 1);
    }
    while i < list.len()
        invariant
            lv == string_views(list@),
            i <= list@.len(),
            string_views(out@) == without(lv.take(i as int), path@),
        decreases list.len() - i,
    {
        proof {
            reveal_with_fuel(Seq::<_>::filter, 1);
        }
        assert(lv.take(i + 1).drop_last() =~= lv.take(i as int));
        assert(lv.take(i + 1).last() == list@[i as int]@);
        let ghost before = string_views(out@);
        if !(list[i] == String::from_str(path)) {
            let c = list[i].clone();
            out.push(c);
            assert(string_views(out@) =~= before.push(list@[i as int]@));
        }
        i = i + 1;
    }
    assert(lv.take(i as int) =~= lv);
    out
}

/// The contents of the regular file of the working tree that `path` names,
/// if the walk found one there (see [`file_key`]).
pub open spec fn walked_file(files: Map<Seq<char>, Seq<u8>>, path: Seq<char>) -> Option<Seq<u8>> {
    match file_key(path) {
        Some(k) => if files.contains_key(k) {
            Some(files[k])
        } else {
            None
        },
        None => None,
    }
}

/// The contents of the regular file of the working tree that `path` names,
/// as [`walked_file`] gives them.
fn walked_bytes<'a>(files: &'a PathMap<Vec<u8>>, path: &str) -> (r: Option<&'a Vec<u8>>)
    ensures
        r matches Some(b) ==> walked_file(files@, path@) == Some(b@),
        r is None ==> walked_file(files@, path@) is None,
{
    match normal_key(path) {
        None => None,
        Some(k) => files.get_chars(&k),
    }
}

/// What staging the file at `path` gives: the result, and the store
/// afterwards. The path must be safe, lead through no symbolic link and name
/// a regular file of the working tree; then the file's contents are stored as a
/// blob, the index records the blob at the path, and a conflict at the path
/// counts as resolved. When a check or read fails, the changes made before
/// it stay.
pub open spec fn add_outcome(s: StoreView, path: Seq<char>) -> (Result<Seq<char>, ErrorView>, StoreView) {
    if !safe_path(path) || through_symlink(s.symlinks, path) {
        (Err(ErrorView::UnsafePath(path)), s)
    } else if walked_file(s.files, path) is None {
        (Err(ErrorView::Io(path)), s)
    } else {
        let blob = ObjectView::Blob(walked_file(s.files, path)->Some_0);
        let h = object_hash(blob);
        let s1 = StoreView { objects: s.objects.insert(h, stored_view(blob)), ..s };
        match s.index {
            Err(e) => (Err(e), s1),
            Ok(idx) => {
                let s2 = StoreView { index: Ok(idx.insert(path, h)), ..s1 };
                match spec_merge_conflicts(s) {
                    Err(e) => (Err(e), s2),
                    Ok(c) => (Ok(h), if without(c, path).len() != c.len() {
                        StoreView { merge_conflicts: Ok(Some(without(c, path))), ..s2 }
                    } else {
                        s2
                    }),
                }
            },
        }
    }
}

/// The changes on disk that staging `path` records, in order: the blob's
/// file, then `index.json`, then `MERGE_CONFLICTS` when a conflict is
/// resolved, as far as the command gets (see [`add_outcome`]).
pub open spec fn add_effects(s: StoreView, path: Seq<char>) -> Seq<EffectView> {
    if !safe_path(path) || through_symlink(s.symlinks, path) || walked_file(s.files, path) is None {
        Seq::empty()
    } else {
        let blob = ObjectView::Blob(walked_file(s.files, path)->Some_0);
        match s.index {
            Err(_) => seq![object_write(blob)],
            Ok(idx) => seq![object_write(blob), index_write(idx.insert(path, object_hash(blob)))] + match spec_merge_conflicts(s) {
                Ok(c) => if without(c, path).len() != c.len() {
                    seq![conflicts_write(without(c, path))]
                } else {
                    Seq::empty()
                },
                Err(_) => Seq::empty(),
            },
        }
    }
}

impl Repository {
    /// Stores the tree of `entries` and a commit of it with these parents,
    /// message and time; gives back the commit's name.
    pub fn write_commit_object(
        &mut self,
        entries: &PathMap<ObjectHash>,
        parents: Vec<ObjectHash>,
        message: String,
        timestamp_secs: u64,
    ) -> (hash: ObjectHash)
        ensures
            hash@ == object_hash(commit_of(entries@, string_views(parents@), message@, timestamp_secs)),
            final(self).store@ == with_commit(old(self).store@, entries@, commit_of(entries@, string_views(parents@), message@, timestamp_secs)),
            crate::text::valid_object_hash(hash@),
            spec_read_object(final(self).store@.objects, hash@)
                == Ok::<ObjectView, ErrorView>(commit_of(entries@, string_views(parents@), message@, timestamp_secs)),
            crate::text::valid_object_hash(object_hash(tree_of(entries@))),
            object_hash(tree_of(entries@)) != hash@ ==> spec_read_object(final(self).store@.objects, object_hash(tree_of(entries@)))
                == Ok::<ObjectView, ErrorView>(tree_of(entries@)),
            effect_views(final(self).store.effects@) == effect_views(old(self).store.effects@) + seq![
                object_write(tree_of(entries@)),
                object_write(commit_of(entries@, string_views(parents@), message@, timestamp_secs)),
            ],
            final(self).worktree == old(self).worktree,
            final(self).git_dir == old(self).git_dir,
    {
        proof {
            use_type_invariant(entries);
            entries.lemma_wf();
        }
        let mut tree_entries: Vec<TreeEntry> = Vec::new();
        let n = entries.len();
        let mut i: usize = 0;
        while i < n
            invariant
                n == entries.pairs().len(),
                i <= n,
                tree_entries@.map_values(|e: TreeEntry| e@) == entries.pairs().take(i as int),
            decreases n - i,
        {
            let (path, blob) = entries.entry_at(i);
            let ghost before = tree_entries@.map_values(|e: TreeEntry| e@);
            tree_entries.push(TreeEntry { path: path.clone(), blob: blob.clone() });
            assert(tree_entries@.map_values(|e: TreeEntry| e@) =~= before.push(entries.pairs()[i as int]));
            i = i + 1;
            assert(entries.pairs().take(i as int) =~= before.push(entries.pairs()[i - 1]));
        }
        assert(entries.pairs().take(n as int) =~= entries.pairs());
        let tree = Object::Tree(Tree { entries: tree_entries });
        assert(tree@ == tree_of(entries@));
        let tree_hash = self.write_object(&tree);
        let ghost th = tree_hash@;
        let commit = Object::Commit(Commit { tree: tree_hash, parents, message, timestamp_secs });
        let hash = self.write_object(&commit);
        proof {
            if th != hash@ {
                crate::repo::lemma_read_stored(self.store@.objects, tree_of(entries@));
            }
        }
        hash
    }

    /// The snapshot of the commit `HEAD` stands at; empty before the first commit.
    pub fn committed_entries(&self) -> (r: Result<PathMap<ObjectHash>, RepoError>)
        ensures
            match r {
                Ok(m) => spec_committed_entries(self.store@) == Ok::<Map<Seq<char>, Seq<char>>, ErrorView>(m@),
                Err(e) => spec_committed_entries(self.store@) == Err::<Map<Seq<char>, Seq<char>>, ErrorView>(e@),
            },
    {
        match self.head_commit() {
            Err(e) => Err(e),
            Ok(Some(hash)) => self.entries_for_commit(hash.as_str()),
            Ok(None) => Ok(PathMap::new()),
        }
    }

    /// Stages the file at `path`: stores its contents as a blob, records the
    /// blob in the index, and marks the path resolved if it was in conflict.
    /// Gives back the blob's name.
    pub fn add(&mut self, path: &str) -> (r: Result<ObjectHash, RepoError>)
        ensures
            (result_view(r), final(self).store@) == add_outcome(old(self).store@, path@),
            r matches Ok(h) ==> crate::text::valid_object_hash(h@),
            effect_views(final(self).store.effects@) == effect_views(old(self).store.effects@) + add_effects(old(self).store@, path@),
            final(self).worktree == old(self).worktree,
            final(self).git_dir == old(self).git_dir,
    {
        if let Err(e) = Self::validate_repo_path(path) {
            return Err(e);
        }
        if let Err(e) = self.validate_no_symlinks(path) {
            return Err(e);
        }
        let bytes = match walked_bytes(&self.store.files, path) {
            Some(b) => crate::object::clone_bytes(b),
            None => return Err(RepoError::Io(String::from_str(path))),
        };
        let object = Object::Blob(Blob { bytes });
        let hash = self.write_object(&object);
        let mut index = match self.read_index() {
            Ok(m) => m,
            Err(e) => return Err(e),
        };
        index.insert(String::from_str(path), hash.clone());
        self.put_index(index);
        let conflicts = match self.read_merge_conflicts() {
            Ok(c) => c,
            Err(e) => return Err(e),
        };
        let previous_len = conflicts.len();
        let remaining = remove_all(&conflicts, path);
        if remaining.len() != previous_len {
            self.put_conflicts(remaining);
        }
        Ok(hash)
    }
}


/// The checks and reads that committing makes, in order: `HEAD` must name a
/// branch, no conflict may remain, and the index must differ from the last
/// commit unless a merge is being completed. Gives the branch, the staged
/// snapshot, the parents (the commit `HEAD` stands at, then the merged
/// commit) and whether a merge is being completed.
pub open spec fn commit_plan(s: StoreView) -> Result<(Seq<char>, Map<Seq<char>, Seq<char>>, Seq<Seq<char>>, bool), ErrorView> {
    match spec_branch_ref(s) {
        Err(e) => Err(e),
        Ok(b) => match spec_merge_conflicts(s) {
            Err(e) => Err(e),
            Ok(c) => if c.len() > 0 {
                Err(ErrorView::UnresolvedConflicts)
            } else {
                match spec_merge_head(s) {
                    Err(e) => Err(e),
                    Ok(mp) => match s.index {
                        Err(e) => Err(e),
                        Ok(idx) => match spec_committed_entries(s) {
                            Err(e) => Err(e),
                            Ok(cm) => if idx == cm && mp is None {
                                Err(ErrorView::NothingToCommit)
                            } else {
                                match spec_head_commit(s) {
                                    Err(e) => Err(e),
                                    Ok(hc) => Ok((b, idx, opt_seq(hc) + opt_seq(mp), mp is Some)),
                                }
                            },
                        },
                    },
                }
            },
        },
    }
}

/// What committing the index with `message` at `timestamp_secs` gives: the
/// result, and the store afterwards. When the checks fail nothing changes.
/// Else the index's tree and a commit of it are stored, the branch moves to
/// the commit, and a merge being completed ends.
pub open spec fn commit_outcome(s: StoreView, message: Seq<char>, timestamp_secs: u64) -> (Result<Seq<char>, ErrorView>, StoreView) {
    match commit_plan(s) {
        Err(e) => (Err(e), s),
        Ok((b, idx, parents, completing)) => {
            let c = commit_of(idx, parents, message, timestamp_secs);
            let h = object_hash(c);
            let s1 = StoreView { refs: s.refs.insert(b, h + "\n"@), ..with_commit(s, idx, c) };
            (Ok(h), if completing {
                StoreView { merge_head: Ok(None), merge_conflicts: Ok(None), ..s1 }
            } else {
                s1
            })
        },
    }
}

/// The changes on disk that committing records, in order: the tree's and
/// the commit's files, the branch's ref, and the removal of the merge state
/// when a merge is completed; nothing when the checks fail.
pub open spec fn commit_effects(s: StoreView, message: Seq<char>, timestamp_secs: u64) -> Seq<EffectView> {
    match commit_plan(s) {
        Err(_) => Seq::empty(),
        Ok((b, idx, parents, completing)) => {
            let c = commit_of(idx, parents, message, timestamp_secs);
            seq![object_write(tree_of(idx)), object_write(c), meta_write(b, object_hash(c) + "\n"@)] + if completing {
                clear_writes()
            } else {
                Seq::empty()
            }
        },
    }
}

impl Repository {
    /// The checks and reads of [`commit_plan`].
    #[verifier::rlimit(100)]
    #[verifier::spinoff_prover]
    fn prepare_commit(&self) -> (r: Result<(String, PathMap<ObjectHash>, Vec<ObjectHash>, bool), RepoError>)
        ensures
            match r {
                Ok((b, idx, parents, completing)) => commit_plan(self.store@) == Ok::<
                    (Seq<char>, Map<Seq<char>, Seq<char>>, Seq<Seq<char>>, bool),
                    ErrorView,
                >((b@, idx@, string_views(parents@), completing)),
                Err(e) => commit_plan(self.store@) == Err::<
                    (Seq<char>, Map<Seq<char>, Seq<char>>, Seq<Seq<char>>, bool),
                    ErrorView,
                >(e@),
            },
    {
        let branch = match self.current_branch_ref() {
            Ok(b) => b,
            Err(e) => return Err(e),
        };
        let conflicts = match self.read_merge_conflicts() {
            Ok(c) => c,
            Err(e) => return Err(e),
        };
        if conflicts.len() > 0 {
            return Err(RepoError::UnresolvedConflicts);
        }
        let merge_parent = match self.read_merge_head() {
            Ok(m) => m,
            Err(e) => return Err(e),
        };
        let completing_merge = merge_parent.is_some();
        let index = match self.read_index() {
            Ok(m) => m,
            Err(e) => return Err(e),
        };
        let committed = match self.committed_entries() {
            Ok(m) => m,
            Err(e) => return Err(e),
        };
        if index.same_entries(&committed) && !completing_merge {
            return Err(RepoError::NothingToCommit);
        }
        let mut parents: Vec<ObjectHash> = Vec::new();
        let head = match self.head_commit() {
            Err(e) => return Err(e),
            Ok(h) => h,
        };
        let ghost hc = opt_string_view(head);
        match head {
            Some(h) => parents.push(h),
            None => {},
        }
        let ghost head_part = string_views(parents@);
        assert(head_part =~= opt_seq(hc));
        let ghost mp = opt_string_view(merge_parent);
        match merge_parent {
            Some(h) => parents.push(h),
            None => {},
        }
        assert(string_views(parents@) =~= opt_seq(hc) + opt_seq(mp));
        assert(completing_merge == mp is Some);
        Ok((branch, index, parents, completing_merge))
    }

    /// Commits the index on the current branch with `message`, stamped with
    /// `timestamp_secs` (seconds since the Unix epoch).
    pub fn commit(&mut self, message: String, timestamp_secs: u64) -> (r: Result<ObjectHash, RepoError>)
        ensures
            (result_view(r), final(self).store@) == commit_outcome(old(self).store@, message@, timestamp_secs),
            r matches Ok(h) ==> {
                let p = commit_plan(old(self).store@)->Ok_0;
                &&& crate::text::valid_object_hash(h@)
                &&& crate::text::valid_object_hash(object_hash(tree_of(p.1)))
                &&& spec_read_object(final(self).store@.objects, h@)
                    == Ok::<ObjectView, ErrorView>(commit_of(p.1, p.2, message@, timestamp_secs))
                &&& spec_head_commit(final(self).store@) == Ok::<Option<Seq<char>>, ErrorView>(Some(h@))
            },
            effect_views(final(self).store.effects@) == effect_views(old(self).store.effects@) + commit_effects(
                old(self).store@,
                message@,
                timestamp_secs,
            ),
            final(self).worktree == old(self).worktree,
            final(self).git_dir == old(self).git_dir,
    {
        let (branch, index, parents, completing_merge) = match self.prepare_commit() {
            Ok(p) => p,
            Err(e) => return Err(e),
        };
        let ghost s0 = self.store@;
        let commit_hash = self.write_commit_object(&index, parents, message, timestamp_secs);
        assert(spec_branch_ref(self.store@) == spec_branch_ref(s0));
        match self.update_current_branch(commit_hash.as_str()) {
            Ok(()) => {},
            Err(e) => return Err(e),
        }
        if completing_merge {
            self.clear_merge_state();
        }
        proof {
            crate::repo::lemma_name_line(commit_of(index@, string_views(parents@), message@, timestamp_secs));
            reveal_strlit("\n");
            assert("\n"@ =~= seq!['\n']);
        }
        Ok(commit_hash)
    }
}


/// How the working tree, the index and the last commit differ.
#[derive(Debug, Clone, PartialEq, Eq, Default)]
pub struct RepositoryStatus {
    /// Staged paths whose blob differs from the last commit's, in path order.
    pub staged: Vec<String>,
    /// Staged paths whose file is missing or differs from the staged blob, in path order.
    pub modified: Vec<String>,
    /// Files of the working tree that are not staged, in path order.
    pub untracked: Vec<String>,
}

/// The keys of `m` in path order.
pub open spec fn keys_in_order<V>(m: Map<Seq<char>, V>) -> Seq<Seq<char>> {
    listing(m).map_values(|e: (Seq<char>, V)| e.0)
}

/// Staged paths whose blob differs from the committed snapshot's (or that
/// the commit lacks).
pub open spec fn staged_paths(idx: Map<Seq<char>, Seq<char>>, committed: Map<Seq<char>, Seq<char>>) -> Seq<Seq<char>> {
    keys_in_order(idx).filter(|p: Seq<char>| lookup(committed, p) != Some(idx[p]))
}

/// What reading the staged path `p` gives: `None` when nothing is there,
/// else the contents or the error. A path that the walk found as a regular
/// file reads as that file; one that exists otherwise reads as probed.
pub open spec fn staged_read(s: StoreView, p: Seq<char>) -> Option<Result<Seq<u8>, ErrorView>> {
    if s.probed.contains_key(p) {
        Some(s.probed[p])
    } else {
        match walked_file(s.files, p) {
            Some(b) => Some(Ok(b)),
            None => None,
        }
    }
}

/// The error of the first of `paths` whose reading fails, if any.
pub open spec fn first_read_error(s: StoreView, paths: Seq<Seq<char>>) -> Option<ErrorView>
    decreases paths.len(),
{
    if paths.len() == 0 {
        None
    } else {
        match first_read_error(s, paths.drop_last()) {
            Some(e) => Some(e),
            None => match staged_read(s, paths.last()) {
                Some(Err(e)) => Some(e),
                _ => None,
            },
        }
    }
}

/// A failure among the first `n` paths is the first failure of them all.
proof fn lemma_first_read_error_prefix(s: StoreView, paths: Seq<Seq<char>>, n: int)
    requires
        0 <= n <= paths.len(),
        first_read_error(s, paths.take(n)) is Some,
    ensures
        first_read_error(s, paths) == first_read_error(s, paths.take(n)),
    decreases paths.len(),
{
    if n < paths.len() {
        assert(paths.drop_last().take(n) =~= paths.take(n));
        lemma_first_read_error_prefix(s, paths.drop_last(), n);
    } else {
        assert(paths.take(n) =~= paths);
    }
}

/// Whether the staged path `p` counts as modified: nothing is there, or what
/// is there hashes to another blob than `idx` records.
pub open spec fn is_modified(s: StoreView, idx: Map<Seq<char>, Seq<char>>) -> spec_fn(Seq<char>) -> bool {
    |p: Seq<char>| match staged_read(s, p) {
        Some(Ok(b)) => object_hash(ObjectView::Blob(b)) != idx[p],
        _ => true,
    }
}

/// Staged paths whose file is missing or hashes to another blob.
pub open spec fn modified_paths(s: StoreView, idx: Map<Seq<char>, Seq<char>>) -> Seq<Seq<char>> {
    keys_in_order(idx).filter(is_modified(s, idx))
}

/// Files that the index does not track.
pub open spec fn untracked_paths(idx: Map<Seq<char>, Seq<char>>, files: Map<Seq<char>, Seq<u8>>) -> Seq<Seq<char>> {
    keys_in_order(files).filter(|p: Seq<char>| !idx.contains_key(p))
}

impl Repository {
    /// Compares the working tree, the index and the last commit.
    pub fn status(&self) -> (r: Result<RepositoryStatus, RepoError>)
        ensures
            match self.store@.index {
                Err(e) => r matches Err(x) && x@ == e,
                Ok(idx) => match spec_committed_entries(self.store@) {
                    Err(e) => r matches Err(x) && x@ == e,
                    Ok(cm) => match first_read_error(self.store@, keys_in_order(idx)) {
                        Some(e) => r matches Err(x) && x@ == e,
                        None => r matches Ok(st) && {
                            &&& string_views(st.staged@) == staged_paths(idx, cm)
                            &&& string_views(st.modified@) == modified_paths(self.store@, idx)
                            &&& string_views(st.untracked@) == untracked_paths(idx, self.store@.files)
                        },
                    },
                },
            },
    {
        let index = match self.read_index() {
            Ok(m) => m,
            Err(e) => return Err(e),
        };
        let committed = match self.committed_entries() {
            Ok(m) => m,
            Err(e) => return Err(e),
        };
        proof {
            use_type_invariant(&index);
            index.lemma_wf();
            use_type_invariant(&self.store.files);
            self.store.files.lemma_wf();
        }
        let ghost idx = index@;
        let ghost cm = committed@;
        let ghost files = self.store@.files;
        let ghost st = self.store@;
        let ghost ikeys = keys_in_order(idx);
        assert(ikeys =~= index.keys());
        let n = index.len();
        let mut staged: Vec<String> = Vec::new();
        let mut modified: Vec<String> = Vec::new();
        let mut i: usize = 0;
        assert(ikeys.take(0) =~= Seq::<Seq<char>>::empty());
        proof {
            reveal_with_fuel(Seq::<_>::filter, 1);
        }
        while i < n
            invariant
                n == index.pairs().len(),
                idx == index@,
                cm == committed@,
                st == self.store@,
                ikeys == index.keys(),
                ikeys == keys_in_order(idx),
                st.index == Ok::<Map<Seq<char>, Seq<char>>, ErrorView>(idx),
                spec_committed_entries(st) == Ok::<Map<Seq<char>, Seq<char>>, ErrorView>(cm),
                index.well_formed(),
                i <= n,
                first_read_error(st, ikeys.take(i as int)) is None,
                string_views(staged@) == ikeys.take(i as int).filter(|p: Seq<char>| lookup(cm, p) != Some(idx[p])),
                string_views(modified@) == ikeys.take(i as int).filter(is_modified(st, idx)),
            decreases n - i,
        {
            proof {
                reveal_with_fuel(Seq::<_>::filter, 1);
                index.lemma_wf();
            }
            let (path, hash) = index.entry_at(i);
            let ghost p = path@;
            assert(ikeys[i as int] == p);
            assert(idx[p] == hash@);
            assert(ikeys.take(i + 1).drop_last() =~= ikeys.take(i as int));
            assert(ikeys.take(i + 1).last() == p);
            let same = match committed.get(path.as_str()) {
                Some(v) => *v == *hash,
                None => false,
            };
            let ghost before = string_views(staged@);
            if !same {
                staged.push(path.clone());
                assert(string_views(staged@) =~= before.push(p));
            }
            let ghost before_m = string_views(modified@);
            let found = match self.store.probed.get(path.as_str()) {
                Some(probe) => match &probe.read {
                    Err(e) => {
                        proof {
                            assert(first_read_error(st, ikeys.take(i + 1)) == Some(e@));
                            lemma_first_read_error_prefix(st, ikeys, i + 1);
                        }
                        return Err(e.duplicate());
                    },
                    Ok(bytes) => Some(bytes),
                },
                None => walked_bytes(&self.store.files, path.as_str()),
            };
            let changed = match found {
                None => true,
                Some(bytes) => {
                    let object = Object::Blob(Blob { bytes: crate::object::clone_bytes(bytes) });
                    let current = object.hash();
                    !(current == *hash)
                },
            };
            assert(changed == is_modified(st, idx)(p));
            if changed {
                modified.push(path.clone());
                assert(string_views(modified@) =~= before_m.push(p));
            }
            i = i + 1;
        }
        assert(ikeys.take(n as int) =~= ikeys);
        assert(first_read_error(st, ikeys) is None);
        let ghost fkeys = keys_in_order(files);
        assert(fkeys =~= self.store.files.keys());
        let m = self.store.files.len();
        let mut untracked: Vec<String> = Vec::new();
        let mut j: usize = 0;
        assert(fkeys.take(0) =~= Seq::<Seq<char>>::empty());
        while j < m
            invariant
                m == self.store.files.pairs().len(),
                idx == index@,
                files == self.store@.files,
                fkeys == self.store.files.keys(),
                self.store.files.well_formed(),
                j <= m,
                string_views(untracked@) == fkeys.take(j as int).filter(|p: Seq<char>| !idx.contains_key(p)),
            decreases m - j,
        {
            proof {
                reveal_with_fuel(Seq::<_>::filter, 1);
                self.store.files.lemma_wf();
            }
            let (path, _) = self.store.files.entry_at(j);
            let ghost p = path@;
            assert(fkeys[j as int] == p);
            assert(fkeys.take(j + 1).drop_last() =~= fkeys.take(j as int));
            assert(fkeys.take(j + 1).last() == p);
            let ghost before = string_views(untracked@);
            if !index.contains_key(path.as_str()) {
                untracked.push(path.clone());
                assert(string_views(untracked@) =~= before.push(p));
            }
            j = j + 1;
        }
        assert(fkeys.take(m as int) =~= fkeys);
        Ok(RepositoryStatus { staged, modified, untracked })
    }
}
} // verus!
