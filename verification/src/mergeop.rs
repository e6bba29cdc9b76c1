//! Merging a branch into the current one.

use vstd::prelude::*;

use crate::branch::spec_branch_commit;
use crate::digest::ObjectHash;
use crate::history::spec_find_common_ancestor;
use crate::json::string_views;
use crate::merge::{conflict_file, conflict_paths, lemma_ordered, lookup, merged_snapshot, ordered, sorted_paths, str_views};
use crate::object::object_hash;
use crate::path::through_symlink;
use crate::pathmap::PathMap;
use crate::repo::{
    concat_str, conflicts_write, effect_views, meta_write, object_write, result_view, spec_branch_ref, spec_head_commit,
    spec_merge_head, unit_view, EffectView, ErrorView, RepoError, Repository, StoreView,
};
use crate::staging::{commit_of, tree_of, with_commit};
use crate::worktree::{
    first_failure, lemma_first_failure_at, lemma_first_failure_none, lemma_first_failure_some, path_ok, restore_effects,
    restore_outcome, restored_store, spec_blob,
    spec_entries_for_commit,
};

verus! {

/// What merging a branch did.
#[derive(Debug, Clone, PartialEq, Eq)]
pub enum MergeOutcome {
    /// The branch's commit is already an ancestor of the current one.
    AlreadyUpToDate,
    /// The current branch moved forward to the branch's commit.
    FastForward(ObjectHash),
    /// A merge commit with both commits as parents was made.
    Merged(ObjectHash),
    /// These paths conflict; the merge waits for them to be resolved.
    Conflicts(Vec<String>),
}

/// The value of a [`MergeOutcome`].
pub enum MergeOutcomeView {
    AlreadyUpToDate,
    FastForward(Seq<char>),
    Merged(Seq<char>),
    Conflicts(Seq<Seq<char>>),
}

impl View for MergeOutcome {
    type V = MergeOutcomeView;

    open spec fn view(&self) -> MergeOutcomeView {
        match self {
            MergeOutcome::AlreadyUpToDate => MergeOutcomeView::AlreadyUpToDate,
            MergeOutcome::FastForward(h) => MergeOutcomeView::FastForward(h@),
            MergeOutcome::Merged(h) => MergeOutcomeView::Merged(h@),
            MergeOutcome::Conflicts(v) => MergeOutcomeView::Conflicts(string_views(v@)),
        }
    }
}

/// The checks and reads before a merge changes anything: no merge may be in
/// progress, `HEAD` must name a branch with a commit, the branch to merge
/// must point at a commit, and the two must share an ancestor. Gives the
/// current branch, the current commit, the branch's commit and the common
/// ancestor found.
pub open spec fn merge_plan(s: StoreView, branch: Seq<char>) -> Result<(Seq<char>, Seq<char>, Seq<char>, Seq<char>), ErrorView> {
    match spec_merge_head(s) {
        Err(e) => Err(e),
        Ok(Some(_)) => Err(ErrorView::MergeInProgress),
        Ok(None) => match spec_branch_ref(s) {
            Err(e) => Err(e),
            Ok(b) => match spec_head_commit(s) {
                Err(e) => Err(e),
                Ok(None) => Err(ErrorView::NoCommitsYet),
                Ok(Some(cur)) => match spec_branch_commit(s, branch) {
                    Err(e) => Err(e),
                    Ok(tgt) => match spec_find_common_ancestor(s, cur, tgt) {
                        Err(e) => Err(e),
                        Ok(None) => Err(ErrorView::NoCommonAncestor),
                        Ok(Some(anc)) => Ok((b, cur, tgt, anc)),
                    },
                },
            },
        },
    }
}

/// The snapshots of the ancestor, the current commit and the branch's
/// commit, read in that order.
pub open spec fn merge_snapshots(s: StoreView, anc: Seq<char>, cur: Seq<char>, tgt: Seq<char>) -> Result<
    (Map<Seq<char>, Seq<char>>, Map<Seq<char>, Seq<char>>, Map<Seq<char>, Seq<char>>),
    ErrorView,
> {
    match spec_entries_for_commit(s, anc) {
        Err(e) => Err(e),
        Ok(a) => match spec_entries_for_commit(s, cur) {
            Err(e) => Err(e),
            Ok(c) => match spec_entries_for_commit(s, tgt) {
                Err(e) => Err(e),
                Ok(t) => Ok((a, c, t)),
            },
        },
    }
}

/// The contents of a blob that may be absent: an absent file reads as empty.
pub open spec fn side_bytes(s: StoreView, h: Option<Seq<char>>) -> Result<Seq<u8>, ErrorView> {
    match h {
        None => Ok(Seq::empty()),
        Some(x) => spec_blob(s, x),
    }
}

/// The contents written at a conflicting path: both sides between conflict
/// markers, the target side labelled with `branch`.
pub open spec fn conflict_content(
    s: StoreView,
    current: Map<Seq<char>, Seq<char>>,
    target: Map<Seq<char>, Seq<char>>,
    path: Seq<char>,
    branch: Seq<char>,
) -> Result<Seq<u8>, ErrorView> {
    if !path_ok(s, path) {
        Err(ErrorView::UnsafePath(path))
    } else {
        match side_bytes(s, lookup(current, path)) {
            Err(e) => Err(e),
            Ok(cb) => match side_bytes(s, lookup(target, path)) {
                Err(e) => Err(e),
                Ok(tb) => Ok(conflict_file(cb, tb, branch)),
            },
        }
    }
}

/// The message of the commit that merges `branch`.
pub open spec fn merge_message(branch: Seq<char>) -> Seq<char> {
    "Merge branch '"@ + branch + "'"@
}

impl Repository {
    /// Writes the conflicting file at `path`: both versions between conflict markers.
    pub fn write_conflict_file(
        &mut self,
        path: &str,
        current_hash: Option<&ObjectHash>,
        target_hash: Option<&ObjectHash>,
        target_branch: &str,
    ) -> (r: Result<(), RepoError>)
        ensures
            ({
                let cur = crate::merge::opt_ref_view(current_hash);
                let tgt = crate::merge::opt_ref_view(target_hash);
                let content = if !path_ok(old(self).store@, path@) {
                    Err(ErrorView::UnsafePath(path@))
                } else {
                    match side_bytes(old(self).store@, cur) {
                        Err(e) => Err(e),
                        Ok(cb) => match side_bytes(old(self).store@, tgt) {
                            Err(e) => Err(e),
                            Ok(tb) => Ok(conflict_file(cb, tb, target_branch@)),
                        },
                    }
                };
                match content {
                    Err(e) => (r matches Err(x) && x@ == e) && final(self).store@ == old(self).store@
                        && effect_views(final(self).store.effects@) == effect_views(old(self).store.effects@),
                    Ok(bytes) => r is Ok && final(self).store@ == (StoreView {
                        files: old(self).store@.files.insert(path@, bytes),
                        ..old(self).store@
                    }) && effect_views(final(self).store.effects@) == effect_views(old(self).store.effects@).push(
                        EffectView::WriteFile(path@, bytes),
                    ),
                }
            }),
            final(self).worktree == old(self).worktree,
            final(self).git_dir == old(self).git_dir,
    {
        if let Err(e) = Self::validate_repo_path(path) {
            return Err(e);
        }
        if let Err(e) = self.validate_no_symlinks(path) {
            return Err(e);
        }
        let current = match self.blob_bytes_for_merge(current_hash) {
            Ok(b) => b,
            Err(e) => return Err(e),
        };
        assert(side_bytes(self.store@, crate::merge::opt_ref_view(current_hash)) == Ok::<Seq<u8>, ErrorView>(current@)) by {
            if current_hash is None {
                assert(current@ =~= Seq::<u8>::empty());
            }
        }
        let target = match self.blob_bytes_for_merge(target_hash) {
            Ok(b) => b,
            Err(e) => return Err(e),
        };
        assert(side_bytes(self.store@, crate::merge::opt_ref_view(target_hash)) == Ok::<Seq<u8>, ErrorView>(target@)) by {
            if target_hash is None {
                assert(target@ =~= Seq::<u8>::empty());
            }
        }
        let contents = Self::conflict_bytes(current.as_slice(), target.as_slice(), target_branch);
        self.write_file(path, contents);
        Ok(())
    }
}


/// Whether the conflicting file at `p` can be made; else the error.
pub open spec fn conflict_check(
    s: StoreView,
    current: Map<Seq<char>, Seq<char>>,
    target: Map<Seq<char>, Seq<char>>,
    branch: Seq<char>,
    p: Seq<char>,
) -> Result<(), ErrorView> {
    match conflict_content(s, current, target, p, branch) {
        Err(e) => Err(e),
        Ok(_) => Ok(()),
    }
}

/// [`conflict_check`] as a predicate value.
pub open spec fn conflict_checks(
    s: StoreView,
    current: Map<Seq<char>, Seq<char>>,
    target: Map<Seq<char>, Seq<char>>,
    branch: Seq<char>,
) -> spec_fn(Seq<char>) -> Result<(), ErrorView> {
    |p: Seq<char>| conflict_check(s, current, target, branch, p)
}

/// Writing conflicting files depends only on the symbolic links and the
/// objects of the store.
proof fn lemma_conflict_frame(
    s: StoreView,
    s2: StoreView,
    current: Map<Seq<char>, Seq<char>>,
    target: Map<Seq<char>, Seq<char>>,
    branch: Seq<char>,
)
    requires
        s.symlinks == s2.symlinks,
        s.objects == s2.objects,
    ensures
        conflict_checks(s, current, target, branch) == conflict_checks(s2, current, target, branch),
        forall|paths: Set<Seq<char>>|
            #[trigger] conflict_contents(s, current, target, paths, branch) == conflict_contents(s2, current, target, paths, branch),
        forall|p: Seq<char>|
            #[trigger] conflict_content(s, current, target, p, branch) == conflict_content(s2, current, target, p, branch),
{
    assert forall|p: Seq<char>| conflict_content(s, current, target, p, branch) == #[trigger] conflict_content(s2, current, target, p, branch) by {
        assert(same_reads(s, s2));
    }
    assert(conflict_checks(s, current, target, branch) =~= conflict_checks(s2, current, target, branch));
    assert forall|paths: Set<Seq<char>>|
        #[trigger] conflict_contents(s, current, target, paths, branch) == conflict_contents(s2, current, target, paths, branch) by {
        assert(conflict_contents(s, current, target, paths, branch) =~= conflict_contents(s2, current, target, paths, branch));
    }
}

/// Reading any object gives the same in both stores.
spec fn same_reads(s: StoreView, s2: StoreView) -> bool {
    forall|h: Seq<char>| #[trigger] crate::repo::spec_read_object(s.objects, h) == crate::repo::spec_read_object(s2.objects, h)
}

/// The contents of every conflicting path, where all can be made.
pub open spec fn conflict_contents(
    s: StoreView,
    current: Map<Seq<char>, Seq<char>>,
    target: Map<Seq<char>, Seq<char>>,
    paths: Set<Seq<char>>,
    branch: Seq<char>,
) -> Map<Seq<char>, Seq<u8>> {
    Map::new(|p: Seq<char>| paths.contains(p), |p: Seq<char>| conflict_content(s, current, target, p, branch)->Ok_0)
}

#[verifier::opaque]
/// Whether making `HEAD`'s branch point at `h` after making the working
/// tree and the index match commit `h` gives result `r` and store `after`,
/// starting from `s`; `ok` is the result when all goes well.
pub open spec fn restore_and_move(
    s: StoreView,
    b: Seq<char>,
    h: Seq<char>,
    ok: MergeOutcomeView,
    r: Result<MergeOutcomeView, ErrorView>,
    after: StoreView,
) -> bool {
    match spec_entries_for_commit(s, h) {
        Err(e) => r == Err::<MergeOutcomeView, ErrorView>(e) && after == s,
        Ok(m) => if restore_outcome(s, m).0 is Ok {
            r == Ok::<MergeOutcomeView, ErrorView>(ok) && after == (StoreView {
                refs: s.refs.insert(b, h + "\n"@),
                ..restored_store(s, m)
            })
        } else {
            r == Err::<MergeOutcomeView, ErrorView>(restore_outcome(s, m).0->Err_0) && after == restored_store(s, m)
        },
    }
}

#[verifier::opaque]
/// Whether a merge that found conflicts gives result `r` and store `after`:
/// the working tree and the index are made to match the merged snapshot,
/// each conflicting file is written with conflict markers, and the merge is
/// recorded as in progress.
pub open spec fn conflicted_merge(
    s: StoreView,
    tgt: Seq<char>,
    branch: Seq<char>,
    merged: Map<Seq<char>, Seq<char>>,
    current: Map<Seq<char>, Seq<char>>,
    target: Map<Seq<char>, Seq<char>>,
    paths: Set<Seq<char>>,
    r: Result<MergeOutcomeView, ErrorView>,
    after: StoreView,
) -> bool {
    if restore_outcome(s, merged).0 is Err {
        r == Err::<MergeOutcomeView, ErrorView>(restore_outcome(s, merged).0->Err_0) && after == restored_store(s, merged)
    } else {
        let s2 = restored_store(s, merged);
        let v = ordered(paths);
        match first_failure(v, conflict_checks(s, current, target, branch)) {
            Some(k) => r == Err::<MergeOutcomeView, ErrorView>(conflict_check(s, current, target, branch, v[k])->Err_0)
                && after == (StoreView {
                    files: s2.files.union_prefer_right(conflict_contents(s, current, target, v.take(k).to_set(), branch)),
                    ..s2
                }),
            None => r == Ok::<MergeOutcomeView, ErrorView>(MergeOutcomeView::Conflicts(v)) && after == (StoreView {
                files: s2.files.union_prefer_right(conflict_contents(s, current, target, paths, branch)),
                merge_head: Ok(Some(tgt + "\n"@)),
                merge_conflicts: Ok(Some(v)),
                ..s2
            }),
        }
    }
}

/// Whether merging `branch` into the current branch at time `timestamp_secs`
/// gives result `r` and store `after`, starting from `s`. When the branch's
/// commit is the common ancestor, nothing changes; when the current commit
/// is, the current branch fast-forwards to the branch's commit; otherwise
/// the three snapshots are merged path by path, and either a merge commit
/// with both commits as parents is made and checked out, or the conflicts
/// are written out and the merge waits for them.
pub open spec fn merge_result(
    s: StoreView,
    branch: Seq<char>,
    timestamp_secs: u64,
    r: Result<MergeOutcomeView, ErrorView>,
    after: StoreView,
) -> bool {
    match merge_plan(s, branch) {
        Err(e) => r == Err::<MergeOutcomeView, ErrorView>(e) && after == s,
        Ok((b, cur, tgt, anc)) => if anc == tgt {
            r == Ok::<MergeOutcomeView, ErrorView>(MergeOutcomeView::AlreadyUpToDate) && after == s
        } else if anc == cur {
            restore_and_move(s, b, tgt, MergeOutcomeView::FastForward(tgt), r, after)
        } else {
            match merge_snapshots(s, anc, cur, tgt) {
                Err(e) => r == Err::<MergeOutcomeView, ErrorView>(e) && after == s,
                Ok((a, c, t)) => three_way_result(s, branch, cur, tgt, a, c, t, timestamp_secs, r, after),
            }
        },
    }
}

/// Whether merging the snapshots `a` (ancestor), `c` (current) and `t`
/// (the branch's) gives result `r` and store `after`: with conflicts, they
/// are written out; without, a merge commit is made and checked out.
#[verifier::opaque]
pub open spec fn three_way_result(
    s: StoreView,
    branch: Seq<char>,
    cur: Seq<char>,
    tgt: Seq<char>,
    a: Map<Seq<char>, Seq<char>>,
    c: Map<Seq<char>, Seq<char>>,
    t: Map<Seq<char>, Seq<char>>,
    timestamp_secs: u64,
    r: Result<MergeOutcomeView, ErrorView>,
    after: StoreView,
) -> bool {
    let merged = merged_snapshot(a, c, t);
    let paths = conflict_paths(a, c, t);
    if !paths.is_empty() {
        conflicted_merge(s, tgt, branch, merged, c, t, paths, r, after)
    } else {
        let commit = commit_of(merged, seq![cur, tgt], merge_message(branch), timestamp_secs);
        let h = object_hash(commit);
        restore_and_move(with_commit(s, merged, commit), spec_branch_ref(s)->Ok_0, h, MergeOutcomeView::Merged(h), r, after)
    }
}

/// The changes on disk of making the working tree and the index match
/// commit `h` and then pointing branch `b` at it: those of
/// [`restore_effects`], and on success the branch's ref.
#[verifier::opaque]
pub open spec fn move_effects(s: StoreView, b: Seq<char>, h: Seq<char>) -> Seq<EffectView> {
    match spec_entries_for_commit(s, h) {
        Err(_) => Seq::empty(),
        Ok(m) => restore_effects(s, m) + if restore_outcome(s, m).0 is Ok {
            seq![meta_write(b, h + "\n"@)]
        } else {
            Seq::empty()
        },
    }
}

/// Writing the conflicting file of each path of `ps`, in order.
pub open spec fn conflict_writes(
    s: StoreView,
    current: Map<Seq<char>, Seq<char>>,
    target: Map<Seq<char>, Seq<char>>,
    branch: Seq<char>,
    ps: Seq<Seq<char>>,
) -> Seq<EffectView> {
    ps.map_values(|p: Seq<char>| EffectView::WriteFile(p, conflict_content(s, current, target, p, branch)->Ok_0))
}

/// The changes on disk of a merge that found conflicts, in order: those of
/// making the working tree match the merged snapshot, then each conflicting
/// file in path order until the first failure, then `MERGE_HEAD` and
/// `MERGE_CONFLICTS`.
#[verifier::opaque]
pub open spec fn conflicted_effects(
    s: StoreView,
    tgt: Seq<char>,
    branch: Seq<char>,
    merged: Map<Seq<char>, Seq<char>>,
    current: Map<Seq<char>, Seq<char>>,
    target: Map<Seq<char>, Seq<char>>,
    paths: Set<Seq<char>>,
) -> Seq<EffectView> {
    restore_effects(s, merged) + if restore_outcome(s, merged).0 is Err {
        Seq::empty()
    } else {
        let v = ordered(paths);
        match first_failure(v, conflict_checks(s, current, target, branch)) {
            Some(k) => conflict_writes(s, current, target, branch, v.take(k)),
            None => conflict_writes(s, current, target, branch, v) + seq![
                meta_write("MERGE_HEAD"@, tgt + "\n"@),
                conflicts_write(v),
            ],
        }
    }
}

/// The changes on disk of merging the snapshots `a`, `c` and `t`: with
/// conflicts, those of [`conflicted_effects`]; without, the merge commit's
/// tree and commit files, then those of checking it out and moving the
/// branch to it.
#[verifier::opaque]
pub open spec fn three_way_effects(
    s: StoreView,
    branch: Seq<char>,
    cur: Seq<char>,
    tgt: Seq<char>,
    a: Map<Seq<char>, Seq<char>>,
    c: Map<Seq<char>, Seq<char>>,
    t: Map<Seq<char>, Seq<char>>,
    timestamp_secs: u64,
) -> Seq<EffectView> {
    let merged = merged_snapshot(a, c, t);
    let paths = conflict_paths(a, c, t);
    if !paths.is_empty() {
        conflicted_effects(s, tgt, branch, merged, c, t, paths)
    } else {
        let commit = commit_of(merged, seq![cur, tgt], merge_message(branch), timestamp_secs);
        seq![object_write(tree_of(merged)), object_write(commit)] + move_effects(
            with_commit(s, merged, commit),
            spec_branch_ref(s)->Ok_0,
            object_hash(commit),
        )
    }
}

/// The changes on disk that merging `branch` records, in order; nothing
/// when the checks fail or the branch is already merged.
pub open spec fn merge_effects(s: StoreView, branch: Seq<char>, timestamp_secs: u64) -> Seq<EffectView> {
    match merge_plan(s, branch) {
        Err(_) => Seq::empty(),
        Ok((b, cur, tgt, anc)) => if anc == tgt {
            Seq::empty()
        } else if anc == cur {
            move_effects(s, b, tgt)
        } else {
            match merge_snapshots(s, anc, cur, tgt) {
                Err(_) => Seq::empty(),
                Ok((a, c, t)) => three_way_effects(s, branch, cur, tgt, a, c, t, timestamp_secs),
            }
        },
    }
}

/// The commit a merge moves the branch to, fast-forwarded or newly made, is
/// a well-formed object name.
pub open spec fn moved_to_valid_name(o: Result<MergeOutcomeView, ErrorView>) -> bool {
    match o {
        Ok(MergeOutcomeView::FastForward(h)) => crate::text::valid_object_hash(h),
        Ok(MergeOutcomeView::Merged(h)) => crate::text::valid_object_hash(h),
        _ => true,
    }
}

/// A merge result taken by its view.
pub open spec fn outcome_view(r: Result<MergeOutcome, RepoError>) -> Result<MergeOutcomeView, ErrorView> {
    match r {
        Ok(o) => Ok(o@),
        Err(e) => Err(e@),
    }
}

impl Repository {
    /// The checks and reads of [`merge_plan`].
    fn prepare_merge(&self, branch: &str) -> (r: Result<(String, ObjectHash, ObjectHash, ObjectHash), RepoError>)
        ensures
            match r {
                Ok((b, cur, tgt, anc)) => merge_plan(self.store@, branch@) == Ok::<
                    (Seq<char>, Seq<char>, Seq<char>, Seq<char>),
                    ErrorView,
                >((b@, cur@, tgt@, anc@)),
                Err(e) => merge_plan(self.store@, branch@) == Err::<(Seq<char>, Seq<char>, Seq<char>, Seq<char>), ErrorView>(e@),
            },
            r matches Ok((b, cur, tgt, anc)) ==> crate::text::valid_object_hash(tgt@),
    {
        if let Err(e) = self.ensure_no_merge_in_progress() {
            return Err(e);
        }
        let b = match self.current_branch_ref() {
            Ok(b) => b,
            Err(e) => return Err(e),
        };
        let current_hash = match self.head_commit() {
            Err(e) => return Err(e),
            Ok(None) => return Err(RepoError::NoCommitsYet),
            Ok(Some(h)) => h,
        };
        let target_hash = match self.branch_commit(branch) {
            Ok(h) => h,
            Err(e) => return Err(e),
        };
        let ancestor = match self.find_common_ancestor(current_hash.as_str(), target_hash.as_str()) {
            Err(e) => return Err(e),
            Ok(None) => return Err(RepoError::NoCommonAncestor),
            Ok(Some(a)) => a,
        };
        Ok((b, current_hash, target_hash, ancestor))
    }

    /// Writes each conflicting file, in the order of `conflicts`, stopping at the first failure.
    fn write_conflicts(
        &mut self,
        conflicts: &Vec<String>,
        current: &PathMap<ObjectHash>,
        target: &PathMap<ObjectHash>,
        branch: &str,
    ) -> (r: Result<(), RepoError>)
        ensures
            ({
                let v = str_views(conflicts@);
                let k = match first_failure(v, conflict_checks(old(self).store@, current@, target@, branch@)) {
                    Some(k) => k,
                    None => v.len() as int,
                };
                &&& unit_view(r) == match first_failure(v, conflict_checks(old(self).store@, current@, target@, branch@)) {
                    Some(k) => conflict_check(old(self).store@, current@, target@, branch@, v[k]),
                    None => Ok(()),
                }
                &&& final(self).store@ == (StoreView {
                    files: old(self).store@.files.union_prefer_right(
                        conflict_contents(old(self).store@, current@, target@, v.take(k).to_set(), branch@),
                    ),
                    ..old(self).store@
                })
                &&& effect_views(final(self).store.effects@) == effect_views(old(self).store.effects@) + conflict_writes(
                    old(self).store@,
                    current@,
                    target@,
                    branch@,
                    v.take(k),
                )
            }),
            final(self).worktree == old(self).worktree,
            final(self).git_dir == old(self).git_dir,
    {
        let ghost s0 = self.store@;
        let ghost cv = str_views(conflicts@);
        let ghost e0 = effect_views(self.store.effects@);
        let mut i: usize = 0;
        assert(e0 + conflict_writes(s0, current@, target@, branch@, cv.take(0)) =~= e0);
        assert(s0.files.union_prefer_right(conflict_contents(s0, current@, target@, cv.take(0).to_set(), branch@)) =~= s0.files);
        while i < conflicts.len()
            invariant
                s0 == old(self).store@,
                cv == str_views(conflicts@),
                i <= conflicts@.len(),
                self.store@ == (StoreView {
                    files: s0.files.union_prefer_right(conflict_contents(s0, current@, target@, cv.take(i as int).to_set(), branch@)),
                    ..s0
                }),
                forall|p: Seq<char>| #[trigger] cv.take(i as int).contains(p) ==> conflict_content(s0, current@, target@, p, branch@) is Ok,
                e0 == effect_views(old(self).store.effects@),
                effect_views(self.store.effects@) == e0 + conflict_writes(s0, current@, target@, branch@, cv.take(i as int)),
                self.worktree == old(self).worktree,
                self.git_dir == old(self).git_dir,
            decreases conflicts.len() - i,
        {
            let path = &conflicts[i];
            let ghost p = path@;
            assert(cv[i as int] == p);
            let gc = current.get(path.as_str());
            let gt = target.get(path.as_str());
            assert(crate::merge::opt_ref_view(gc) == lookup(current@, p));
            assert(crate::merge::opt_ref_view(gt) == lookup(target@, p));
            let ghost before = self.store@;
            match self.write_conflict_file(path.as_str(), gc, gt, branch) {
                Ok(()) => {},
                Err(e) => {
                    proof {
                        let checks = conflict_checks(s0, current@, target@, branch@);
                        assert forall|k: int| 0 <= k < i implies (#[trigger] checks(cv[k])) is Ok by {
                            assert(cv.take(i as int)[k] == cv[k]);
                            assert(cv.take(i as int).contains(cv[k]));
                        }
                        assert(checks(cv[i as int]) is Err);
                        lemma_first_failure_at(cv, checks, i as int);
                    }
                    return Err(e);
                },
            }
            proof {
                assert(cv.take(i + 1) =~= cv.take(i as int).push(p));
                assert(conflict_writes(s0, current@, target@, branch@, cv.take(i + 1)) =~= conflict_writes(
                    s0,
                    current@,
                    target@,
                    branch@,
                    cv.take(i as int),
                ).push(EffectView::WriteFile(p, conflict_content(s0, current@, target@, p, branch@)->Ok_0)));
                crate::pathmap::lemma_push_contains(cv.take(i as int), p);
                let old_set = cv.take(i as int).to_set();
                let new_set = cv.take(i + 1).to_set();
                assert(new_set == old_set.insert(p));
                let a = s0.files.union_prefer_right(conflict_contents(s0, current@, target@, new_set, branch@));
                let b = before.files.insert(p, conflict_content(s0, current@, target@, p, branch@)->Ok_0);
                assert(a =~= b);
            }
            i = i + 1;
        }
        assert(cv.take(i as int) =~= cv);
        proof {
            let checks = conflict_checks(s0, current@, target@, branch@);
            assert forall|k: int| 0 <= k < cv.len() implies (#[trigger] checks(cv[k])) is Ok by {
                assert(cv.take(i as int)[k] == cv[k]);
                assert(cv.take(i as int).contains(cv[k]));
            }
            lemma_first_failure_none(cv, checks);
        }
        Ok(())
    }

    /// Ends a merge that found conflicts: see [`conflicted_merge`].
    fn finish_conflicted(
        &mut self,
        merged: &PathMap<ObjectHash>,
        conflicts: Vec<String>,
        current: &PathMap<ObjectHash>,
        target: &PathMap<ObjectHash>,
        target_hash: &str,
        branch: &str,
    ) -> (r: Result<MergeOutcome, RepoError>)
        requires
            sorted_paths(str_views(conflicts@)),
            str_views(conflicts@).len() > 0,
        ensures
            conflicted_merge(
                old(self).store@,
                target_hash@,
                branch@,
                merged@,
                current@,
                target@,
                str_views(conflicts@).to_set(),
                outcome_view(r),
                final(self).store@,
            ),
            effect_views(final(self).store.effects@) == effect_views(old(self).store.effects@) + conflicted_effects(
                old(self).store@,
                target_hash@,
                branch@,
                merged@,
                current@,
                target@,
                str_views(conflicts@).to_set(),
            ),
            moved_to_valid_name(outcome_view(r)),
            final(self).worktree == old(self).worktree,
            final(self).git_dir == old(self).git_dir,
    {
        let ghost s = self.store@;
        let ghost e0 = effect_views(self.store.effects@);
        let ghost paths = str_views(conflicts@).to_set();
        proof {
            reveal(conflicted_merge);
            reveal(conflicted_effects);
        }
        if let Err(e) = self.restore_entries(merged) {
            assert(restore_effects(s, merged@) + Seq::<EffectView>::empty() =~= restore_effects(s, merged@));
            return Err(e);
        }
        let ghost e1 = effect_views(self.store.effects@);
        let ghost s2 = self.store@;
        let ghost v = str_views(conflicts@);
        proof {
            lemma_conflict_frame(s, s2, current@, target@, branch@);
            lemma_ordered(v);
            assert(s2 == restored_store(s, merged@));
            assert forall|ps: Seq<Seq<char>>| #[trigger] conflict_writes(s2, current@, target@, branch@, ps)
                == conflict_writes(s, current@, target@, branch@, ps) by {
                assert(conflict_writes(s2, current@, target@, branch@, ps) =~= conflict_writes(s, current@, target@, branch@, ps));
            }
        }
        if let Err(e) = self.write_conflicts(&conflicts, current, target, branch) {
            proof {
                let k = first_failure(v, conflict_checks(s2, current@, target@, branch@))->Some_0;
                assert(first_failure(v, conflict_checks(s, current@, target@, branch@)) == Some(k));
                assert(conflict_content(s, current@, target@, v[k], branch@) == conflict_content(s2, current@, target@, v[k], branch@));
                assert(conflict_contents(s, current@, target@, v.take(k).to_set(), branch@)
                    == conflict_contents(s2, current@, target@, v.take(k).to_set(), branch@));
                assert(e@ == conflict_check(s, current@, target@, branch@, v[k])->Err_0);
                assert(conflict_writes(s2, current@, target@, branch@, v.take(k)) == conflict_writes(s, current@, target@, branch@, v.take(k)));
                assert(effect_views(self.store.effects@) =~= e0 + conflicted_effects(s, target_hash@, branch@, merged@, current@, target@, paths));
            }
            return Err(e);
        }
        proof {
            lemma_first_failure_some(v, conflict_checks(s2, current@, target@, branch@));
            assert(first_failure(v, conflict_checks(s, current@, target@, branch@)) is None);
            assert(v.take(v.len() as int) =~= v);
            assert(conflict_contents(s, current@, target@, paths, branch@) == conflict_contents(s2, current@, target@, paths, branch@));
        }
        let ghost e2 = effect_views(self.store.effects@);
        self.put_merge_head(concat_str(target_hash, "\n"));
        let copy = crate::object::clone_strings(&conflicts);
        self.put_conflicts(copy);
        proof {
            assert(conflict_writes(s2, current@, target@, branch@, v.take(v.len() as int)) == conflict_writes(s, current@, target@, branch@, v));
            assert(effect_views(self.store.effects@) =~= e0 + conflicted_effects(s, target_hash@, branch@, merged@, current@, target@, paths));
        }
        Ok(MergeOutcome::Conflicts(conflicts))
    }

    /// Ends a merge without conflicts: stores the merge commit, checks it out and moves the branch to it.
    fn finish_merged(
        &mut self,
        merged: &PathMap<ObjectHash>,
        current_hash: ObjectHash,
        target_hash: ObjectHash,
        branch: &str,
        timestamp_secs: u64,
    ) -> (r: Result<MergeOutcome, RepoError>)
        requires
            crate::repo::spec_branch_ref(old(self).store@) is Ok,
        ensures
            ({
                let commit = commit_of(merged@, seq![current_hash@, target_hash@], merge_message(branch@), timestamp_secs);
                let h = object_hash(commit);
                &&& restore_and_move(
                    with_commit(old(self).store@, merged@, commit),
                    crate::repo::spec_branch_ref(old(self).store@)->Ok_0,
                    h,
                    MergeOutcomeView::Merged(h),
                    outcome_view(r),
                    final(self).store@,
                )
                &&& effect_views(final(self).store.effects@) == effect_views(old(self).store.effects@) + (seq![
                    object_write(tree_of(merged@)),
                    object_write(commit),
                ] + move_effects(
                    with_commit(old(self).store@, merged@, commit),
                    crate::repo::spec_branch_ref(old(self).store@)->Ok_0,
                    h,
                ))
            }),
            moved_to_valid_name(outcome_view(r)),
            final(self).worktree == old(self).worktree,
            final(self).git_dir == old(self).git_dir,
    {
        let ghost s = self.store@;
        let ghost e0 = effect_views(self.store.effects@);
        proof {
            reveal(restore_and_move);
            reveal(move_effects);
        }
        let mut parents: Vec<ObjectHash> = Vec::new();
        parents.push(current_hash);
        parents.push(target_hash);
        assert(string_views(parents@) =~= seq![current_hash@, target_hash@]);
        let message = concat_str(concat_str("Merge branch '", branch).as_str(), "'");
        let merge_hash = self.write_commit_object(merged, parents, message, timestamp_secs);
        let ghost s1 = self.store@;
        let ghost e1 = effect_views(self.store.effects@);
        if let Err(e) = self.restore_commit(merge_hash.as_str()) {
            assert(effect_views(self.store.effects@) =~= e1 + move_effects(s1, crate::repo::spec_branch_ref(s)->Ok_0, merge_hash@));
            return Err(e);
        }
        assert(crate::repo::spec_branch_ref(self.store@) == crate::repo::spec_branch_ref(s));
        if let Err(e) = self.update_current_branch(merge_hash.as_str()) {
            return Err(e);
        }
        assert(effect_views(self.store.effects@) =~= e1 + move_effects(s1, crate::repo::spec_branch_ref(s)->Ok_0, merge_hash@));
        Ok(MergeOutcome::Merged(merge_hash))
    }

    /// Merges the snapshots of the ancestor, the current commit and the branch's commit: see [`three_way_result`].
    #[verifier::rlimit(100)]
    #[verifier::spinoff_prover]
    fn merge_three_way(
        &mut self,
        branch: &str,
        current_hash: ObjectHash,
        target_hash: ObjectHash,
        ancestor: &str,
        timestamp_secs: u64,
    ) -> (r: Result<MergeOutcome, RepoError>)
        requires
            crate::repo::spec_branch_ref(old(self).store@) is Ok,
        ensures
            match merge_snapshots(old(self).store@, ancestor@, current_hash@, target_hash@) {
                Err(e) => outcome_view(r) == Err::<MergeOutcomeView, ErrorView>(e) && final(self).store@ == old(self).store@,
                Ok((a, c, t)) => three_way_result(
                    old(self).store@,
                    branch@,
                    current_hash@,
                    target_hash@,
                    a,
                    c,
                    t,
                    timestamp_secs,
                    outcome_view(r),
                    final(self).store@,
                ),
            },
            effect_views(final(self).store.effects@) == effect_views(old(self).store.effects@) + match merge_snapshots(
                old(self).store@,
                ancestor@,
                current_hash@,
                target_hash@,
            ) {
                Err(_) => Seq::empty(),
                Ok((a, c, t)) => three_way_effects(old(self).store@, branch@, current_hash@, target_hash@, a, c, t, timestamp_secs),
            },
            moved_to_valid_name(outcome_view(r)),
            final(self).worktree == old(self).worktree,
            final(self).git_dir == old(self).git_dir,
    {
        let ghost e0 = effect_views(self.store.effects@);
        proof {
            assert(e0 + Seq::<EffectView>::empty() =~= e0);
        }
        let ancestor_entries = match self.entries_for_commit(ancestor) {
            Ok(m) => m,
            Err(e) => return Err(e),
        };
        let current_entries = match self.entries_for_commit(current_hash.as_str()) {
            Ok(m) => m,
            Err(e) => return Err(e),
        };
        let target_entries = match self.entries_for_commit(target_hash.as_str()) {
            Ok(m) => m,
            Err(e) => return Err(e),
        };
        let (merged_entries, conflicts) = Self::merge_entries(&ancestor_entries, &current_entries, &target_entries);
        let ghost paths = conflict_paths(ancestor_entries@, current_entries@, target_entries@);
        proof {
            reveal(three_way_result);
            reveal(three_way_effects);
        }
        if conflicts.len() > 0 {
            assert(str_views(conflicts@).contains(str_views(conflicts@)[0]));
            assert(paths.contains(str_views(conflicts@)[0]));
            assert(!paths.is_empty());
            return self.finish_conflicted(&merged_entries, conflicts, &current_entries, &target_entries, target_hash.as_str(), branch);
        }
        assert(paths.is_empty()) by {
            assert(str_views(conflicts@).to_set() =~= Set::<Seq<char>>::empty());
        }
        self.finish_merged(&merged_entries, current_hash, target_hash, branch, timestamp_secs)
    }

    /// Merges branch `branch` into the current branch, stamping a merge
    /// commit with `timestamp_secs` (seconds since the Unix epoch).
    pub fn merge(&mut self, branch: &str, timestamp_secs: u64) -> (r: Result<MergeOutcome, RepoError>)
        ensures
            merge_result(old(self).store@, branch@, timestamp_secs, outcome_view(r), final(self).store@),
            effect_views(final(self).store.effects@) == effect_views(old(self).store.effects@) + merge_effects(
                old(self).store@,
                branch@,
                timestamp_secs,
            ),
            moved_to_valid_name(outcome_view(r)),
            final(self).worktree == old(self).worktree,
            final(self).git_dir == old(self).git_dir,
    {
        let ghost s = self.store@;
        let ghost e0 = effect_views(self.store.effects@);
        proof {
            assert(e0 + Seq::<EffectView>::empty() =~= e0);
        }
        let (b, current_hash, target_hash, ancestor) = match self.prepare_merge(branch) {
            Ok(p) => p,
            Err(e) => return Err(e),
        };
        if ancestor == target_hash {
            return Ok(MergeOutcome::AlreadyUpToDate);
        }
        if ancestor == current_hash {
            proof {
                reveal(restore_and_move);
                reveal(move_effects);
            }
            if let Err(e) = self.restore_commit(target_hash.as_str()) {
                assert(effect_views(self.store.effects@) =~= e0 + move_effects(s, b@, target_hash@));
                return Err(e);
            }
            assert(crate::repo::spec_branch_ref(self.store@) == crate::repo::spec_branch_ref(s));
            if let Err(e) = self.update_current_branch(target_hash.as_str()) {
                return Err(e);
            }
            assert(effect_views(self.store.effects@) =~= e0 + move_effects(s, b@, target_hash@));
            return Ok(MergeOutcome::FastForward(target_hash));
        }
        self.merge_three_way(branch, current_hash, target_hash, ancestor.as_str(), timestamp_secs)
    }
}
} // verus!
