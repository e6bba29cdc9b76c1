//! Branches and moving `HEAD`: creating a branch, switching to one, and
//! checking out a commit.

use vstd::prelude::*;

use crate::digest::ObjectHash;
use crate::repo::{
    concat_str, effect_views, meta_write, spec_head_commit, spec_merge_head, unit_view, EffectView, ErrorView, RepoError, Repository,
    StoreView,
};
use crate::text::{is_valid_branch_name, trim, trim_str, valid_branch_name, valid_object_hash};
use crate::worktree::{restore_effects, restore_outcome, restored_store, spec_entries_for_commit};

verus! {

/// The ref file of branch `name`.
pub open spec fn branch_file(name: Seq<char>) -> Seq<char> {
    "refs/heads/"@ + name
}

/// Something exists at the ref path of branch `name`: a ref file, an
/// unreadable file or a directory.
pub open spec fn branch_taken(s: StoreView, name: Seq<char>) -> bool {
    ||| s.refs.contains_key(branch_file(name))
    ||| s.unreadable_refs.contains(branch_file(name))
    ||| s.other_refs.contains(branch_file(name))
}

/// Whether `path` is one of `list`.
fn contains_string(list: &Vec<String>, path: &String) -> (r: bool)
    ensures
        r == crate::json::string_views(list@).contains(path@),
{
    let ghost views = crate::json::string_views(list@);
    let mut i: usize = 0;
    while i < list.len()
        invariant
            views == crate::json::string_views(list@),
            i <= list@.len(),
            forall|j: int| 0 <= j < i ==> #[trigger] views[j] != path@,
        decreases list.len() - i,
    {
        if list[i] == *path {
            assert(views[i as int] == path@);
            return true;
        }
        i = i + 1;
    }
    false
}

/// The commit that branch `name` points at.
pub open spec fn spec_branch_commit(s: StoreView, name: Seq<char>) -> Result<Seq<char>, ErrorView> {
    if !valid_branch_name(name) {
        Err(ErrorView::InvalidBranchName(name))
    } else if !s.refs.contains_key(branch_file(name)) {
        if s.unreadable_refs.contains(branch_file(name)) {
            Err(ErrorView::Io(branch_file(name)))
        } else {
            Err(ErrorView::BranchNotFound(name))
        }
    } else if trim(s.refs[branch_file(name)]).len() == 0 {
        Err(ErrorView::NoCommitsYet)
    } else if !valid_object_hash(trim(s.refs[branch_file(name)])) {
        Err(ErrorView::InvalidObjectHash(trim(s.refs[branch_file(name)])))
    } else {
        Ok(trim(s.refs[branch_file(name)]))
    }
}

/// The outcome of making the working tree match commit `h`, then writing
/// `head` to `HEAD`: `None` when it succeeds, else the error.
pub open spec fn restore_and_point(
    s: StoreView,
    h: Seq<char>,
    head: Seq<char>,
    r: Result<(), ErrorView>,
    after: StoreView,
) -> bool {
    match spec_entries_for_commit(s, h) {
        Err(e) => r == Err::<(), ErrorView>(e) && after == s,
        Ok(m) => if restore_outcome(s, m).0 is Ok {
            r is Ok && after == (StoreView { head: Ok(head), ..restored_store(s, m) })
        } else {
            r == restore_outcome(s, m).0 && after == restored_store(s, m)
        },
    }
}


/// The changes on disk that making the working tree match commit `h`, then
/// writing `head` to `HEAD`, records: those of [`restore_effects`], and on
/// success the new `HEAD`.
pub open spec fn point_effects(s: StoreView, h: Seq<char>, head: Seq<char>) -> Seq<EffectView> {
    match spec_entries_for_commit(s, h) {
        Err(_) => Seq::empty(),
        Ok(m) => restore_effects(s, m) + if restore_outcome(s, m).0 is Ok {
            seq![meta_write("HEAD"@, head)]
        } else {
            Seq::empty()
        },
    }
}

impl Repository {
    /// Checks that `name` is a well-formed branch name.
    pub fn validate_branch_name(name: &str) -> (r: Result<(), RepoError>)
        ensures
            r is Ok <==> valid_branch_name(name@),
            r matches Err(e) ==> e@ == ErrorView::InvalidBranchName(name@),
    {
        if !is_valid_branch_name(name) {
            return Err(RepoError::InvalidBranchName(String::from_str(name)));
        }
        Ok(())
    }

    /// The commit that branch `name` points at.
    pub fn branch_commit(&self, name: &str) -> (r: Result<ObjectHash, RepoError>)
        ensures
            crate::repo::result_view(r) == spec_branch_commit(self.store@, name@),
    {
        if let Err(e) = Self::validate_branch_name(name) {
            return Err(e);
        }
        let branch_path = concat_str("refs/heads/", name);
        let content = match self.store.refs.get(branch_path.as_str()) {
            Some(c) => c,
            None => {
                if contains_string(&self.store.unreadable_refs, &branch_path) {
                    return Err(RepoError::Io(branch_path));
                }
                return Err(RepoError::BranchNotFound(String::from_str(name)));
            },
        };
        let commit_hash = trim_str(content.as_str());
        if commit_hash.unicode_len() == 0 {
            return Err(RepoError::NoCommitsYet);
        }
        if let Err(e) = Self::validate_object_hash(commit_hash.as_str()) {
            return Err(e);
        }
        Ok(commit_hash)
    }

    /// Creates branch `name` at the commit `HEAD` stands at.
    pub fn create_branch(&mut self, name: &str) -> (r: Result<(), RepoError>)
        ensures
            !valid_branch_name(name@) ==> (r matches Err(e) && e@ == ErrorView::InvalidBranchName(name@)),
            valid_branch_name(name@) && branch_taken(old(self).store@, name@)
                ==> (r matches Err(e) && e@ == ErrorView::BranchAlreadyExists(name@)),
            valid_branch_name(name@) && !branch_taken(old(self).store@, name@) ==> match spec_head_commit(old(self).store@) {
                Err(e) => r matches Err(x) && x@ == e,
                Ok(None) => r matches Err(x) && x@ == ErrorView::NoCommitsYet,
                Ok(Some(c)) => r is Ok && final(self).store@ == (StoreView {
                    refs: old(self).store@.refs.insert(branch_file(name@), c + "\n"@),
                    ..old(self).store@
                }),
            },
            r is Err ==> final(self).store@ == old(self).store@
                && effect_views(final(self).store.effects@) == effect_views(old(self).store.effects@),
            r is Ok ==> effect_views(final(self).store.effects@) == effect_views(old(self).store.effects@).push(
                meta_write(branch_file(name@), spec_head_commit(old(self).store@)->Ok_0->Some_0 + "\n"@),
            ),
            final(self).worktree == old(self).worktree,
            final(self).git_dir == old(self).git_dir,
    {
        if let Err(e) = Self::validate_branch_name(name) {
            return Err(e);
        }
        let branch_path = concat_str("refs/heads/", name);
        if self.store.refs.contains_key(branch_path.as_str()) || contains_string(&self.store.unreadable_refs, &branch_path)
            || contains_string(&self.store.other_refs, &branch_path) {
            return Err(RepoError::BranchAlreadyExists(String::from_str(name)));
        }
        let commit_hash = match self.head_commit() {
            Err(e) => return Err(e),
            Ok(None) => return Err(RepoError::NoCommitsYet),
            Ok(Some(h)) => h,
        };
        self.put_ref(branch_path, concat_str(commit_hash.as_str(), "\n"));
        Ok(())
    }

    /// Makes the working tree and the index match commit `commit_hash`.
    pub fn restore_commit(&mut self, commit_hash: &str) -> (r: Result<(), RepoError>)
        ensures
            match spec_entries_for_commit(old(self).store@, commit_hash@) {
                Err(e) => r matches Err(x) && x@ == e && final(self).store@ == old(self).store@
                    && effect_views(final(self).store.effects@) == effect_views(old(self).store.effects@),
                Ok(m) => unit_view(r) == restore_outcome(old(self).store@, m).0
                    && final(self).store@ == restored_store(old(self).store@, m)
                    && effect_views(final(self).store.effects@) == effect_views(old(self).store.effects@) + restore_effects(
                        old(self).store@,
                        m,
                    ),
            },
            final(self).worktree == old(self).worktree,
            final(self).git_dir == old(self).git_dir,
    {
        let entries = match self.entries_for_commit(commit_hash) {
            Ok(m) => m,
            Err(e) => return Err(e),
        };
        self.restore_entries(&entries)
    }

    /// Checks out commit `commit_hash`: makes the working tree and the index
    /// match it and detaches `HEAD` at it. Refused while a merge is in
    /// progress.
    pub fn checkout(&mut self, commit_hash: &str) -> (r: Result<(), RepoError>)
        ensures
            match spec_merge_head(old(self).store@) {
                Err(e) => r matches Err(x) && x@ == e && final(self).store@ == old(self).store@,
                Ok(Some(_)) => r matches Err(x) && x@ == ErrorView::MergeInProgress && final(self).store@ == old(self).store@,
                Ok(None) => restore_and_point(old(self).store@, commit_hash@, commit_hash@ + "\n"@, unit_view(r), final(self).store@),
            },
            effect_views(final(self).store.effects@) == effect_views(old(self).store.effects@) + match spec_merge_head(
                old(self).store@,
            ) {
                Ok(None) => point_effects(old(self).store@, commit_hash@, commit_hash@ + "\n"@),
                _ => Seq::empty(),
            },
            final(self).worktree == old(self).worktree,
            final(self).git_dir == old(self).git_dir,
    {
        if let Err(e) = self.ensure_no_merge_in_progress() {
            return Err(e);
        }
        if let Err(e) = self.restore_commit(commit_hash) {
            return Err(e);
        }
        self.put_head(concat_str(commit_hash, "\n"));
        Ok(())
    }

    /// Switches to branch `name`: makes the working tree and the index match
    /// its commit and points `HEAD` at the branch. Refused while a merge is
    /// in progress.
    pub fn switch_branch(&mut self, name: &str) -> (r: Result<(), RepoError>)
        ensures
            match spec_merge_head(old(self).store@) {
                Err(e) => r matches Err(x) && x@ == e && final(self).store@ == old(self).store@,
                Ok(Some(_)) => r matches Err(x) && x@ == ErrorView::MergeInProgress && final(self).store@ == old(self).store@,
                Ok(None) => match spec_branch_commit(old(self).store@, name@) {
                    Err(e) => r matches Err(x) && x@ == e && final(self).store@ == old(self).store@,
                    Ok(c) => restore_and_point(
                        old(self).store@,
                        c,
                        "ref: "@ + branch_file(name@) + "\n"@,
                        unit_view(r),
                        final(self).store@,
                    ),
                },
            },
            effect_views(final(self).store.effects@) == effect_views(old(self).store.effects@) + match spec_merge_head(
                old(self).store@,
            ) {
                Ok(None) => match spec_branch_commit(old(self).store@, name@) {
                    Ok(c) => point_effects(old(self).store@, c, "ref: "@ + branch_file(name@) + "\n"@),
                    Err(_) => Seq::empty(),
                },
                _ => Seq::empty(),
            },
            final(self).worktree == old(self).worktree,
            final(self).git_dir == old(self).git_dir,
    {
        if let Err(e) = self.ensure_no_merge_in_progress() {
            return Err(e);
        }
        let commit_hash = match self.branch_commit(name) {
            Ok(c) => c,
            Err(e) => return Err(e),
        };
        if let Err(e) = self.restore_commit(commit_hash.as_str()) {
            return Err(e);
        }
        let branch_ref = concat_str("refs/heads/", name);
        let head = concat_str("ref: ", branch_ref.as_str());
        self.put_head(concat_str(head.as_str(), "\n"));
        Ok(())
    }
}

} // verus!
