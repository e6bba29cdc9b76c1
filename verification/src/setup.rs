//! Creating a repository and finding the one a directory belongs to.

use vstd::prelude::*;
use std::path::Path;

use crate::json::string_views;
use crate::pathmap::PathMap;
use crate::repo::{concat_str, index_bytes, index_json, str_bytes, Effect, EffectView, ErrorView, RepoError, Repository, Store, StoreView};

verus! {

/// The parent directory of `p` as `std::path::Path::parent` gives it.
pub uninterp spec fn path_parent(p: Seq<char>) -> Option<Seq<char>>;

/// Calls `std::path::Path::parent`: the path without its final component,
/// if it has one (named `path_parent`). Removing a component leaves a
/// strictly shorter leading part of the path.
#[verifier::external_body]
fn parent_of(p: &str) -> (r: Option<String>)
    ensures
        r matches Some(q) ==> path_parent(p@) == Some(q@) && q@.len() < p@.len() && p@.take(q@.len() as int) == q@,
        r is None ==> path_parent(p@) is None,
{
    Path::new(p).parent().map(|q| q.to_string_lossy().into_owned())
}

/// `base` joined with the relative name `name`, as `Path::join` does: a `/`
/// goes between them unless `base` is empty or already ends with one.
pub open spec fn join_name(base: Seq<char>, name: Seq<char>) -> Seq<char> {
    if base.len() == 0 || base.last() == '/' {
        base + name
    } else {
        base + seq!['/'] + name
    }
}

/// `p`, then its parent, its parent's parent and so on up to the root.
pub open spec fn ancestor_dirs(p: Seq<char>) -> Seq<Seq<char>>
    decreases p.len(),
{
    match path_parent(p) {
        Some(q) => if q.len() < p.len() {
            seq![p] + ancestor_dirs(q)
        } else {
            seq![p]
        },
        None => seq![p],
    }
}

/// The directory holding a repository's files inside working tree `worktree`.
pub open spec fn git_dir_of(worktree: Seq<char>) -> Seq<char> {
    join_name(worktree, ".minigit"@)
}

/// The first directory, in the order of `dirs`, whose probe says that it
/// holds a `.minigit` directory.
pub open spec fn first_found(dirs: Seq<Seq<char>>, probes: Seq<bool>) -> Option<int> {
    if exists|i: int| 0 <= i < dirs.len() && i < probes.len() && probes[i] {
        Some(choose|i: int| 0 <= i < dirs.len() && i < probes.len() && probes[i]
            && forall|j: int| 0 <= j < i ==> !#[trigger] probes[j])
    } else {
        None
    }
}

/// `base` joined with `name`.
pub fn join_path(base: &str, name: &str) -> (r: String)
    ensures
        r@ == join_name(base@, name@),
{
    let n = base.unicode_len();
    if n == 0 || base.get_char(n - 1) == '/' {
        concat_str(base, name)
    } else {
        let with_sep = concat_str(base, "/");
        proof {
            reveal_strlit("/");
        }
        assert("/"@ =~= seq!['/']);
        concat_str(with_sep.as_str(), name)
    }
}

/// The directories to look in for a repository, nearest first: `start` and
/// each of its ancestors.
pub fn ancestors(start: &str) -> (r: Vec<String>)
    ensures
        string_views(r@) == ancestor_dirs(start@),
{
    let mut dirs: Vec<String> = Vec::new();
    let mut current = String::from_str(start);
    loop
        invariant
            ancestor_dirs(start@) == string_views(dirs@) + ancestor_dirs(current@),
        decreases current@.len(),
    {
        let ghost before = string_views(dirs@);
        let ghost c = current@;
        let parent = parent_of(current.as_str());
        dirs.push(current);
        assert(string_views(dirs@) =~= before.push(c));
        match parent {
            Some(q) => {
                assert(ancestor_dirs(c) == seq![c] + ancestor_dirs(q@));
                assert(before + (seq![c] + ancestor_dirs(q@)) =~= string_views(dirs@) + ancestor_dirs(q@));
                current = q;
            },
            None => {
                assert(ancestor_dirs(c) == seq![c]);
                assert(before + seq![c] =~= string_views(dirs@));
                return dirs;
            },
        }
    }
}

impl Repository {
    /// Finds the repository that directory `start` belongs to: the nearest of
    /// `ancestors(start)` whose probe in `probes` says that it holds a
    /// `.minigit` directory. Gives back its working tree and repository
    /// directory.
    pub fn discover(start: &str, probes: &Vec<bool>) -> (r: Result<(String, String), RepoError>)
        ensures
            match first_found(ancestor_dirs(start@), probes@) {
                Some(i) => (r matches Ok((w, g)) && w@ == ancestor_dirs(start@)[i] && g@ == git_dir_of(w@)),
                None => (r matches Err(e) && e@ == ErrorView::NotRepository),
            },
    {
        let dirs = ancestors(start);
        let ghost dv = string_views(dirs@);
        let mut i: usize = 0;
        while i < dirs.len()
            invariant
                dv == string_views(dirs@),
                dv == ancestor_dirs(start@),
                i <= dirs@.len(),
                forall|j: int| 0 <= j < i && j < probes@.len() ==> !#[trigger] probes@[j],
            decreases dirs.len() - i,
        {
            if i < probes.len() && probes[i] {
                let worktree = dirs[i].clone();
                let git_dir = join_path(worktree.as_str(), ".minigit");
                proof {
                    let k = first_found(dv, probes@)->Some_0;
                    assert(0 <= k < dv.len() && k < probes@.len() && probes@[k]
                        && forall|j: int| 0 <= j < k ==> !#[trigger] probes@[j]);
                    if k < i {
                    } else if k > i {
                        assert(!probes@[i as int]);
                    }
                    assert(k == i);
                }
                return Ok((worktree, git_dir));
            }
            i = i + 1;
        }
        Err(RepoError::NotRepository)
    }

    /// A repository at `worktree` whose files are `store`.
    pub fn open(worktree: String, git_dir: String, store: Store) -> (r: Repository)
        ensures
            r.worktree == worktree,
            r.git_dir == git_dir,
            r.store == store,
    {
        Repository { worktree, git_dir, store }
    }

    /// Hands over the recorded effects, oldest first, and forgets them.
    pub fn take_effects(&mut self) -> (r: Vec<Effect>)
        ensures
            r@ == old(self).store.effects@,
            final(self).store.effects@.len() == 0,
            final(self).store@ == old(self).store@,
            final(self).worktree == old(self).worktree,
            final(self).git_dir == old(self).git_dir,
    {
        let mut effects: Vec<Effect> = Vec::new();
        std::mem::swap(&mut effects, &mut self.store.effects);
        effects
    }

    /// Creates a repository in directory `path`, whose working tree holds
    /// `files` and the symbolic links `symlinks`; `git_dir_exists` tells
    /// whether `path` already has a `.minigit` entry. The new repository is
    /// on branch `main`, which has no commit yet, with an empty index.
    pub fn init(path: &str, git_dir_exists: bool, files: PathMap<Vec<u8>>, symlinks: Vec<String>) -> (r: Result<
        Repository,
        RepoError,
    >)
        ensures
            git_dir_exists ==> (r matches Err(e) && e@ == ErrorView::AlreadyExists),
            !git_dir_exists ==> (r matches Ok(repo) && {
                &&& repo.worktree@ == path@
                &&& repo.git_dir@ == git_dir_of(path@)
                &&& repo.store@ == (StoreView {
                    head: Ok("ref: refs/heads/main\n"@),
                    refs: Map::empty().insert("refs/heads/main"@, Seq::empty()),
                    objects: Map::empty(),
                    index: Ok(Map::empty()),
                    merge_head: Ok(None),
                    merge_conflicts: Ok(None),
                    files: files@,
                    symlinks: string_views(symlinks@),
                    probed: Map::empty(),
                    other_refs: Seq::empty(),
                    unreadable_refs: Seq::empty(),
                })
                &&& repo.store.effects@.map_values(|e: Effect| e@) == seq![
                    EffectView::CreateDir(Seq::empty()),
                    EffectView::CreateDir("objects"@),
                    EffectView::CreateDir("refs/heads"@),
                    EffectView::WriteMeta("HEAD"@, vstd::utf8::encode_utf8("ref: refs/heads/main\n"@)),
                    EffectView::WriteMeta("refs/heads/main"@, Seq::empty()),
                    EffectView::WriteMeta("index.json"@, index_json(Seq::empty())),
                ]
            }),
    {
        if git_dir_exists {
            return Err(RepoError::AlreadyExists);
        }
        let worktree = String::from_str(path);
        let git_dir = join_path(path, ".minigit");
        let mut refs: PathMap<String> = PathMap::new();
        refs.insert(String::from_str("refs/heads/main"), String::new());
        let index: PathMap<String> = PathMap::new();
        let index_file = index_bytes(&index);
        let mut effects: Vec<Effect> = Vec::new();
        effects.push(Effect::CreateDir(String::new()));
        effects.push(Effect::CreateDir(String::from_str("objects")));
        effects.push(Effect::CreateDir(String::from_str("refs/heads")));
        effects.push(Effect::WriteMeta(String::from_str("HEAD"), str_bytes("ref: refs/heads/main\n")));
        effects.push(Effect::WriteMeta(String::from_str("refs/heads/main"), Vec::new()));
        effects.push(Effect::WriteMeta(String::from_str("index.json"), index_file));
        let objects: PathMap<crate::repo::StoredObject> = PathMap::new();
        proof {
            use_type_invariant(&index);
            index.lemma_wf();
        }
        let store = Store {
            head: Ok(String::from_str("ref: refs/heads/main\n")),
            refs,
            objects,
            index: Ok(index),
            merge_head: Ok(None),
            merge_conflicts: Ok(None),
            files,
            symlinks,
            probed: PathMap::new(),
            other_refs: Vec::new(),
            unreadable_refs: Vec::new(),
            effects,
        };
        assert(store.effects@.map_values(|e: Effect| e@) =~= seq![
            EffectView::CreateDir(Seq::empty()),
            EffectView::CreateDir("objects"@),
            EffectView::CreateDir("refs/heads"@),
            EffectView::WriteMeta("HEAD"@, vstd::utf8::encode_utf8("ref: refs/heads/main\n"@)),
            EffectView::WriteMeta("refs/heads/main"@, Seq::empty()),
            EffectView::WriteMeta("index.json"@, index_json(Seq::empty())),
        ]);
        assert(string_views(store.other_refs@) =~= Seq::<Seq<char>>::empty());
        assert(string_views(store.unreadable_refs@) =~= Seq::<Seq<char>>::empty());
        assert(store.probed@ =~= Map::<Seq<char>, Result<Seq<u8>, ErrorView>>::empty());
        Ok(Repository { worktree, git_dir, store })
    }
}

} // verus!
