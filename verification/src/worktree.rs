//! Snapshots of the working tree: reading a commit's tree, and making the
//! working tree and the index match a snapshot.

use vstd::prelude::*;

use crate::digest::ObjectHash;
use crate::object::{Object, ObjectView};
use crate::path::{is_safe_path, leads_through_symlink, safe_path, through_symlink};
use crate::pathmap::{key_lt, lemma_map_of_drop_last, map_of, sorted_by_key, PathMap};
use crate::repo::{effect_views, index_write, result_view, spec_read_object, unit_view, EffectView, ErrorView, RepoError, Repository, StoreView};
use crate::staging::keys_in_order;

verus! {

/// The map a tree's entries give, a later entry for a path replacing an
/// earlier one.
pub open spec fn entries_map(t: Seq<(Seq<char>, Seq<char>)>) -> Map<Seq<char>, Seq<char>>
    decreases t.len(),
{
    if t.len() == 0 {
        Map::empty()
    } else {
        entries_map(t.drop_last()).insert(t.last().0, t.last().1)
    }
}

/// Read back entry by entry, a key-sorted listing gives the map it lists.
pub proof fn lemma_entries_map_sorted(l: Seq<(Seq<char>, Seq<char>)>)
    requires
        sorted_by_key(l),
    ensures
        entries_map(l) == map_of(l),
    decreases l.len(),
{
    if l.len() == 0 {
        assert(map_of(l) =~= Map::<Seq<char>, Seq<char>>::empty());
    } else {
        lemma_map_of_drop_last(l);
        let d = l.drop_last();
        assert forall|i: int, j: int| 0 <= i < j < d.len() implies key_lt(#[trigger] d[i].0, #[trigger] d[j].0) by {
            assert(d[i] == l[i] && d[j] == l[j]);
        }
        lemma_entries_map_sorted(d);
        assert(entries_map(l) =~= map_of(l));
    }
}

/// The entries of the tree of commit `h`.
pub open spec fn spec_tree_for_commit(s: StoreView, h: Seq<char>) -> Result<Seq<(Seq<char>, Seq<char>)>, ErrorView> {
    match spec_read_object(s.objects, h) {
        Err(e) => Err(e),
        Ok(ObjectView::Commit(c)) => match spec_read_object(s.objects, c.tree) {
            Err(e) => Err(e),
            Ok(ObjectView::Tree(t)) => Ok(t),
            Ok(_) => Err(ErrorView::ExpectedTree),
        },
        Ok(_) => Err(ErrorView::ExpectedCommit),
    }
}

/// The snapshot that commit `h` records: each path and its blob.
pub open spec fn spec_entries_for_commit(s: StoreView, h: Seq<char>) -> Result<Map<Seq<char>, Seq<char>>, ErrorView> {
    match spec_tree_for_commit(s, h) {
        Err(e) => Err(e),
        Ok(t) => Ok(entries_map(t)),
    }
}

/// The contents of the blob named `h`.
pub open spec fn spec_blob(s: StoreView, h: Seq<char>) -> Result<Seq<u8>, ErrorView> {
    match spec_read_object(s.objects, h) {
        Err(e) => Err(e),
        Ok(ObjectView::Blob(b)) => Ok(b),
        Ok(_) => Err(ErrorView::ExpectedBlob),
    }
}

/// The path may be written: it is safe and leads through no symbolic link.
pub open spec fn path_ok(s: StoreView, p: Seq<char>) -> bool {
    safe_path(p) && !through_symlink(s.symlinks, p)
}

/// The staged snapshot, or nothing when the index cannot be read.
pub open spec fn index_map(s: StoreView) -> Map<Seq<char>, Seq<char>> {
    match s.index {
        Ok(m) => m,
        Err(_) => Map::empty(),
    }
}

/// Whether path `p` of `entries` can be written from its blob: the path may
/// be written and the blob can be read; else the error.
pub open spec fn write_check(s: StoreView, entries: Map<Seq<char>, Seq<char>>, p: Seq<char>) -> Result<(), ErrorView> {
    if !path_ok(s, p) {
        Err(ErrorView::UnsafePath(p))
    } else {
        match spec_blob(s, entries[p]) {
            Err(e) => Err(e),
            Ok(_) => Ok(()),
        }
    }
}

/// [`write_check`] as a predicate value.
pub open spec fn write_checks(s: StoreView, entries: Map<Seq<char>, Seq<char>>) -> spec_fn(Seq<char>) -> Result<(), ErrorView> {
    |p: Seq<char>| write_check(s, entries, p)
}

/// Whether the staged path `p` can be left as making the working tree match
/// `entries` needs: kept when `entries` holds it, else removed, which the
/// path must allow.
pub open spec fn remove_check(s: StoreView, entries: Map<Seq<char>, Seq<char>>, p: Seq<char>) -> Result<(), ErrorView> {
    if !entries.contains_key(p) && !path_ok(s, p) {
        Err(ErrorView::UnsafePath(p))
    } else {
        Ok(())
    }
}

/// [`remove_check`] as a predicate value.
pub open spec fn remove_checks(s: StoreView, entries: Map<Seq<char>, Seq<char>>) -> spec_fn(Seq<char>) -> Result<(), ErrorView> {
    |p: Seq<char>| remove_check(s, entries, p)
}

/// The position of the first path of `keys` whose check fails.
pub open spec fn first_failure(keys: Seq<Seq<char>>, check: spec_fn(Seq<char>) -> Result<(), ErrorView>) -> Option<int>
    decreases keys.len(),
{
    if keys.len() == 0 {
        None
    } else {
        match first_failure(keys.drop_last(), check) {
            Some(k) => Some(k),
            None => if check(keys.last()) is Err {
                Some(keys.len() - 1)
            } else {
                None
            },
        }
    }
}

/// No check fails exactly when every path passes.
pub proof fn lemma_first_failure_none(keys: Seq<Seq<char>>, check: spec_fn(Seq<char>) -> Result<(), ErrorView>)
    ensures
        first_failure(keys, check) is None <==> forall|i: int| 0 <= i < keys.len() ==> check(#[trigger] keys[i]) is Ok,
    decreases keys.len(),
{
    if keys.len() > 0 {
        let d = keys.drop_last();
        lemma_first_failure_none(d, check);
        if first_failure(keys, check) is None {
            assert forall|i: int| 0 <= i < keys.len() implies check(#[trigger] keys[i]) is Ok by {
                if i < d.len() {
                    assert(keys[i] == d[i]);
                }
            }
        }
        if forall|i: int| 0 <= i < keys.len() ==> check(#[trigger] keys[i]) is Ok {
            assert forall|i: int| 0 <= i < d.len() implies check(#[trigger] d[i]) is Ok by {
                assert(keys[i] == d[i]);
            }
            assert(check(keys[keys.len() - 1]) is Ok);
        }
    }
}

/// A failure that the search reports is a path of `keys` whose check fails.
pub proof fn lemma_first_failure_some(keys: Seq<Seq<char>>, check: spec_fn(Seq<char>) -> Result<(), ErrorView>)
    ensures
        first_failure(keys, check) matches Some(k) ==> 0 <= k < keys.len() && check(keys[k]) is Err,
    decreases keys.len(),
{
    if keys.len() > 0 {
        let d = keys.drop_last();
        lemma_first_failure_some(d, check);
        if let Some(k) = first_failure(d, check) {
            assert(keys[k] == d[k]);
        }
    }
}

/// The first failing path is at `k` when every path before it passes and
/// the one at `k` fails.
pub proof fn lemma_first_failure_at(keys: Seq<Seq<char>>, check: spec_fn(Seq<char>) -> Result<(), ErrorView>, k: int)
    requires
        0 <= k < keys.len(),
        forall|i: int| 0 <= i < k ==> check(#[trigger] keys[i]) is Ok,
        check(keys[k]) is Err,
    ensures
        first_failure(keys, check) == Some(k),
    decreases keys.len(),
{
    let d = keys.drop_last();
    if k == keys.len() - 1 {
        assert forall|i: int| 0 <= i < d.len() implies check(#[trigger] d[i]) is Ok by {
            assert(keys[i] == d[i]);
        }
        lemma_first_failure_none(d, check);
    } else {
        assert forall|i: int| 0 <= i < k implies check(#[trigger] d[i]) is Ok by {
            assert(keys[i] == d[i]);
        }
        assert(d[k] == keys[k]);
        lemma_first_failure_at(d, check, k);
    }
}

/// What making the working tree and the index match `entries` gives: the
/// result and the working tree afterwards. The index is read first; then
/// each path of `entries`, in path order, is checked and written from its
/// blob; then each path the index tracked that `entries` does not hold, in
/// path order, is checked and removed. The first failure stops the work,
/// leaving the files changed until then.
pub open spec fn restore_outcome(s: StoreView, entries: Map<Seq<char>, Seq<char>>) -> (Result<(), ErrorView>, Map<Seq<char>, Seq<u8>>) {
    match s.index {
        Err(e) => (Err(e), s.files),
        Ok(idx) => {
            let keys = keys_in_order(entries);
            match first_failure(keys, write_checks(s, entries)) {
                Some(k) => (write_check(s, entries, keys[k]), written_files(s, entries, keys.take(k))),
                None => {
                    let ikeys = keys_in_order(idx);
                    match first_failure(ikeys, remove_checks(s, entries)) {
                        Some(j) => (
                            Err(ErrorView::UnsafePath(ikeys[j])),
                            written_files(s, entries, keys).remove_keys(dropped(ikeys.take(j), entries)),
                        ),
                        None => (Ok(()), restored_files(s, entries)),
                    }
                },
            }
        },
    }
}

/// Writing each path of `keys` from its blob in `entries`, in order.
pub open spec fn writes_of(s: StoreView, entries: Map<Seq<char>, Seq<char>>, keys: Seq<Seq<char>>) -> Seq<EffectView> {
    keys.map_values(|p: Seq<char>| EffectView::WriteFile(p, spec_blob(s, entries[p])->Ok_0))
}

/// Whether `entries` does not hold a path.
pub open spec fn not_in(entries: Map<Seq<char>, Seq<char>>) -> spec_fn(Seq<char>) -> bool {
    |p: Seq<char>| !entries.contains_key(p)
}

/// Removing each path of `ikeys` that `entries` does not hold, in order.
pub open spec fn removals_of(ikeys: Seq<Seq<char>>, entries: Map<Seq<char>, Seq<char>>) -> Seq<EffectView> {
    ikeys.filter(not_in(entries)).map_values(|p: Seq<char>| EffectView::RemoveFile(p))
}

/// The changes on disk that making the working tree and the index match
/// `entries` records, in order: the files written and removed until the
/// first failure, and on success the new `index.json`.
pub open spec fn restore_effects(s: StoreView, entries: Map<Seq<char>, Seq<char>>) -> Seq<EffectView> {
    match s.index {
        Err(_) => Seq::empty(),
        Ok(idx) => {
            let keys = keys_in_order(entries);
            match first_failure(keys, write_checks(s, entries)) {
                Some(k) => writes_of(s, entries, keys.take(k)),
                None => {
                    let ikeys = keys_in_order(idx);
                    match first_failure(ikeys, remove_checks(s, entries)) {
                        Some(j) => writes_of(s, entries, keys) + removals_of(ikeys.take(j), entries),
                        None => writes_of(s, entries, keys) + removals_of(ikeys, entries) + seq![index_write(entries)],
                    }
                },
            }
        },
    }
}

/// The store after making the working tree and the index match `entries`:
/// on success the index is `entries`; either way the working tree is as
/// [`restore_outcome`] leaves it.
pub open spec fn restored_store(s: StoreView, entries: Map<Seq<char>, Seq<char>>) -> StoreView {
    if restore_outcome(s, entries).0 is Ok {
        StoreView { files: restore_outcome(s, entries).1, index: Ok(entries), ..s }
    } else {
        StoreView { files: restore_outcome(s, entries).1, ..s }
    }
}

/// The working tree after making it match `entries`: each of its files
/// written from its blob, and each file staged before but absent from
/// `entries` removed; other files stay as they were.
pub open spec fn restored_files(s: StoreView, entries: Map<Seq<char>, Seq<char>>) -> Map<Seq<char>, Seq<u8>> {
    Map::new(
        |p: Seq<char>| entries.contains_key(p) || (s.files.contains_key(p) && !index_map(s).contains_key(p)),
        |p: Seq<char>| if entries.contains_key(p) {
            spec_blob(s, entries[p])->Ok_0
        } else {
            s.files[p]
        },
    )
}

impl Repository {
    /// Checks that `path` names a file inside the working tree.
    pub fn validate_repo_path(path: &str) -> (r: Result<(), RepoError>)
        ensures
            r is Ok <==> safe_path(path@),
            r matches Err(e) ==> e@ == ErrorView::UnsafePath(path@),
    {
        if !is_safe_path(path) {
            return Err(RepoError::UnsafePath(String::from_str(path)));
        }
        Ok(())
    }

    /// Checks that `path` leads through no symbolic link of the working tree.
    pub fn validate_no_symlinks(&self, path: &str) -> (r: Result<(), RepoError>)
        ensures
            r is Ok <==> !through_symlink(self.store@.symlinks, path@),
            r matches Err(e) ==> e@ == ErrorView::UnsafePath(path@),
    {
        if leads_through_symlink(path, &self.store.symlinks) {
            return Err(RepoError::UnsafePath(String::from_str(path)));
        }
        Ok(())
    }

    /// Checks that `path` may be written.
    fn validate_writable(&self, path: &str) -> (r: Result<(), RepoError>)
        ensures
            r is Ok <==> path_ok(self.store@, path@),
            r matches Err(e) ==> e@ == ErrorView::UnsafePath(path@),
    {
        if let Err(e) = Self::validate_repo_path(path) {
            return Err(e);
        }
        self.validate_no_symlinks(path)
    }

    /// The tree of commit `commit_hash`.
    pub fn tree_for_commit(&self, commit_hash: &str) -> (r: Result<crate::object::Tree, RepoError>)
        ensures
            match r {
                Ok(t) => spec_tree_for_commit(self.store@, commit_hash@) == Ok::<Seq<(Seq<char>, Seq<char>)>, ErrorView>(t@),
                Err(e) => spec_tree_for_commit(self.store@, commit_hash@) == Err::<Seq<(Seq<char>, Seq<char>)>, ErrorView>(e@),
            },
    {
        let commit = match self.read_object(commit_hash) {
            Err(e) => return Err(e),
            Ok(Object::Commit(c)) => c,
            Ok(_) => return Err(RepoError::ExpectedCommit),
        };
        match self.read_object(commit.tree.as_str()) {
            Err(e) => Err(e),
            Ok(Object::Tree(t)) => Ok(t),
            Ok(_) => Err(RepoError::ExpectedTree),
        }
    }

    /// The snapshot that commit `commit_hash` records.
    pub fn entries_for_commit(&self, commit_hash: &str) -> (r: Result<PathMap<ObjectHash>, RepoError>)
        ensures
            match r {
                Ok(m) => spec_entries_for_commit(self.store@, commit_hash@) == Ok::<Map<Seq<char>, Seq<char>>, ErrorView>(m@),
                Err(e) => spec_entries_for_commit(self.store@, commit_hash@) == Err::<Map<Seq<char>, Seq<char>>, ErrorView>(e@),
            },
    {
        let tree = match self.tree_for_commit(commit_hash) {
            Ok(t) => t.entries,
            Err(e) => return Err(e),
        };
        let ghost tv = tree@.map_values(|e: crate::object::TreeEntry| e@);
        let mut entries: PathMap<ObjectHash> = PathMap::new();
        let mut i: usize = 0;
        assert(tv.take(0) =~= Seq::<(Seq<char>, Seq<char>)>::empty());
        while i < tree.len()
            invariant
                tv == tree@.map_values(|e: crate::object::TreeEntry| e@),
                i <= tree@.len(),
                entries@ == entries_map(tv.take(i as int)),
            decreases tree.len() - i,
        {
            let e = &tree[i];
            entries.insert(e.path.clone(), e.blob.clone());
            assert(tv.take(i + 1).drop_last() =~= tv.take(i as int));
            assert(tv.take(i + 1).last() == e@);
            i = i + 1;
        }
        assert(tv.take(i as int) =~= tv);
        Ok(entries)
    }

    /// The contents of the blob `hash` names, or nothing when there is no hash.
    pub fn blob_bytes_for_merge(&self, hash: Option<&ObjectHash>) -> (r: Result<Vec<u8>, RepoError>)
        ensures
            match hash {
                None => r matches Ok(b) && b@.len() == 0,
                Some(h) => match r {
                    Ok(b) => spec_blob(self.store@, h@) == Ok::<Seq<u8>, ErrorView>(b@),
                    Err(e) => spec_blob(self.store@, h@) == Err::<Seq<u8>, ErrorView>(e@),
                },
            },
    {
        match hash {
            None => Ok(Vec::new()),
            Some(h) => match self.read_object(h.as_str()) {
                Err(e) => Err(e),
                Ok(Object::Blob(b)) => Ok(b.bytes),
                Ok(_) => Err(RepoError::ExpectedBlob),
            },
        }
    }
}


/// The working tree with the first entries of `keys` written from their
/// blobs.
pub open spec fn written_files(s: StoreView, entries: Map<Seq<char>, Seq<char>>, written: Seq<Seq<char>>) -> Map<Seq<char>, Seq<u8>> {
    Map::new(
        |p: Seq<char>| s.files.contains_key(p) || written.contains(p),
        |p: Seq<char>| if written.contains(p) {
            spec_blob(s, entries[p])->Ok_0
        } else {
            s.files[p]
        },
    )
}

/// The paths among `keys` that `entries` does not hold.
pub open spec fn dropped(keys: Seq<Seq<char>>, entries: Map<Seq<char>, Seq<char>>) -> Set<Seq<char>> {
    Set::new(|p: Seq<char>| keys.contains(p) && !entries.contains_key(p))
}

/// Writing one more path adds its blob to the written files.
proof fn lemma_written_push(s: StoreView, entries: Map<Seq<char>, Seq<char>>, keys: Seq<Seq<char>>, p: Seq<char>)
    ensures
        written_files(s, entries, keys.push(p)) == written_files(s, entries, keys).insert(p, spec_blob(s, entries[p])->Ok_0),
{
    crate::pathmap::lemma_push_contains(keys, p);
    let a = written_files(s, entries, keys.push(p));
    let b = written_files(s, entries, keys).insert(p, spec_blob(s, entries[p])->Ok_0);
    assert forall|q: Seq<char>| #[trigger] a.contains_key(q) == b.contains_key(q) by {
        assert(keys.push(p).contains(q) <==> keys.contains(q) || q == p);
    }
    assert forall|q: Seq<char>| #[trigger] a.contains_key(q) implies a[q] == b[q] by {
        assert(keys.push(p).contains(q) <==> keys.contains(q) || q == p);
    }
    assert(a =~= b);
}

/// Removing one more staged path removes it, if `entries` does not hold it.
proof fn lemma_dropped_push(keys: Seq<Seq<char>>, entries: Map<Seq<char>, Seq<char>>, p: Seq<char>, files: Map<Seq<char>, Seq<u8>>)
    ensures
        entries.contains_key(p) ==> files.remove_keys(dropped(keys.push(p), entries)) == files.remove_keys(dropped(keys, entries)),
        !entries.contains_key(p) ==> files.remove_keys(dropped(keys.push(p), entries)) == files.remove_keys(dropped(keys, entries)).remove(p),
{
    crate::pathmap::lemma_push_contains(keys, p);
    if entries.contains_key(p) {
        assert(dropped(keys.push(p), entries) =~= dropped(keys, entries));
    } else {
        assert(files.remove_keys(dropped(keys.push(p), entries)) =~= files.remove_keys(dropped(keys, entries)).remove(p));
    }
}

/// Writing fails first at position `i` of `keys` when the paths before it
/// pass and the one at `i` fails.
proof fn lemma_write_fails_at(s: StoreView, em: Map<Seq<char>, Seq<char>>, keys: Seq<Seq<char>>, i: int)
    requires
        s.index is Ok,
        keys == keys_in_order(em),
        0 <= i < keys.len(),
        forall|p: Seq<char>| keys.take(i).contains(p) ==> path_ok(s, p) && spec_blob(s, em[p]) is Ok,
        write_check(s, em, keys[i]) is Err,
    ensures
        restore_outcome(s, em) == (write_check(s, em, keys[i]), written_files(s, em, keys.take(i))),
        restore_effects(s, em) == writes_of(s, em, keys.take(i)),
{
    assert forall|k: int| 0 <= k < i implies (#[trigger] write_checks(s, em)(keys[k])) is Ok by {
        assert(keys.take(i)[k] == keys[k]);
        assert(keys.take(i).contains(keys[k]));
    }
    lemma_first_failure_at(keys, write_checks(s, em), i);
}

/// Every path of `entries` can be written.
proof fn lemma_writes_pass(s: StoreView, em: Map<Seq<char>, Seq<char>>, keys: Seq<Seq<char>>)
    requires
        keys == keys_in_order(em),
        forall|p: Seq<char>| keys.contains(p) ==> path_ok(s, p) && spec_blob(s, em[p]) is Ok,
    ensures
        first_failure(keys, write_checks(s, em)) is None,
{
    assert forall|k: int| 0 <= k < keys.len() implies (#[trigger] write_checks(s, em)(keys[k])) is Ok by {
        assert(keys.contains(keys[k]));
    }
    lemma_first_failure_none(keys, write_checks(s, em));
}

/// Removing fails first at position `j` of the index's paths when the paths
/// before it pass and the one at `j` fails.
proof fn lemma_remove_fails_at(
    s: StoreView,
    em: Map<Seq<char>, Seq<char>>,
    keys: Seq<Seq<char>>,
    ikeys: Seq<Seq<char>>,
    j: int,
)
    requires
        s.index is Ok,
        keys == keys_in_order(em),
        ikeys == keys_in_order(index_map(s)),
        forall|p: Seq<char>| keys.contains(p) ==> path_ok(s, p) && spec_blob(s, em[p]) is Ok,
        0 <= j < ikeys.len(),
        forall|p: Seq<char>| ikeys.take(j).contains(p) && !em.contains_key(p) ==> path_ok(s, p),
        !em.contains_key(ikeys[j]),
        !path_ok(s, ikeys[j]),
    ensures
        restore_outcome(s, em) == (
            Err::<(), ErrorView>(ErrorView::UnsafePath(ikeys[j])),
            written_files(s, em, keys).remove_keys(dropped(ikeys.take(j), em)),
        ),
        restore_effects(s, em) == writes_of(s, em, keys) + removals_of(ikeys.take(j), em),
{
    lemma_writes_pass(s, em, keys);
    assert forall|k: int| 0 <= k < j implies (#[trigger] remove_checks(s, em)(ikeys[k])) is Ok by {
        assert(ikeys.take(j)[k] == ikeys[k]);
        assert(ikeys.take(j).contains(ikeys[k]));
    }
    lemma_first_failure_at(ikeys, remove_checks(s, em), j);
}

/// Every path can be written and every staged path left as needed.
proof fn lemma_restore_passes(s: StoreView, em: Map<Seq<char>, Seq<char>>, keys: Seq<Seq<char>>, ikeys: Seq<Seq<char>>)
    requires
        s.index is Ok,
        keys == keys_in_order(em),
        ikeys == keys_in_order(index_map(s)),
        forall|p: Seq<char>| keys.contains(p) ==> path_ok(s, p) && spec_blob(s, em[p]) is Ok,
        forall|p: Seq<char>| ikeys.contains(p) && !em.contains_key(p) ==> path_ok(s, p),
    ensures
        restore_outcome(s, em) == (Ok::<(), ErrorView>(()), restored_files(s, em)),
        restore_effects(s, em) == writes_of(s, em, keys) + removals_of(ikeys, em) + seq![index_write(em)],
{
    lemma_writes_pass(s, em, keys);
    assert forall|k: int| 0 <= k < ikeys.len() implies (#[trigger] remove_checks(s, em)(ikeys[k])) is Ok by {
        assert(ikeys.contains(ikeys[k]));
    }
    lemma_first_failure_none(ikeys, remove_checks(s, em));
}

impl Repository {
    /// Makes the working tree and the index match `entries`: writes each of
    /// its files from its blob, removes each file that the index tracked and
    /// `entries` does not hold, and stages `entries`. Stops at the first
    /// failure, leaving the files written until then.
    pub fn restore_entries(&mut self, entries: &PathMap<ObjectHash>) -> (r: Result<(), RepoError>)
        ensures
            unit_view(r) == restore_outcome(old(self).store@, entries@).0,
            final(self).store@ == restored_store(old(self).store@, entries@),
            effect_views(final(self).store.effects@) == effect_views(old(self).store.effects@) + restore_effects(
                old(self).store@,
                entries@,
            ),
            final(self).worktree == old(self).worktree,
            final(self).git_dir == old(self).git_dir,
    {
        let ghost s0 = self.store@;
        let ghost em = entries@;
        let ghost e0 = effect_views(self.store.effects@);
        let current_index = match self.read_index() {
            Ok(m) => m,
            Err(e) => {
                assert(e0 + Seq::<EffectView>::empty() =~= e0);
                return Err(e);
            },
        };
        proof {
            use_type_invariant(entries);
            entries.lemma_wf();
            use_type_invariant(&current_index);
            current_index.lemma_wf();
        }
        let ghost keys = entries.keys();
        assert(keys =~= keys_in_order(em));
        let n = entries.len();
        let mut i: usize = 0;
        assert(keys.take(0) =~= Seq::<Seq<char>>::empty());
        assert(written_files(s0, em, keys.take(0)) =~= s0.files);
        assert(e0 + writes_of(s0, em, keys.take(0)) =~= e0);
        while i < n
            invariant
                n == entries.pairs().len(),
                em == entries@,
                keys == entries.keys(),
                keys == keys_in_order(em),
                s0.index is Ok,
                entries.well_formed(),
                effect_views(self.store.effects@) == e0 + writes_of(s0, em, keys.take(i as int)),
                e0 == effect_views(old(self).store.effects@),
                i <= n,
                self.store@.files == written_files(s0, em, keys.take(i as int)),
                self.store@ == (StoreView { files: self.store@.files, ..s0 }),
                forall|p: Seq<char>| keys.take(i as int).contains(p) ==> path_ok(s0, p) && spec_blob(s0, em[p]) is Ok,
                self.worktree == old(self).worktree,
                self.git_dir == old(self).git_dir,
                s0 == old(self).store@,
            decreases n - i,
        {
            proof {
                entries.lemma_wf();
            }
            let (path, blob_hash) = entries.entry_at(i);
            let ghost p = path@;
            assert(keys[i as int] == p);
            assert(em.contains_key(p) && em[p] == blob_hash@);
            if let Err(e) = self.validate_writable(path.as_str()) {
                proof {
                    lemma_write_fails_at(s0, em, keys, i as int);
                }
                return Err(e);
            }
            let bytes = match self.read_object(blob_hash.as_str()) {
                Err(e) => {
                    assert(spec_blob(s0, em[p]) == Err::<Seq<u8>, ErrorView>(e@));
                    proof {
                        lemma_write_fails_at(s0, em, keys, i as int);
                    }
                    return Err(e);
                },
                Ok(Object::Blob(b)) => b.bytes,
                Ok(_) => {
                    assert(spec_blob(s0, em[p]) == Err::<Seq<u8>, ErrorView>(ErrorView::ExpectedBlob));
                    proof {
                        lemma_write_fails_at(s0, em, keys, i as int);
                    }
                    return Err(RepoError::ExpectedBlob);
                },
            };
            assert(spec_blob(s0, em[p]) == Ok::<Seq<u8>, ErrorView>(bytes@));
            assert(path_ok(s0, p));
            self.write_file(path.as_str(), bytes);
            proof {
                assert(keys.take(i + 1) =~= keys.take(i as int).push(p));
                assert(writes_of(s0, em, keys.take(i + 1)) =~= writes_of(s0, em, keys.take(i as int)).push(
                    EffectView::WriteFile(p, spec_blob(s0, em[p])->Ok_0),
                ));
                lemma_written_push(s0, em, keys.take(i as int), p);
                assert forall|q: Seq<char>| keys.take(i + 1).contains(q) implies path_ok(s0, q) && spec_blob(s0, em[q]) is Ok by {
                    if q != p {
                        let k = choose|k: int| 0 <= k < i + 1 && #[trigger] keys.take(i + 1)[k] == q;
                        assert(keys.take(i as int)[k] == q);
                        assert(keys.take(i as int).contains(q));
                    } else {
                        assert(spec_blob(s0, em[p]) is Ok);
                    }
                }
            }
            i = i + 1;
        }
        assert(keys.take(n as int) =~= keys);
        let ghost written = written_files(s0, em, keys);
        let ghost ikeys = current_index.keys();
        let ghost im = current_index@;
        assert(ikeys =~= keys_in_order(index_map(s0)));
        let m = current_index.len();
        let mut j: usize = 0;
        assert(ikeys.take(0) =~= Seq::<Seq<char>>::empty());
        assert(written.remove_keys(dropped(ikeys.take(0), em)) =~= written);
        proof {
            reveal_with_fuel(Seq::<_>::filter, 1);
        }
        assert(ikeys.take(0).filter(not_in(em)) =~= Seq::<Seq<char>>::empty());
        assert(e0 + writes_of(s0, em, keys) + removals_of(ikeys.take(0), em) =~= effect_views(self.store.effects@));
        while j < m
            invariant
                m == current_index.pairs().len(),
                ikeys == current_index.keys(),
                im == current_index@,
                im == index_map(s0),
                current_index.well_formed(),
                em == entries@,
                keys == entries.keys(),
                keys == keys_in_order(em),
                ikeys == keys_in_order(index_map(s0)),
                s0.index is Ok,
                written == written_files(s0, em, keys),
                effect_views(self.store.effects@) == e0 + writes_of(s0, em, keys) + removals_of(ikeys.take(j as int), em),
                e0 == effect_views(old(self).store.effects@),
                j <= m,
                self.store@.files == written.remove_keys(dropped(ikeys.take(j as int), em)),
                self.store@ == (StoreView { files: self.store@.files, ..s0 }),
                forall|p: Seq<char>| keys.contains(p) ==> path_ok(s0, p) && spec_blob(s0, em[p]) is Ok,
                forall|p: Seq<char>| ikeys.take(j as int).contains(p) && !em.contains_key(p) ==> path_ok(s0, p),
                self.worktree == old(self).worktree,
                self.git_dir == old(self).git_dir,
                s0 == old(self).store@,
            decreases m - j,
        {
            proof {
                current_index.lemma_wf();
            }
            let (path, _) = current_index.entry_at(j);
            let ghost p = path@;
            assert(ikeys[j as int] == p);
            assert(im.contains_key(p));
            proof {
                assert(ikeys.take(j + 1) =~= ikeys.take(j as int).push(p));
                lemma_dropped_push(ikeys.take(j as int), em, p, written);
                ikeys.take(j as int).lemma_filter_push(p, not_in(em));
            }
            let ghost before = effect_views(self.store.effects@);
            if !entries.contains_key(path.as_str()) {
                if let Err(e) = self.validate_writable(path.as_str()) {
                    proof {
                        lemma_remove_fails_at(s0, em, keys, ikeys, j as int);
                    }
                    return Err(e);
                }
                self.remove_file(path.as_str());
                assert(removals_of(ikeys.take(j + 1), em) =~= removals_of(ikeys.take(j as int), em).push(EffectView::RemoveFile(p)));
            } else {
                assert(removals_of(ikeys.take(j + 1), em) =~= removals_of(ikeys.take(j as int), em));
            }
            proof {
                assert forall|q: Seq<char>| ikeys.take(j + 1).contains(q) && !em.contains_key(q) implies path_ok(s0, q) by {
                    if q != p {
                        let k = choose|k: int| 0 <= k < j + 1 && #[trigger] ikeys.take(j + 1)[k] == q;
                        assert(ikeys.take(j as int)[k] == q);
                    }
                }
            }
            j = j + 1;
        }
        proof {
            assert(ikeys.take(m as int) =~= ikeys);
            current_index.lemma_wf();
            entries.lemma_wf();
            assert forall|p: Seq<char>| #[trigger] em.contains_key(p) implies path_ok(s0, p) && spec_blob(s0, em[p]) is Ok by {
                assert(keys.contains(p));
            }
            assert forall|p: Seq<char>| #[trigger] index_map(s0).contains_key(p) && !em.contains_key(p) implies path_ok(s0, p) by {
                assert(ikeys.contains(p));
            }
            assert forall|p: Seq<char>| keys.contains(p) <==> #[trigger] em.contains_key(p) by {
                if keys.contains(p) {
                    let k = choose|k: int| 0 <= k < keys.len() && keys[k] == p;
                    assert(em.contains_key(entries.pairs()[k].0));
                }
            }
            assert forall|p: Seq<char>| ikeys.contains(p) <==> #[trigger] im.contains_key(p) by {
                if ikeys.contains(p) {
                    let k = choose|k: int| 0 <= k < ikeys.len() && ikeys[k] == p;
                    assert(im.contains_key(current_index.pairs()[k].0));
                }
            }
            assert(self.store@.files =~= restored_files(s0, em));
            lemma_restore_passes(s0, em, keys, ikeys);
        }
        let copy = entries.duplicate();
        self.put_index(copy);
        assert(effect_views(self.store.effects@) =~= e0 + restore_effects(s0, em));
        Ok(())
    }
}

} // verus!
